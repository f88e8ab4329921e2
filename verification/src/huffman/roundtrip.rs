//! Compression can be undone: what decompression makes of a compressed input
//! is the input.

use vstd::prelude::*;
use crate::huffman::bits::{lemma_pack, pack, padding_for, zeros};
use crate::huffman::decode::{
    decodable,
    decoded,
    is_message,
    lemma_message_unique,
    message_of,
    payload_bits,
    well_framed,
};
use crate::huffman::encode::encoded_bits;
use crate::huffman::error::HuffmanError;
use crate::huffman::frequency::{
    count,
    covers,
    frequency_table,
    increasing,
    lemma_frequency_table,
    total,
};
use crate::huffman::header::{file_of, lemma_header_round_trip, parts_of, valid_parts};

verus! {

/// The padding count and the packed stream that compression makes of code
/// bits.
pub open spec fn packed_parts(bits: Seq<bool>) -> (u8, Seq<u8>) {
    (padding_for(bits.len()) as u8, pack(bits))
}

/// The code bits of a packed stream are the bits that were packed.
pub proof fn lemma_payload_of_pack(bits: Seq<bool>)
    ensures
        payload_bits(packed_parts(bits).0, packed_parts(bits).1) == bits,
        packed_parts(bits).0 <= 7,
        packed_parts(bits).1.len() == 0 <==> bits.len() == 0,
{
    lemma_pack(bits);
    let padding = padding_for(bits.len());
    assert((bits + zeros(padding)).take(bits.len() as int) =~= bits);
}

/// What compression makes of an input and a well-formed table that has an
/// entry for each of its bytes are valid parts of a compressed file.
pub proof fn lemma_compressed_parts_valid(table: Seq<(u8, u32)>, input: Seq<u8>)
    requires
        increasing(table),
        covers(table, input),
    ensures
        ({
            let parts = packed_parts(encoded_bits(table, input));
            valid_parts(parts.0, table, parts.1)
        }),
{
    lemma_payload_of_pack(encoded_bits(table, input));
}

/// Decompression undoes compression with any well-formed table that has an
/// entry for every byte of the input and counts as many bytes as the input
/// has.
pub proof fn lemma_decode_inverts_compress(table: Seq<(u8, u32)>, input: Seq<u8>)
    requires
        increasing(table),
        covers(table, input),
        total(table) == input.len(),
    ensures
        ({
            let parts = packed_parts(encoded_bits(table, input));
            decoded(parts.0, table, parts.1) == Ok::<Seq<u8>, HuffmanError>(input)
        }),
{
    let bits = encoded_bits(table, input);
    let parts = packed_parts(bits);
    lemma_payload_of_pack(bits);
    assert(well_framed(parts.0, table, parts.1));
    assert(is_message(table, input, bits));
    assert(decodable(table, bits));
    lemma_message_unique(table, input, message_of(table, bits), bits);
}

/// Round trip: an input that is compressed with its own frequency table and
/// then decompressed is the input again.
pub proof fn lemma_round_trip(input: Seq<u8>)
    requires
        forall|b: u8| count(input, b) <= u32::MAX,
    ensures
        ({
            let table = frequency_table(input);
            let parts = packed_parts(encoded_bits(table, input));
            decoded(parts.0, table, parts.1) == Ok::<Seq<u8>, HuffmanError>(input)
        }),
{
    lemma_frequency_table(input);
    lemma_decode_inverts_compress(frequency_table(input), input);
}

/// Round trip through a file: the file that is made of a compressed input has
/// the parts that it was made of, and they decompress to the input.
pub proof fn lemma_file_round_trip(input: Seq<u8>)
    requires
        forall|b: u8| count(input, b) <= u32::MAX,
    ensures
        ({
            let table = frequency_table(input);
            let parts = packed_parts(encoded_bits(table, input));
            let file = file_of(parts.0, table, parts.1);
            &&& parts_of(file) == Ok::<(u8, Seq<(u8, u32)>, Seq<u8>), HuffmanError>(
                (parts.0, table, parts.1),
            )
            &&& decoded(parts.0, table, parts.1) == Ok::<Seq<u8>, HuffmanError>(input)
        }),
{
    let table = frequency_table(input);
    let parts = packed_parts(encoded_bits(table, input));
    lemma_frequency_table(input);
    lemma_compressed_parts_valid(table, input);
    lemma_header_round_trip(parts.0, table, parts.1);
    lemma_round_trip(input);
}

} // verus!
