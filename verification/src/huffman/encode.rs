//! Compression: from the input bytes and their frequency table to the packed
//! stream of code bits.

use std::collections::HashMap;
use vstd::prelude::*;
use crate::huffman::bits::{bits_of, pack, pack_bits, padding_for, zeros};
use crate::huffman::codes::{code_of, code_table, generate_codes, table_view};
use crate::huffman::frequency::{counts_of, covers, has_entry, increasing};
use crate::huffman::header::valid_parts;
use crate::huffman::roundtrip::lemma_compressed_parts_valid;
use crate::huffman::size::lemma_compressed_size;
use crate::huffman::tree::{build_binary_tree, huffman_tree, Node};

verus! {

/// The codes of the bytes of `s` in the tree `root`, one after the other.
pub open spec fn encode(root: Node, s: Seq<u8>) -> Seq<bool>
    decreases s.len(),
{
    if s.len() == 0 {
        Seq::empty()
    } else {
        encode(root, s.drop_last()) + code_of(root, s.last())
    }
}

/// The code bits of the input `s` under the frequency table `table`. Without
/// entries there is no tree and no bit.
pub open spec fn encoded_bits(table: Seq<(u8, u32)>, s: Seq<u8>) -> Seq<bool> {
    if table.len() == 0 {
        Seq::empty()
    } else {
        encode(huffman_tree(table), s)
    }
}

/// Whether every byte of `s` has a leaf in the tree `root`.
pub open spec fn in_tree(root: Node, s: Seq<u8>) -> bool {
    forall|k: int| 0 <= k < s.len() ==> root.contains(#[trigger] s[k])
}

/// Without its last byte, or without its first, a sequence of bytes of a tree
/// is one still.
pub proof fn lemma_in_tree_rest(root: Node, s: Seq<u8>)
    requires
        in_tree(root, s),
        s.len() > 0,
    ensures
        in_tree(root, s.drop_last()),
        in_tree(root, s.skip(1)),
{
    assert forall|k: int| 0 <= k < s.drop_last().len() implies root.contains(
        #[trigger] s.drop_last()[k],
    ) by {
        assert(s.drop_last()[k] == s[k]);
    }
    assert forall|k: int| 0 <= k < s.skip(1).len() implies root.contains(
        #[trigger] s.skip(1)[k],
    ) by {
        assert(s.skip(1)[k] == s[k + 1]);
    }
}

/// The code bits of a sequence begin with the code of its first byte.
pub proof fn lemma_encode_front(root: Node, s: Seq<u8>)
    requires
        s.len() > 0,
    ensures
        encode(root, s) == code_of(root, s[0]) + encode(root, s.skip(1)),
    decreases s.len(),
{
    if s.len() == 1 {
        assert(encode(root, s.drop_last()) == Seq::<bool>::empty());
        assert(encode(root, s.skip(1)) == Seq::<bool>::empty());
        assert(encode(root, s) == code_of(root, s[0]));
    } else {
        lemma_encode_front(root, s.drop_last());
        assert(s.drop_last().skip(1) == s.skip(1).drop_last());
        assert(s.skip(1).last() == s.last());
        assert(encode(root, s) == code_of(root, s[0]) + encode(root, s.skip(1)));
    }
}

/// Appends the bits of `code` to `bits`.
fn append_bits(bits: &mut Vec<bool>, code: &Vec<bool>)
    ensures
        final(bits)@ == old(bits)@ + code@,
{
    let mut i: usize = 0;
    while i < code.len()
        invariant
            i <= code.len(),
            bits@ == old(bits)@ + code@.take(i as int),
        decreases code.len() - i,
    {
        bits.push(code[i]);
        assert(bits@ == old(bits)@ + code@.take(i + 1));
        i += 1;
    }
    assert(code@.take(i as int) == code@);
}

/// Compresses `file_binary` with the prefix code of the frequency table
/// `char_freq`, which must have an entry for every byte of the input.
///
/// The code of each input byte is appended to a bit buffer, in the order of
/// the input; the buffer is filled up with zero bits to a whole number of bytes
/// and packed, most significant bit first. The result is the packed stream and
/// the number of padding bits, 0 to 7. An empty table, and with it an empty
/// input, gives an empty stream without padding. With the frequency table of
/// the input itself, the stream has no more bytes than the input.
pub fn compress(file_binary: &[u8], char_freq: &Vec<(u8, u32)>) -> (compressed: (Vec<u8>, u8))
    requires
        increasing(char_freq@),
        covers(char_freq@, file_binary@),
    ensures
        compressed.0@ == pack(encoded_bits(char_freq@, file_binary@)),
        compressed.0@.len() == (encoded_bits(char_freq@, file_binary@).len() + 7) / 8,
        compressed.1 == padding_for(encoded_bits(char_freq@, file_binary@).len()),
        bits_of(compressed.0@) == encoded_bits(char_freq@, file_binary@) + zeros(
            compressed.1 as nat,
        ),
        valid_parts(compressed.1, char_freq@, compressed.0@),
        counts_of(char_freq@, file_binary@) ==> compressed.0@.len() <= file_binary@.len(),
{
    broadcast use vstd::std_specs::hash::group_hash_axioms;
    let mut bits: Vec<bool> = Vec::new();
    if char_freq.len() > 0 {
        let root: Node = build_binary_tree(char_freq);
        let ghost tree = root;
        let mut codes: HashMap<u8, Vec<bool>> = HashMap::new();
        generate_codes(root, Vec::new(), &mut codes);
        assert(table_view(codes@) =~= code_table(tree));
        let mut i: usize = 0;
        while i < file_binary.len()
            invariant
                i <= file_binary.len(),
                covers(char_freq@, file_binary@),
                forall|b: u8| tree.contains(b) <==> has_entry(char_freq@, b),
                table_view(codes@) == code_table(tree),
                bits@ == encode(tree, file_binary@.take(i as int)),
            decreases file_binary.len() - i,
        {
            let byte: u8 = file_binary[i];
            assert(has_entry(char_freq@, file_binary@[i as int]));
            assert(table_view(codes@).contains_key(byte));
            assert(table_view(codes@)[byte] == code_of(tree, byte));
            let code: Option<&Vec<bool>> = codes.get(&byte);
            append_bits(&mut bits, code.unwrap());
            assert(file_binary@.take(i + 1).drop_last() == file_binary@.take(i as int));
            i += 1;
        }
        assert(file_binary@.take(i as int) == file_binary@);
    }
    proof {
        lemma_compressed_parts_valid(char_freq@, file_binary@);
        if counts_of(char_freq@, file_binary@) {
            lemma_compressed_size(char_freq@, file_binary@);
        }
    }
    pack_bits(&bits)
}

} // verus!
