//! The layout of a compressed file: a header that holds the padding count and
//! the frequency table, followed by the packed stream.
//!
//! | offset      | size        | field                                          |
//! |-------------|-------------|------------------------------------------------|
//! | 0           | 1           | padding count, 0 to 7                          |
//! | 1           | 1           | number of table entries minus one              |
//! | 2           | 5 per entry | byte value, then its count, little-endian      |
//! | 2 + 5 * n   | the rest    | packed stream                                  |
//!
//! The second byte holds the number of entries minus one, so that one byte is
//! enough for all 256 byte values. A table without entries belongs to the
//! empty input, and its file is empty: it has no header at all.

use vstd::prelude::*;
use crate::huffman::error::HuffmanError;
use crate::huffman::frequency::{increasing, is_increasing, lemma_increasing_len};

verus! {

/// Byte `i` of the four bytes of `x`, the least significant first.
pub open spec fn le_byte(x: u32, i: int) -> u8 {
    if i == 0 {
        (x % 256) as u8
    } else if i == 1 {
        ((x / 256) % 256) as u8
    } else if i == 2 {
        ((x / 65536) % 256) as u8
    } else {
        (x / 16777216) as u8
    }
}

/// The number whose four bytes, the least significant first, are `b0` to `b3`.
pub open spec fn le_value(b0: u8, b1: u8, b2: u8, b3: u8) -> u32 {
    (b0 + 256 * b1 + 65536 * b2 + 16777216 * b3) as u32
}

/// Byte `k` of the entries of a table as a file holds them: five bytes per
/// entry, the byte value and then its count.
pub open spec fn table_byte(table: Seq<(u8, u32)>, k: int) -> u8 {
    let entry = table[k / 5];
    if k % 5 == 0 {
        entry.0
    } else {
        le_byte(entry.1, k % 5 - 1)
    }
}

/// The entries of a table as a file holds them.
pub open spec fn table_bytes(table: Seq<(u8, u32)>) -> Seq<u8> {
    Seq::new(5 * table.len(), |k: int| table_byte(table, k))
}

/// What must hold of the three parts for a compressed file to hold them: the
/// byte values of the table strictly increase, the padding count is 0 to 7,
/// and a table without entries comes with an empty stream and no padding.
pub open spec fn valid_parts(padding: u8, table: Seq<(u8, u32)>, packed: Seq<u8>) -> bool {
    &&& increasing(table)
    &&& padding <= 7
    &&& table.len() == 0 ==> packed.len() == 0 && padding == 0
}

/// The compressed file that is made of the three parts.
pub open spec fn file_of(padding: u8, table: Seq<(u8, u32)>, packed: Seq<u8>) -> Seq<u8> {
    if table.len() == 0 {
        Seq::empty()
    } else {
        seq![padding, (table.len() - 1) as u8] + table_bytes(table) + packed
    }
}

/// Entry `i` of the table in the header of the file `bytes`.
pub open spec fn entry_at(bytes: Seq<u8>, i: int) -> (u8, u32) {
    let at = 2 + 5 * i;
    (bytes[at], le_value(bytes[at + 1], bytes[at + 2], bytes[at + 3], bytes[at + 4]))
}

/// The three parts of the compressed file `bytes`: the padding count, the
/// frequency table and the packed stream. The empty file has an empty table
/// and an empty stream. Any other file starts with a header, and is malformed
/// where it ends before the header does, the padding count is above 7, or the
/// byte values of the table do not strictly increase.
pub open spec fn parts_of(bytes: Seq<u8>) -> Result<(u8, Seq<(u8, u32)>, Seq<u8>), HuffmanError> {
    if bytes.len() == 0 {
        Ok((0u8, Seq::empty(), Seq::empty()))
    } else if bytes.len() < 2 || bytes.len() < 2 + 5 * (bytes[1] + 1) {
        Err(HuffmanError::MalformedHeader)
    } else {
        let entries = bytes[1] + 1;
        let table = Seq::new(entries as nat, |i: int| entry_at(bytes, i));
        let packed = bytes.skip(2 + 5 * entries);
        if valid_parts(bytes[0], table, packed) {
            Ok((bytes[0], table, packed))
        } else {
            Err(HuffmanError::MalformedHeader)
        }
    }
}

/// The four bytes of a number give the number back.
pub proof fn lemma_le_value_of_bytes(x: u32)
    ensures
        le_value(le_byte(x, 0), le_byte(x, 1), le_byte(x, 2), le_byte(x, 3)) == x,
{
    let low: int = (x % 65536) as int;
    let high: int = (x / 65536) as int;
    assert(x % 256 == low % 256);
    assert((x / 256) % 256 == low / 256);
    assert(high % 256 == (x / 65536) % 256);
    assert(high / 256 == x / 16777216);
    assert(high < 65536);
}

/// A number made of four bytes has those four bytes.
pub proof fn lemma_le_bytes_of_value(b0: u8, b1: u8, b2: u8, b3: u8)
    ensures
        le_byte(le_value(b0, b1, b2, b3), 0) == b0,
        le_byte(le_value(b0, b1, b2, b3), 1) == b1,
        le_byte(le_value(b0, b1, b2, b3), 2) == b2,
        le_byte(le_value(b0, b1, b2, b3), 3) == b3,
{
    let x = le_value(b0, b1, b2, b3);
    let low: int = b0 + 256 * b1;
    let high: int = b2 + 256 * b3;
    assert(x == low + 65536 * high);
    assert(x % 65536 == low && x / 65536 == high);
    assert(low % 256 == b0 && low / 256 == b1);
    assert(high % 256 == b2 && high / 256 == b3);
    assert(x % 256 == low % 256);
    assert((x / 256) % 256 == low / 256);
    assert(x / 16777216 == high / 256);
}

/// A file that is made of valid parts gives the same parts back.
pub proof fn lemma_header_round_trip(padding: u8, table: Seq<(u8, u32)>, packed: Seq<u8>)
    requires
        valid_parts(padding, table, packed),
    ensures
        parts_of(file_of(padding, table, packed)) == Ok::<
            (u8, Seq<(u8, u32)>, Seq<u8>),
            HuffmanError,
        >((padding, table, packed)),
{
    let bytes = file_of(padding, table, packed);
    if table.len() == 0 {
        assert(table =~= Seq::empty());
        assert(packed =~= Seq::empty());
    } else {
        lemma_increasing_len(table);
        let entries = bytes[1] + 1;
        assert(entries == table.len());
        let parsed = Seq::new(entries as nat, |i: int| entry_at(bytes, i));
        assert forall|i: int| 0 <= i < table.len() implies parsed[i] == table[i] by {
            let at = 2 + 5 * i;
            assert(bytes[at] == table_byte(table, 5 * i));
            assert(bytes[at + 1] == table_byte(table, 5 * i + 1));
            assert(bytes[at + 2] == table_byte(table, 5 * i + 2));
            assert(bytes[at + 3] == table_byte(table, 5 * i + 3));
            assert(bytes[at + 4] == table_byte(table, 5 * i + 4));
            lemma_le_value_of_bytes(table[i].1);
        }
        assert(parsed =~= table);
        assert(bytes.skip(2 + 5 * entries) =~= packed);
    }
}

/// A file that has parts is the file that is made of them, and they are valid.
pub proof fn lemma_parts_make_file(bytes: Seq<u8>)
    requires
        parts_of(bytes) is Ok,
    ensures
        ({
            let parts = parts_of(bytes)->Ok_0;
            valid_parts(parts.0, parts.1, parts.2) && file_of(parts.0, parts.1, parts.2) == bytes
        }),
{
    if bytes.len() > 0 {
        let parts = parts_of(bytes)->Ok_0;
        let table = parts.1;
        let made = file_of(parts.0, table, parts.2);
        assert(made.len() == bytes.len());
        assert forall|k: int| 0 <= k < bytes.len() implies made[k] == bytes[k] by {
            if 2 <= k < 2 + 5 * table.len() {
                let i = (k - 2) / 5;
                let at = 2 + 5 * i;
                assert(table[i] == entry_at(bytes, i));
                lemma_le_bytes_of_value(
                    bytes[at + 1],
                    bytes[at + 2],
                    bytes[at + 3],
                    bytes[at + 4],
                );
                assert(made[k] == table_byte(table, k - 2));
            }
        }
        assert(made =~= bytes);
    } else {
        assert(file_of(0u8, Seq::empty(), Seq::empty()) =~= bytes);
    }
}

/// Whether the three parts are valid parts of a compressed file.
pub fn are_valid_parts(padding: u8, char_freq: &Vec<(u8, u32)>, compressed_bytes: &Vec<u8>) -> (ok:
    bool)
    ensures
        ok == valid_parts(padding, char_freq@, compressed_bytes@),
{
    is_increasing(char_freq) && padding <= 7 && (char_freq.len() > 0 || (compressed_bytes.len() == 0
        && padding == 0))
}

/// Puts the three parts of a compressed file together: the padding count, the
/// number of table entries minus one, the entries in the order of the table,
/// each as its byte value and its count in four bytes, the least significant
/// first, and the packed stream. A table without entries gives the empty file.
pub fn write_compressed(compressed_bytes: Vec<u8>, padding: u8, char_freq: Vec<(u8, u32)>) -> (file:
    Vec<u8>)
    requires
        valid_parts(padding, char_freq@, compressed_bytes@),
    ensures
        file@ == file_of(padding, char_freq@, compressed_bytes@),
{
    let mut file: Vec<u8> = Vec::new();
    if char_freq.len() == 0 {
        return file;
    }
    proof {
        lemma_increasing_len(char_freq@);
    }
    file.push(padding);
    file.push((char_freq.len() - 1) as u8);
    let ghost head = file@;
    let mut i: usize = 0;
    while i < char_freq.len()
        invariant
            i <= char_freq.len(),
            file@ == head + table_bytes(char_freq@.take(i as int)),
        decreases char_freq.len() - i,
    {
        let entry: (u8, u32) = char_freq[i];
        let count: u32 = entry.1;
        file.push(entry.0);
        file.push((count % 256) as u8);
        file.push(((count / 256) % 256) as u8);
        file.push(((count / 65536) % 256) as u8);
        file.push((count / 16777216) as u8);
        proof {
            let before = char_freq@.take(i as int);
            let after = char_freq@.take(i + 1);
            assert(entry == after[i as int]);
            assert forall|k: int| 0 <= k < 5 * i implies table_byte(after, k) == table_byte(
                before,
                k,
            ) by {
                assert(after[k / 5] == before[k / 5]);
            }
            assert(file@ =~= head + table_bytes(after));
        }
        i += 1;
    }
    assert(char_freq@.take(i as int) == char_freq@);
    let ghost body = file@;
    let mut j: usize = 0;
    while j < compressed_bytes.len()
        invariant
            j <= compressed_bytes.len(),
            file@ == body + compressed_bytes@.take(j as int),
        decreases compressed_bytes.len() - j,
    {
        file.push(compressed_bytes[j]);
        assert(file@ == body + compressed_bytes@.take(j + 1));
        j += 1;
    }
    assert(compressed_bytes@.take(j as int) == compressed_bytes@);
    file
}

/// Takes a compressed file apart: the padding count, the frequency table and
/// the packed stream. The empty file stands for the empty input. A file is
/// malformed where it ends before its header does, where the padding count is
/// above 7, or where the byte values of the table do not strictly increase.
pub fn read_header(file_binary: &[u8]) -> (parts: Result<
    (u8, Vec<(u8, u32)>, Vec<u8>),
    HuffmanError,
>)
    ensures
        match parts {
            Ok(found) => parts_of(file_binary@) == Ok::<
                (u8, Seq<(u8, u32)>, Seq<u8>),
                HuffmanError,
            >((found.0, found.1@, found.2@)),
            Err(e) => parts_of(file_binary@) == Err::<(u8, Seq<(u8, u32)>, Seq<u8>), HuffmanError>(
                e,
            ),
        },
{
    let mut char_freq: Vec<(u8, u32)> = Vec::new();
    let mut compressed_data: Vec<u8> = Vec::new();
    if file_binary.len() == 0 {
        assert(char_freq@ =~= Seq::empty());
        assert(compressed_data@ =~= Seq::empty());
        return Ok((0, char_freq, compressed_data));
    }
    if file_binary.len() < 2 {
        return Err(HuffmanError::MalformedHeader);
    }
    let padding: u8 = file_binary[0];
    let unique_entries: usize = file_binary[1] as usize + 1;
    if file_binary.len() - 2 < 5 * unique_entries {
        return Err(HuffmanError::MalformedHeader);
    }
    let mut i: usize = 0;
    while i < unique_entries
        invariant
            i <= unique_entries <= 256,
            2 + 5 * unique_entries <= file_binary.len(),
            char_freq@ == Seq::new(i as nat, |n: int| entry_at(file_binary@, n)),
        decreases unique_entries - i,
    {
        let pos: usize = 2 + 5 * i;
        let char_byte: u8 = file_binary[pos];
        let mut freq: u32 = file_binary[pos + 1] as u32;
        freq += file_binary[pos + 2] as u32 * 256;
        freq += file_binary[pos + 3] as u32 * 65536;
        freq += file_binary[pos + 4] as u32 * 16777216;
        char_freq.push((char_byte, freq));
        assert(char_freq@ =~= Seq::new((i + 1) as nat, |n: int| entry_at(file_binary@, n)));
        i += 1;
    }
    let start: usize = 2 + 5 * unique_entries;
    let mut pos: usize = start;
    while pos < file_binary.len()
        invariant
            start <= pos <= file_binary.len(),
            compressed_data@ == file_binary@.subrange(start as int, pos as int),
        decreases file_binary.len() - pos,
    {
        compressed_data.push(file_binary[pos]);
        assert(compressed_data@ =~= file_binary@.subrange(start as int, pos + 1));
        pos += 1;
    }
    assert(compressed_data@ =~= file_binary@.skip(start as int));
    if padding > 7 || !is_increasing(&char_freq) {
        return Err(HuffmanError::MalformedHeader);
    }
    Ok((padding, char_freq, compressed_data))
}

} // verus!
