//! Decompression: from the packed stream back to the bytes, by walking the
//! tree of the frequency table bit by bit.

use vstd::prelude::*;
use crate::huffman::bits::{bit_at, bits_of, read_bit, zeros};
use crate::huffman::codes::{
    code_of,
    lemma_descend_concat,
    lemma_descend_from_leaf,
    lemma_descend_push,
    lemma_leaf_path,
    lemma_path_leads_to_leaf,
};
use crate::huffman::encode::{
    encode,
    encoded_bits,
    in_tree,
    lemma_encode_front,
    lemma_in_tree_rest,
};
use crate::huffman::error::HuffmanError;
use crate::huffman::frequency::{
    covers,
    has_entry,
    increasing,
    is_increasing,
    total,
    total_of,
};
use crate::huffman::tree::{build_binary_tree, huffman_tree, lemma_huffman_tree, Node, NodeKind};

verus! {

/// The code bits of a packed stream: all its bits but the last `padding`.
pub open spec fn payload_bits(padding: u8, packed: Seq<u8>) -> Seq<bool> {
    bits_of(packed).take(8 * packed.len() - padding)
}

/// What must hold of the three parts of a compressed file before its stream
/// is looked at: the table's byte values strictly increase, the padding count
/// is 0 to 7, and it is 0 where there is no byte to pad.
pub open spec fn well_framed(padding: u8, table: Seq<(u8, u32)>, packed: Seq<u8>) -> bool {
    &&& increasing(table)
    &&& padding <= 7
    &&& packed.len() == 0 ==> padding == 0
}

/// Whether `s` is a sequence of bytes of the table whose code bits are `bits`.
pub open spec fn is_message(table: Seq<(u8, u32)>, s: Seq<u8>, bits: Seq<bool>) -> bool {
    covers(table, s) && encoded_bits(table, s) == bits
}

/// Whether `bits` are the code bits of some sequence of bytes of the table.
pub open spec fn decodable(table: Seq<(u8, u32)>, bits: Seq<bool>) -> bool {
    exists|s: Seq<u8>| is_message(table, s, bits)
}

/// The sequence of bytes whose code bits are `bits`, where there is one.
pub open spec fn message_of(table: Seq<(u8, u32)>, bits: Seq<bool>) -> Seq<u8> {
    choose|s: Seq<u8>| is_message(table, s, bits)
}

/// What decompression gives: the bytes whose code bits the stream holds, as
/// many as the table counts; `MalformedHeader` where the parts are not well
/// framed or the table counts another number of bytes; `CorruptStream` where
/// the stream holds the code bits of no sequence of bytes.
pub open spec fn decoded(padding: u8, table: Seq<(u8, u32)>, packed: Seq<u8>) -> Result<
    Seq<u8>,
    HuffmanError,
> {
    let bits = payload_bits(padding, packed);
    if !well_framed(padding, table, packed) {
        Err(HuffmanError::MalformedHeader)
    } else if !decodable(table, bits) {
        Err(HuffmanError::CorruptStream)
    } else if message_of(table, bits).len() != total(table) {
        Err(HuffmanError::MalformedHeader)
    } else {
        Ok(message_of(table, bits))
    }
}

/// Two bit sequences that begin with the paths to two byte values, and are
/// equal, begin with the same path: the byte values are the same.
pub proof fn lemma_same_code(root: Node, a: u8, b: u8, x: Seq<bool>, y: Seq<bool>)
    requires
        root.contains(a),
        root.contains(b),
        root.path_to(a) + x == root.path_to(b) + y,
    ensures
        a == b,
        x == y,
{
    let p = root.path_to(a);
    let q = root.path_to(b);
    lemma_path_leads_to_leaf(root, a);
    lemma_path_leads_to_leaf(root, b);
    if p.len() <= q.len() {
        let rest = q.skip(p.len() as int);
        assert(q == p + rest) by {
            assert forall|i: int| 0 <= i < p.len() implies q[i] == p[i] by {
                assert((p + x)[i] == p[i]);
                assert((q + y)[i] == q[i]);
            }
            assert(q =~= p + rest);
        }
        lemma_descend_concat(root, p, rest);
        lemma_descend_from_leaf(root.descend(p)->0, rest);
        assert(rest.len() == 0);
        assert(q == p);
    } else {
        let rest = p.skip(q.len() as int);
        assert(p == q + rest) by {
            assert forall|i: int| 0 <= i < q.len() implies q[i] == p[i] by {
                assert((p + x)[i] == p[i]);
                assert((q + y)[i] == q[i]);
            }
            assert(p =~= q + rest);
        }
        lemma_descend_concat(root, q, rest);
        lemma_descend_from_leaf(root.descend(q)->0, rest);
        assert(false);
    }
    assert(x == y) by {
        assert((p + x).len() == (q + y).len());
        assert(x.len() == y.len());
        assert forall|i: int| 0 <= i < x.len() implies x[i] == y[i] by {
            assert((p + x)[p.len() + i] == x[i]);
            assert((q + y)[q.len() + i] == y[i]);
        }
        assert(x =~= y);
    }
}

/// Code bits are read in one way only. Where the code bits of `s1`, followed
/// by a path that ends at an internal node, are the code bits of `s2`, the
/// path is empty and the two sequences are the same.
pub proof fn lemma_unique_parse(root: Node, s1: Seq<u8>, path: Seq<bool>, s2: Seq<u8>)
    requires
        root.kind is Internal,
        in_tree(root, s1),
        in_tree(root, s2),
        root.descend(path) is Some,
        root.descend(path)->0.kind is Internal,
        encode(root, s1) + path == encode(root, s2),
    ensures
        s1 == s2,
        path.len() == 0,
    decreases s1.len(),
{
    if s1.len() == 0 {
        assert(encode(root, s1) + path == path);
        if s2.len() > 0 {
            lemma_encode_front(root, s2);
            assert(root.contains(s2[0]));
            lemma_path_leads_to_leaf(root, s2[0]);
            let code = root.path_to(s2[0]);
            assert(code_of(root, s2[0]) == code);
            let rest = encode(root, s2.skip(1));
            lemma_descend_concat(root, code, rest);
            lemma_descend_from_leaf(root.descend(code)->0, rest);
            assert(rest.len() == 0);
            assert(code + rest == code);
            assert(false);
        }
        assert(s1 =~= s2);
    } else {
        lemma_encode_front(root, s1);
        assert(root.contains(s1[0]));
        let code1 = root.path_to(s1[0]);
        assert(code1.len() > 0);
        assert(code_of(root, s1[0]) == code1);
        let x = encode(root, s1.skip(1)) + path;
        assert(encode(root, s1) + path == code1 + x);
        if s2.len() == 0 {
            assert((code1 + x).len() > 0);
            assert(false);
        }
        lemma_encode_front(root, s2);
        assert(root.contains(s2[0]));
        let code2 = root.path_to(s2[0]);
        assert(code2.len() > 0);
        assert(code_of(root, s2[0]) == code2);
        let y = encode(root, s2.skip(1));
        lemma_same_code(root, s1[0], s2[0], x, y);
        lemma_in_tree_rest(root, s1);
        lemma_in_tree_rest(root, s2);
        lemma_unique_parse(root, s1.skip(1), path, s2.skip(1));
        assert(s1 =~= seq![s1[0]] + s1.skip(1));
        assert(s2 =~= seq![s2[0]] + s2.skip(1));
    }
}

/// In a tree of one leaf every code is the single bit 0: a sequence of bytes
/// of the tree repeats the byte value of the leaf, and its code bits are as
/// many zero bits as it has bytes.
pub proof fn lemma_encode_single(root: Node, s: Seq<u8>)
    requires
        root.kind is Leaf,
        in_tree(root, s),
    ensures
        encode(root, s) == zeros(s.len()),
        forall|k: int| 0 <= k < s.len() ==> root.is_leaf_for(#[trigger] s[k]),
    decreases s.len(),
{
    if s.len() > 0 {
        lemma_in_tree_rest(root, s);
        lemma_encode_single(root, s.drop_last());
        assert(root.contains(s.last()));
        assert(code_of(root, s.last()) == seq![false]);
        assert(encode(root, s) =~= zeros(s.len()));
        assert forall|k: int| 0 <= k < s.len() implies root.is_leaf_for(#[trigger] s[k]) by {
            assert(root.contains(s[k]));
        }
    } else {
        assert(encode(root, s) =~= zeros(s.len()));
    }
}

/// Only one sequence of bytes of a tree has given code bits.
pub proof fn lemma_encode_injective(root: Node, s1: Seq<u8>, s2: Seq<u8>)
    requires
        in_tree(root, s1),
        in_tree(root, s2),
        encode(root, s1) == encode(root, s2),
    ensures
        s1 == s2,
{
    if root.kind is Internal {
        assert(encode(root, s1) + Seq::<bool>::empty() == encode(root, s1));
        lemma_unique_parse(root, s1, Seq::empty(), s2);
    } else {
        lemma_encode_single(root, s1);
        lemma_encode_single(root, s2);
        assert(zeros(s1.len()).len() == zeros(s2.len()).len());
        assert forall|k: int| 0 <= k < s1.len() implies s1[k] == s2[k] by {
            assert(root.is_leaf_for(s1[k]) && root.is_leaf_for(s2[k]));
        }
        assert(s1 =~= s2);
    }
}

/// The bytes that a well-formed table has entries for are the bytes of its
/// tree.
pub proof fn lemma_covers_in_tree(table: Seq<(u8, u32)>, s: Seq<u8>)
    requires
        increasing(table),
        table.len() >= 1,
    ensures
        covers(table, s) <==> in_tree(huffman_tree(table), s),
{
    lemma_huffman_tree(table);
    let root = huffman_tree(table);
    if covers(table, s) {
        assert forall|k: int| 0 <= k < s.len() implies root.contains(#[trigger] s[k]) by {
            assert(has_entry(table, s[k]));
        }
    }
    if in_tree(root, s) {
        assert forall|k: int| 0 <= k < s.len() implies has_entry(table, #[trigger] s[k]) by {
            assert(root.contains(s[k]));
        }
    }
}

/// A table without entries has an entry for the bytes of the empty sequence
/// only.
pub proof fn lemma_covers_nothing(table: Seq<(u8, u32)>, s: Seq<u8>)
    requires
        table.len() == 0,
        covers(table, s),
    ensures
        s.len() == 0,
{
    if s.len() > 0 {
        assert(has_entry(table, s[0]));
    }
}

/// Only one sequence of bytes of a well-formed table has given code bits.
pub proof fn lemma_message_unique(
    table: Seq<(u8, u32)>,
    s1: Seq<u8>,
    s2: Seq<u8>,
    bits: Seq<bool>,
)
    requires
        increasing(table),
        is_message(table, s1, bits),
        is_message(table, s2, bits),
    ensures
        s1 == s2,
{
    if table.len() == 0 {
        lemma_covers_nothing(table, s1);
        lemma_covers_nothing(table, s2);
        assert(s1 =~= s2);
    } else {
        lemma_covers_in_tree(table, s1);
        lemma_covers_in_tree(table, s2);
        lemma_encode_injective(huffman_tree(table), s1, s2);
    }
}

/// Walks the tree along the code bits of a packed stream. Every bit leads
/// from the current node to its right child where it is set, else to its left
/// child; a leaf gives its byte value to the output, and the walk starts again
/// at the root. In a tree of one leaf the bit 0 gives the byte value of the
/// leaf. The walk fails where a bit has no branch to follow or the bits end
/// below the root.
fn walk(root: &Node, padding: u8, packed: &Vec<u8>) -> (output: Option<Vec<u8>>)
    requires
        root.unique(),
        padding <= 7,
        packed.len() == 0 ==> padding == 0,
    ensures
        match output {
            Some(bytes) => in_tree(*root, bytes@) && encode(*root, bytes@) == payload_bits(
                padding,
                packed@,
            ),
            None => forall|s: Seq<u8>|
                in_tree(*root, s) ==> encode(*root, s) != payload_bits(padding, packed@),
        },
{
    let ghost bits = payload_bits(padding, packed@);
    assert(bits.len() == 8 * packed.len() - padding);
    let mut bytes: Vec<u8> = Vec::new();
    let mut current: &Node = root;
    let mut pending: bool = false;
    let ghost mut path: Seq<bool> = Seq::empty();
    let ghost mut k: int = 0;
    let mut j: usize = 0;
    assert(bits.take(0) =~= encode(*root, bytes@) + path);
    while j < packed.len()
        invariant
            j <= packed.len(),
            root.unique(),
            padding <= 7,
            bits == payload_bits(padding, packed@),
            k == if j < packed.len() { 8 * j } else { bits.len() as int },
            root.descend(path) == Some(*current),
            current.kind is Leaf ==> path.len() == 0,
            pending <==> path.len() > 0,
            bits.take(k) == encode(*root, bytes@) + path,
            in_tree(*root, bytes@),
        decreases packed.len() - j,
    {
        let byte: u8 = packed[j];
        let limit: u8 = if j == packed.len() - 1 {
            8 - padding
        } else {
            8
        };
        let mut t: u8 = 0;
        while t < limit
            invariant
                j < packed.len(),
                byte == packed@[j as int],
                t <= limit <= 8,
                padding <= 7,
                limit == if j == packed.len() - 1 { 8 - padding } else { 8 },
                root.unique(),
                bits == payload_bits(padding, packed@),
                k == 8 * j + t,
                root.descend(path) == Some(*current),
                current.kind is Leaf ==> path.len() == 0,
                pending <==> path.len() > 0,
                bits.take(k) == encode(*root, bytes@) + path,
                in_tree(*root, bytes@),
            decreases limit - t,
        {
            let bit: bool = read_bit(byte, t);
            proof {
                assert(bits.len() == 8 * packed.len() - padding);
                assert(bits[k] == bits_of(packed@)[k]);
                assert(bits[k] == bit_at(packed@[k / 8], k % 8));
                assert(bits.take(k + 1) =~= bits.take(k).push(bit));
                lemma_descend_push(*root, path, bit);
            }
            match &current.kind {
                NodeKind::Leaf { character } => {
                    if bit {
                        proof {
                            assert forall|s: Seq<u8>| in_tree(*root, s) implies encode(*root, s)
                                != bits by {
                                lemma_encode_single(*root, s);
                                if encode(*root, s) == bits {
                                    assert(zeros(s.len())[k] == false);
                                }
                            }
                        }
                        return None;
                    }
                    let ghost before = bytes@;
                    bytes.push(*character);
                    proof {
                        assert(bytes@.drop_last() == before);
                        assert(code_of(*root, *character) == seq![false]);
                        assert(encode(*root, bytes@) == encode(*root, before) + seq![false]);
                        assert(bits.take(k + 1) =~= encode(*root, bytes@) + path);
                        assert forall|i: int| 0 <= i < bytes@.len() implies root.contains(
                            #[trigger] bytes@[i],
                        ) by {
                            if i < before.len() {
                                assert(before[i] == bytes@[i]);
                            }
                        }
                    }
                },
                NodeKind::Internal { left, right } => {
                    let next: &Node = if bit {
                        &**right
                    } else {
                        &**left
                    };
                    match &next.kind {
                        NodeKind::Leaf { character } => {
                            let ghost before = bytes@;
                            bytes.push(*character);
                            proof {
                                assert(bytes@.drop_last() == before);
                                lemma_leaf_path(*root, path.push(bit), *character);
                                assert(code_of(*root, *character) == path.push(bit));
                                assert(encode(*root, bytes@) == encode(*root, before)
                                    + path.push(bit));
                                assert(bits.take(k + 1) =~= encode(*root, bytes@)
                                    + Seq::<bool>::empty());
                                assert forall|i: int| 0 <= i < bytes@.len() implies root.contains(
                                    #[trigger] bytes@[i],
                                ) by {
                                    if i < before.len() {
                                        assert(before[i] == bytes@[i]);
                                    }
                                }
                                path = Seq::empty();
                            }
                            current = root;
                            pending = false;
                        },
                        NodeKind::Internal { .. } => {
                            proof {
                                assert(bits.take(k + 1) =~= encode(*root, bytes@) + path.push(
                                    bit,
                                ));
                                path = path.push(bit);
                            }
                            current = next;
                            pending = true;
                        },
                    }
                },
            }
            t += 1;
            proof {
                k = k + 1;
            }
        }
        j += 1;
    }
    proof {
        assert(bits.take(k) == bits);
    }
    if pending {
        proof {
            assert forall|s: Seq<u8>| in_tree(*root, s) implies encode(*root, s) != bits by {
                if encode(*root, s) == bits {
                    lemma_unique_parse(*root, bytes@, path, s);
                }
            }
        }
        None
    } else {
        assert(encode(*root, bytes@) + path == encode(*root, bytes@));
        Some(bytes)
    }
}

/// Decompresses a packed stream with the tree of the frequency table
/// `char_freq`, of which the last `padding` bits are no code bits.
///
/// The tree is built from the table as it is for compression, and walked along
/// the code bits. The parts must be well framed and the output must have as
/// many bytes as the table counts, else the header is malformed; code bits
/// that no sequence of bytes has make a corrupt stream. A table without
/// entries stands for the empty output.
pub fn decode(padding: u8, char_freq: &Vec<(u8, u32)>, compressed_data: Vec<u8>) -> (output:
    Result<Vec<u8>, HuffmanError>)
    ensures
        match output {
            Ok(bytes) => decoded(padding, char_freq@, compressed_data@) == Ok::<
                Seq<u8>,
                HuffmanError,
            >(bytes@),
            Err(e) => decoded(padding, char_freq@, compressed_data@) == Err::<
                Seq<u8>,
                HuffmanError,
            >(e),
        },
{
    if !is_increasing(char_freq) || padding > 7 || (compressed_data.len() == 0 && padding > 0) {
        return Err(HuffmanError::MalformedHeader);
    }
    let ghost table = char_freq@;
    let ghost bits = payload_bits(padding, compressed_data@);
    if char_freq.len() == 0 {
        if compressed_data.len() == 0 {
            let bytes: Vec<u8> = Vec::new();
            proof {
                assert(bits =~= Seq::<bool>::empty());
                assert(is_message(table, bytes@, bits));
                lemma_message_unique(table, bytes@, message_of(table, bits), bits);
            }
            return Ok(bytes);
        }
        proof {
            assert(bits.len() > 0);
        }
        return Err(HuffmanError::CorruptStream);
    }
    let root: Node = build_binary_tree(char_freq);
    let walked: Option<Vec<u8>> = walk(&root, padding, &compressed_data);
    match walked {
        None => {
            proof {
                assert forall|s: Seq<u8>| !is_message(table, s, bits) by {
                    lemma_covers_in_tree(table, s);
                }
            }
            Err(HuffmanError::CorruptStream)
        },
        Some(bytes) => {
            proof {
                lemma_covers_in_tree(table, bytes@);
                assert(is_message(table, bytes@, bits));
                lemma_message_unique(table, bytes@, message_of(table, bits), bits);
            }
            let sum: u64 = total_of(char_freq);
            if bytes.len() as u64 == sum {
                Ok(bytes)
            } else {
                Err(HuffmanError::MalformedHeader)
            }
        },
    }
}

} // verus!
