//! How many code bits an input has: as many as its tree costs, and never more
//! than eight for each byte.

use vstd::prelude::*;
use crate::huffman::bits::{pack, zeros};
use crate::huffman::codes::code_of;
use crate::huffman::decode::{lemma_covers_in_tree, lemma_encode_single};
use crate::huffman::encode::{encode, encoded_bits, in_tree, lemma_in_tree_rest};
use crate::huffman::frequency::{
    count,
    counts_of,
    covers,
    has_entry,
    increasing,
    lemma_count_positive,
    lemma_increasing_len,
    total,
};
use crate::huffman::optimal::{
    entry_count,
    lemma_huffman_tree_least_cost,
    lemma_wf_weight,
    Shape,
};
use crate::huffman::tree::{huffman_tree, lemma_huffman_tree, Node, NodeKind};

verus! {

/// The summed length of the paths from `node` to the bytes of `s`.
pub open spec fn path_total(node: Node, s: Seq<u8>) -> nat
    decreases s.len(),
{
    if s.len() == 0 {
        0
    } else {
        path_total(node, s.drop_last()) + node.path_to(s.last()).len()
    }
}

/// The bytes of `s` that have a leaf in `node`, in their order.
pub open spec fn kept(node: Node, s: Seq<u8>) -> Seq<u8>
    decreases s.len(),
{
    if s.len() == 0 {
        Seq::empty()
    } else if node.contains(s.last()) {
        kept(node, s.drop_last()).push(s.last())
    } else {
        kept(node, s.drop_last())
    }
}

impl Node {
    /// Whether every leaf holds the number of occurrences of its byte value
    /// in `s`.
    pub open spec fn counted(self, s: Seq<u8>) -> bool
        decreases self,
    {
        match self.kind {
            NodeKind::Leaf { character } => self.frequency == count(s, character),
            NodeKind::Internal { left, right } => left.counted(s) && right.counted(s),
        }
    }
}

/// The bytes that are kept have a leaf in the tree, and a byte value of the
/// tree is kept as often as it occurs.
pub proof fn lemma_kept(node: Node, s: Seq<u8>)
    ensures
        in_tree(node, kept(node, s)),
        forall|c: u8| node.contains(c) ==> count(kept(node, s), c) == count(s, c),
    decreases s.len(),
{
    if s.len() > 0 {
        let front = s.drop_last();
        lemma_kept(node, front);
        let k = kept(node, s);
        if node.contains(s.last()) {
            assert(k.drop_last() == kept(node, front));
            assert forall|i: int| 0 <= i < k.len() implies node.contains(#[trigger] k[i]) by {
                if i < k.len() - 1 {
                    assert(k[i] == kept(node, front)[i]);
                }
            }
        }
    }
}

/// A tree whose leaves hold the counts of `s` holds the counts of the bytes
/// that a tree around it keeps.
pub proof fn lemma_counted_kept(inner: Node, outer: Node, s: Seq<u8>)
    requires
        inner.counted(s),
        forall|c: u8| inner.contains(c) ==> outer.contains(c),
    ensures
        inner.counted(kept(outer, s)),
    decreases inner,
{
    lemma_kept(outer, s);
    match inner.kind {
        NodeKind::Leaf { character } => {
            assert(inner.contains(character));
        },
        NodeKind::Internal { left, right } => {
            lemma_counted_kept(*left, outer, s);
            lemma_counted_kept(*right, outer, s);
        },
    }
}

/// Below an internal node every byte goes to one side: the paths are one step
/// longer than those in the two children.
pub proof fn lemma_split(node: Node, s: Seq<u8>)
    requires
        node.kind is Internal,
        node.unique(),
        in_tree(node, s),
    ensures
        s.len() == kept(*node.kind->left, s).len() + kept(*node.kind->right, s).len(),
        path_total(node, s) == s.len() + path_total(*node.kind->left, kept(*node.kind->left, s))
            + path_total(*node.kind->right, kept(*node.kind->right, s)),
    decreases s.len(),
{
    let left = *node.kind->left;
    let right = *node.kind->right;
    if s.len() > 0 {
        let front = s.drop_last();
        let last = s.last();
        lemma_in_tree_rest(node, s);
        lemma_split(node, front);
        assert(node.contains(last));
        assert(!(left.contains(last) && right.contains(last)));
        if right.contains(last) {
            assert(node.path_to(last).len() == 1 + right.path_to(last).len());
            assert(kept(right, s).drop_last() == kept(right, front));
            assert(kept(right, s).last() == last);
        } else {
            assert(left.contains(last));
            assert(node.path_to(last).len() == 1 + left.path_to(last).len());
            assert(kept(left, s).drop_last() == kept(left, front));
            assert(kept(left, s).last() == last);
        }
    }
}

/// A sequence of bytes of a tree of one leaf holds the byte value of the leaf
/// at every position.
pub proof fn lemma_count_single(node: Node, s: Seq<u8>)
    requires
        node.kind is Leaf,
        in_tree(node, s),
    ensures
        count(s, node.kind->character) == s.len(),
    decreases s.len(),
{
    if s.len() > 0 {
        let front = s.drop_last();
        lemma_in_tree_rest(node, s);
        lemma_count_single(node, front);
        assert(node.contains(s[s.len() - 1]));
    }
}

/// Where every leaf holds the number of occurrences of its byte value, the
/// paths to the bytes of the input are as long in sum as the tree costs, and
/// the tree weighs as much as the input is long.
pub proof fn lemma_path_total(node: Node, s: Seq<u8>)
    requires
        node.unique(),
        in_tree(node, s),
        node.counted(s),
    ensures
        path_total(node, s) == node.cost(),
        node.weight() == s.len(),
    decreases node,
{
    match node.kind {
        NodeKind::Leaf { .. } => {
            lemma_count_single(node, s);
            lemma_path_total_leaf(node, s);
        },
        NodeKind::Internal { left, right } => {
            lemma_split(node, s);
            lemma_kept(*left, s);
            lemma_kept(*right, s);
            lemma_counted_kept(*left, *left, s);
            lemma_counted_kept(*right, *right, s);
            lemma_path_total(*left, kept(*left, s));
            lemma_path_total(*right, kept(*right, s));
        },
    }
}

/// The paths from a leaf are empty.
proof fn lemma_path_total_leaf(node: Node, s: Seq<u8>)
    requires
        node.kind is Leaf,
    ensures
        path_total(node, s) == 0,
    decreases s.len(),
{
    if s.len() > 0 {
        lemma_path_total_leaf(node, s.drop_last());
    }
}

/// Under an internal root the code of a byte is the path to its leaf: the
/// code bits of an input are as many as its paths are long.
pub proof fn lemma_encode_len(root: Node, s: Seq<u8>)
    requires
        root.kind is Internal,
        in_tree(root, s),
    ensures
        encode(root, s).len() == path_total(root, s),
    decreases s.len(),
{
    if s.len() > 0 {
        let front = s.drop_last();
        lemma_in_tree_rest(root, s);
        lemma_encode_len(root, front);
        assert(root.contains(s[s.len() - 1]));
        assert(root.path_to(s.last()).len() >= 1);
        assert(code_of(root, s.last()) == root.path_to(s.last()));
    }
}

/// A tree whose leaves hold entries of a frequency table of `s` holds the
/// counts of `s`.
pub proof fn lemma_counted_from(node: Node, table: Seq<(u8, u32)>, s: Seq<u8>)
    requires
        node.leaves_from(table),
        counts_of(table, s),
    ensures
        node.counted(s),
    decreases node,
{
    match node.kind {
        NodeKind::Leaf { character } => {
            let i = choose|i: int|
                0 <= i < table.len() && #[trigger] table[i].0 == character && table[i].1
                    == node.frequency;
            assert(table[i].1 == count(s, table[i].0));
        },
        NodeKind::Internal { left, right } => {
            lemma_counted_from(*left, table, s);
            lemma_counted_from(*right, table, s);
        },
    }
}

/// A frequency table of `s` has an entry for every byte of `s`.
pub proof fn lemma_counts_cover(table: Seq<(u8, u32)>, s: Seq<u8>)
    requires
        counts_of(table, s),
    ensures
        covers(table, s),
{
    assert forall|k: int| 0 <= k < s.len() implies has_entry(table, #[trigger] s[k]) by {
        lemma_count_positive(s, k);
    }
}

/// The code bits of an input under its frequency table, where that has two
/// entries or more, are as many as the tree of the table costs.
pub proof fn lemma_encoded_len_is_cost(table: Seq<(u8, u32)>, s: Seq<u8>)
    requires
        counts_of(table, s),
        table.len() >= 2,
    ensures
        encoded_bits(table, s).len() == huffman_tree(table).cost(),
        total(table) == s.len(),
{
    let root = huffman_tree(table);
    lemma_huffman_tree(table);
    lemma_counts_cover(table, s);
    lemma_covers_in_tree(table, s);
    lemma_counted_from(root, table, s);
    lemma_path_total(root, s);
    lemma_encode_len(root, s);
    lemma_wf_weight(root);
}

/// A shape with one leaf for each entry of a table, as flat as can be: the
/// first half of the entries to the left, the other half to the right.
pub open spec fn balanced(table: Seq<(u8, u32)>) -> Shape
    decreases table.len(),
{
    if table.len() <= 1 {
        Shape::Leaf { weight: if table.len() == 1 { table[0].1 as nat } else { 0 } }
    } else {
        Shape::Fork {
            left: Box::new(balanced(table.take(table.len() as int / 2))),
            right: Box::new(balanced(table.skip(table.len() as int / 2))),
        }
    }
}

/// 2 to the power `k`.
pub open spec fn two_to(k: nat) -> nat
    decreases k,
{
    if k == 0 {
        1
    } else {
        2 * two_to((k - 1) as nat)
    }
}

/// The flat shape of up to 2 to the power `k` entries is no higher than `k`.
pub proof fn lemma_balanced_height(table: Seq<(u8, u32)>, k: nat)
    requires
        table.len() <= two_to(k),
    ensures
        balanced(table).height() <= k,
    decreases table.len(),
{
    if table.len() > 1 {
        let half = table.len() as int / 2;
        assert(k >= 1);
        lemma_balanced_height(table.take(half), (k - 1) as nat);
        lemma_balanced_height(table.skip(half), (k - 1) as nat);
    }
}

/// The entries of two tables, one after the other, hold a count as often as
/// the two tables together, and sum to the sum of the two.
pub proof fn lemma_entries_concat(first: Seq<(u8, u32)>, second: Seq<(u8, u32)>)
    ensures
        forall|w: nat|
            #![trigger entry_count(first + second, w)]
            entry_count(first + second, w) == entry_count(first, w) + entry_count(second, w),
        total(first + second) == total(first) + total(second),
    decreases second.len(),
{
    if second.len() == 0 {
        assert(first + second == first);
    } else {
        lemma_entries_concat(first, second.drop_last());
        assert((first + second).drop_last() == first + second.drop_last());
        assert((first + second).last() == second.last());
        assert forall|w: nat|
            #![trigger entry_count(first + second, w)]
            entry_count(first + second, w) == entry_count(first, w) + entry_count(second, w) by {
            assert(entry_count(first + second.drop_last(), w) == entry_count(first, w)
                + entry_count(second.drop_last(), w));
        }
    }
}

/// The flat shape of a table with an entry has the counts of the table at its
/// leaves.
pub proof fn lemma_balanced_leaves(table: Seq<(u8, u32)>)
    requires
        table.len() >= 1,
    ensures
        forall|w: nat|
            #![trigger balanced(table).leaf_count(w)]
            balanced(table).leaf_count(w) == entry_count(table, w),
        balanced(table).weight() == total(table),
    decreases table.len(),
{
    if table.len() == 1 {
        assert(table.drop_last().len() == 0);
        assert(total(table.drop_last()) == 0);
        assert(table.last() == table[0]);
        assert forall|w: nat|
            #![trigger balanced(table).leaf_count(w)]
            balanced(table).leaf_count(w) == entry_count(table, w) by {
            assert(entry_count(table.drop_last(), w) == 0);
        }
    } else {
        let half = table.len() as int / 2;
        let first = table.take(half);
        let second = table.skip(half);
        lemma_balanced_leaves(first);
        lemma_balanced_leaves(second);
        lemma_entries_concat(first, second);
        assert(first + second == table);
        assert forall|w: nat|
            #![trigger balanced(table).leaf_count(w)]
            balanced(table).leaf_count(w) == entry_count(table, w) by {
            assert(balanced(table).leaf_count(w) == balanced(first).leaf_count(w) + balanced(
                second,
            ).leaf_count(w));
            assert(entry_count(first + second, w) == entry_count(first, w) + entry_count(
                second,
                w,
            ));
        }
    }
}

/// No leaf lies deeper than the shape is high: the cost is at most the weight
/// times the height.
pub proof fn lemma_cost_le_height(shape: Shape)
    ensures
        shape.cost() <= shape.height() * shape.weight(),
    decreases shape,
{
    match shape {
        Shape::Leaf { .. } => {},
        Shape::Fork { left, right } => {
            lemma_cost_le_height(*left);
            lemma_cost_le_height(*right);
            let h = shape.height() as int;
            let hl = left.height() as int;
            let hr = right.height() as int;
            let wl = left.weight() as int;
            let wr = right.weight() as int;
            assert(hl * wl + wl <= h * wl) by (nonlinear_arith)
                requires
                    hl + 1 <= h,
                    wl >= 0,
            ;
            assert(hr * wr + wr <= h * wr) by (nonlinear_arith)
                requires
                    hr + 1 <= h,
                    wr >= 0,
            ;
            assert(h * (wl + wr) == h * wl + h * wr) by (nonlinear_arith);
        },
    }
}

/// The tree of a well-formed frequency table costs no more than eight times
/// the sum of its counts: the codes are no longer than eight bits on average.
pub proof fn lemma_cost_le_eight(table: Seq<(u8, u32)>)
    requires
        increasing(table),
        table.len() >= 1,
    ensures
        huffman_tree(table).cost() <= 8 * total(table),
{
    let flat = balanced(table);
    lemma_increasing_len(table);
    assert(two_to(8) == 256) by {
        reveal_with_fuel(two_to, 9);
    }
    lemma_balanced_height(table, 8);
    lemma_balanced_leaves(table);
    lemma_cost_le_height(flat);
    assert forall|w: nat| flat.leaf_count(w) == entry_count(table, w) by {
        assert(balanced(table).leaf_count(w) == entry_count(table, w));
    }
    lemma_huffman_tree_least_cost(table, flat);
    assert(flat.height() * flat.weight() <= 8 * flat.weight()) by (nonlinear_arith)
        requires
            flat.height() <= 8,
    ;
}

/// Compression with the frequency table of the input does not make it longer:
/// the code bits are at most eight for each byte of the input, and the packed
/// stream has at most as many bytes as the input.
pub proof fn lemma_compressed_size(table: Seq<(u8, u32)>, s: Seq<u8>)
    requires
        counts_of(table, s),
    ensures
        encoded_bits(table, s).len() <= 8 * s.len(),
        pack(encoded_bits(table, s)).len() <= s.len(),
{
    lemma_counts_cover(table, s);
    if table.len() == 1 {
        let root = huffman_tree(table);
        lemma_huffman_tree(table);
        lemma_covers_in_tree(table, s);
        lemma_encode_single(root, s);
        assert(zeros(s.len()).len() == s.len());
    } else if table.len() >= 2 {
        lemma_encoded_len_is_cost(table, s);
        lemma_cost_le_eight(table);
    }
}

} // verus!
