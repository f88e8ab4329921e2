//! The binary prefix-code tree and its construction from a frequency table.

use vstd::prelude::*;
use crate::huffman::frequency::{
    has_entry,
    increasing,
    lemma_increasing_len,
    lemma_total_bound,
    total,
};
use crate::huffman::optimal::{holds_counts, lemma_huffman_tree_optimal};

verus! {

/// What a node is: a leaf for one byte value, or an internal node that owns
/// exactly two children.
#[derive(Debug, PartialEq, Eq)]
pub enum NodeKind {
    Leaf { character: u8 },
    Internal { left: Box<Node>, right: Box<Node> },
}

/// A node of a prefix-code tree, with the frequency of all that lies below it.
#[derive(Debug, PartialEq, Eq)]
pub struct Node {
    pub frequency: u64,
    pub kind: NodeKind,
}

impl Node {
    /// Whether a leaf for the byte value `b` lies in this tree.
    pub open spec fn contains(self, b: u8) -> bool
        decreases self,
    {
        match self.kind {
            NodeKind::Leaf { character } => character == b,
            NodeKind::Internal { left, right } => left.contains(b) || right.contains(b),
        }
    }

    /// The sum of the frequencies of the leaves of this tree.
    pub open spec fn weight(self) -> nat
        decreases self,
    {
        match self.kind {
            NodeKind::Leaf { .. } => self.frequency as nat,
            NodeKind::Internal { left, right } => left.weight() + right.weight(),
        }
    }

    /// The cost of the tree: the sum, over its leaves, of the frequency of the
    /// leaf times its depth, which is the length of its code.
    pub open spec fn cost(self) -> nat
        decreases self,
    {
        match self.kind {
            NodeKind::Leaf { .. } => 0,
            NodeKind::Internal { left, right } => left.cost() + right.cost() + left.weight()
                + right.weight(),
        }
    }

    /// No byte value has two leaves in this tree.
    pub open spec fn unique(self) -> bool
        decreases self,
    {
        match self.kind {
            NodeKind::Leaf { .. } => true,
            NodeKind::Internal { left, right } => {
                &&& left.unique()
                &&& right.unique()
                &&& forall|b: u8| !(left.contains(b) && right.contains(b))
            },
        }
    }

    /// Whether every leaf of this tree holds the byte value and the count of
    /// an entry of `table`.
    pub open spec fn leaves_from(self, table: Seq<(u8, u32)>) -> bool
        decreases self,
    {
        match self.kind {
            NodeKind::Leaf { character } => exists|i: int|
                0 <= i < table.len() && #[trigger] table[i].0 == character && table[i].1
                    == self.frequency,
            NodeKind::Internal { left, right } => left.leaves_from(table) && right.leaves_from(
                table,
            ),
        }
    }

    /// Every internal node holds the sum of the frequencies of its two children.
    pub open spec fn wf(self) -> bool
        decreases self,
    {
        match self.kind {
            NodeKind::Leaf { .. } => true,
            NodeKind::Internal { left, right } => {
                &&& left.wf()
                &&& right.wf()
                &&& self.frequency == left.frequency + right.frequency
            },
        }
    }
}

/// The leaf that stands for one entry of a frequency table.
pub open spec fn leaf(entry: (u8, u32)) -> Node {
    Node { frequency: entry.1 as u64, kind: NodeKind::Leaf { character: entry.0 } }
}

/// The internal node with the children `left` and `right`.
pub open spec fn join(left: Node, right: Node) -> Node {
    Node {
        frequency: (left.frequency + right.frequency) as u64,
        kind: NodeKind::Internal { left: Box::new(left), right: Box::new(right) },
    }
}

/// One leaf per entry of `table`, in the table's order.
pub open spec fn leaves(table: Seq<(u8, u32)>) -> Seq<Node> {
    Seq::new(table.len(), |i: int| leaf(table[i]))
}

/// `i` is the position of the node that a forest gives up first: its frequency
/// is the lowest, and of the nodes of that frequency it stands first.
pub open spec fn is_first_min(forest: Seq<Node>, i: int) -> bool {
    &&& 0 <= i < forest.len()
    &&& forall|j: int| 0 <= j < forest.len() ==> forest[i].frequency <= forest[j].frequency
    &&& forall|j: int| 0 <= j < i ==> forest[i].frequency < forest[j].frequency
}

/// The position that `is_first_min` describes (0 in an empty forest).
pub open spec fn first_min(forest: Seq<Node>) -> int
    decreases forest.len(),
{
    if forest.len() <= 1 {
        0
    } else {
        let m = first_min(forest.drop_last());
        if forest.last().frequency < forest[m].frequency {
            forest.len() - 1
        } else {
            m
        }
    }
}

/// One merge: the two nodes that the forest gives up first, one after the
/// other, leave it, and the node that joins them, the first as its left child
/// and the second as its right child, enters at the end.
pub open spec fn merge_step(forest: Seq<Node>) -> Seq<Node> {
    let i = first_min(forest);
    let rest = forest.remove(i);
    let j = first_min(rest);
    rest.remove(j).push(join(forest[i], rest[j]))
}

/// The single tree that is left when a forest is merged until one node remains.
pub open spec fn merge_all(forest: Seq<Node>) -> Node
    decreases forest.len(),
    via merge_all_decreases
{
    if forest.len() <= 1 {
        forest[0]
    } else {
        merge_all(merge_step(forest))
    }
}

#[via_fn]
proof fn merge_all_decreases(forest: Seq<Node>) {
    if forest.len() > 1 {
        lemma_merge_step_len(forest);
    }
}

/// The prefix-code tree of a frequency table with at least one entry.
pub open spec fn huffman_tree(table: Seq<(u8, u32)>) -> Node {
    merge_all(leaves(table))
}

/// The sum of the frequencies of the roots of a forest.
pub open spec fn forest_total(forest: Seq<Node>) -> nat
    decreases forest.len(),
{
    if forest.len() == 0 {
        0
    } else {
        forest_total(forest.drop_last()) + forest.last().frequency as nat
    }
}

/// Whether a leaf for `b` lies in one of the trees of a forest.
pub open spec fn forest_contains(forest: Seq<Node>, b: u8) -> bool {
    exists|i: int| 0 <= i < forest.len() && (#[trigger] forest[i]).contains(b)
}

/// Whether every tree of a forest is well formed.
pub open spec fn forest_wf(forest: Seq<Node>) -> bool {
    forall|i: int| 0 <= i < forest.len() ==> (#[trigger] forest[i]).wf()
}

/// Whether no byte value has two leaves in a forest, in one tree or in two.
pub open spec fn forest_unique(forest: Seq<Node>) -> bool {
    &&& forall|i: int| 0 <= i < forest.len() ==> (#[trigger] forest[i]).unique()
    &&& forall|i: int, j: int, b: u8|
        0 <= i < j < forest.len() ==> !(#[trigger] forest[i].contains(b)
            && #[trigger] forest[j].contains(b))
}

/// Whether every leaf of a forest holds the byte value and the count of an
/// entry of `table`.
pub open spec fn forest_from(forest: Seq<Node>, table: Seq<(u8, u32)>) -> bool {
    forall|i: int| 0 <= i < forest.len() ==> (#[trigger] forest[i]).leaves_from(table)
}

/// `first_min` finds the position that `is_first_min` describes.
pub proof fn lemma_first_min(forest: Seq<Node>)
    requires
        forest.len() >= 1,
    ensures
        is_first_min(forest, first_min(forest)),
    decreases forest.len(),
{
    if forest.len() > 1 {
        let front = forest.drop_last();
        lemma_first_min(front);
        let m = first_min(front);
        let i = first_min(forest);
        assert forall|j: int| 0 <= j < forest.len() implies forest[i].frequency
            <= forest[j].frequency by {
            if j < front.len() {
                assert(front[j] == forest[j]);
            }
        }
        assert forall|j: int| 0 <= j < i implies forest[i].frequency < forest[j].frequency by {
            assert(front[j] == forest[j]);
        }
    }
}

/// No forest has two positions that `is_first_min` describes.
pub proof fn lemma_first_min_unique(forest: Seq<Node>, i: int, j: int)
    requires
        is_first_min(forest, i),
        is_first_min(forest, j),
    ensures
        i == j,
{
}

/// A merge makes a forest of two or more trees shorter by one.
pub proof fn lemma_merge_step_len(forest: Seq<Node>)
    requires
        forest.len() >= 2,
    ensures
        merge_step(forest).len() == forest.len() - 1,
{
    lemma_first_min(forest);
    let rest = forest.remove(first_min(forest));
    lemma_first_min(rest);
}

/// A node that enters a forest at the end adds its frequency to the total.
pub proof fn lemma_forest_total_push(forest: Seq<Node>, node: Node)
    ensures
        forest_total(forest.push(node)) == forest_total(forest) + node.frequency,
{
    assert(forest.push(node).drop_last() == forest);
}

/// A node that leaves a forest takes its frequency out of the total.
pub proof fn lemma_forest_total_remove(forest: Seq<Node>, i: int)
    requires
        0 <= i < forest.len(),
    ensures
        forest_total(forest.remove(i)) + forest[i].frequency == forest_total(forest),
    decreases forest.len(),
{
    if i == forest.len() - 1 {
        assert(forest.remove(i) == forest.drop_last());
    } else {
        lemma_forest_total_remove(forest.drop_last(), i);
        assert(forest.remove(i).drop_last() == forest.drop_last().remove(i));
        assert(forest.remove(i).last() == forest.last());
    }
}

/// What one merge keeps: the total frequency and the leaves of the forest, and
/// that its trees are well formed. The frequency of the node that it makes is
/// the exact sum of the two that it joins.
pub proof fn lemma_merge_step(forest: Seq<Node>)
    requires
        forest.len() >= 2,
        forest_total(forest) <= u64::MAX,
    ensures
        merge_step(forest).len() == forest.len() - 1,
        forest_total(merge_step(forest)) == forest_total(forest),
        forall|b: u8| forest_contains(merge_step(forest), b) <==> forest_contains(forest, b),
        forest_wf(forest) ==> forest_wf(merge_step(forest)),
        forest_unique(forest) ==> forest_unique(merge_step(forest)),
        ({
            let rest = forest.remove(first_min(forest));
            forest[first_min(forest)].frequency + rest[first_min(rest)].frequency <= forest_total(
                forest,
            )
        }),
{
    let i = first_min(forest);
    lemma_first_min(forest);
    let rest = forest.remove(i);
    let j = first_min(rest);
    lemma_first_min(rest);
    let rest2 = rest.remove(j);
    let joined = join(forest[i], rest[j]);
    let merged = rest2.push(joined);
    assert(merged == merge_step(forest));
    lemma_forest_total_remove(forest, i);
    lemma_forest_total_remove(rest, j);
    lemma_forest_total_push(rest2, joined);
    assert forall|b: u8| forest_contains(merged, b) implies forest_contains(forest, b) by {
        let k = choose|k: int| 0 <= k < merged.len() && (#[trigger] merged[k]).contains(b);
        if k == rest2.len() {
            if forest[i].contains(b) {
            } else {
                assert(rest[j].contains(b));
                assert(rest[j] == forest[if j < i { j } else { j + 1 }]);
            }
        } else {
            let kr = if k < j { k } else { k + 1 };
            assert(merged[k] == rest[kr]);
            assert(rest[kr] == forest[if kr < i { kr } else { kr + 1 }]);
        }
    }
    assert forall|b: u8| forest_contains(forest, b) implies forest_contains(merged, b) by {
        let k = choose|k: int| 0 <= k < forest.len() && (#[trigger] forest[k]).contains(b);
        if k == i {
            assert(merged[rest2.len() as int].contains(b));
        } else {
            let kr = if k < i { k } else { k - 1 };
            assert(rest[kr] == forest[k]);
            if kr == j {
                assert(merged[rest2.len() as int].contains(b));
            } else {
                let km = if kr < j { kr } else { kr - 1 };
                assert(merged[km] == rest[kr]);
            }
        }
    }
    if forest_unique(forest) {
        let jf = if j < i { j } else { j + 1 };
        assert(rest[j] == forest[jf]);
        assert(forest[i].unique() && forest[jf].unique());
        assert forall|b: u8| !(forest[i].contains(b) && forest[jf].contains(b)) by {
            if jf < i {
                assert(!(forest[jf].contains(b) && forest[i].contains(b)));
            } else {
                assert(!(forest[i].contains(b) && forest[jf].contains(b)));
            }
        }
        assert(joined.unique());
        assert forall|k: int| 0 <= k < merged.len() implies (#[trigger] merged[k]).unique() by {
            if k < rest2.len() {
                let kr = if k < j { k } else { k + 1 };
                assert(merged[k] == rest[kr]);
                assert(rest[kr] == forest[if kr < i { kr } else { kr + 1 }]);
            }
        }
        assert forall|k: int, l: int, b: u8| 0 <= k < l < merged.len() implies !(
        #[trigger] merged[k].contains(b) && #[trigger] merged[l].contains(b)) by {
            let kr = if k < j { k } else { k + 1 };
            let kf = if kr < i { kr } else { kr + 1 };
            assert(merged[k] == rest[kr]);
            assert(rest[kr] == forest[kf]);
            if l < rest2.len() {
                let lr = if l < j { l } else { l + 1 };
                let lf = if lr < i { lr } else { lr + 1 };
                assert(merged[l] == rest[lr]);
                assert(rest[lr] == forest[lf]);
                assert(!(forest[kf].contains(b) && forest[lf].contains(b)));
            } else {
                if kf < i {
                    assert(!(forest[kf].contains(b) && forest[i].contains(b)));
                } else {
                    assert(!(forest[i].contains(b) && forest[kf].contains(b)));
                }
                if kf < jf {
                    assert(!(forest[kf].contains(b) && forest[jf].contains(b)));
                } else {
                    assert(!(forest[jf].contains(b) && forest[kf].contains(b)));
                }
            }
        }
    }
    if forest_wf(forest) {
        assert forall|k: int| 0 <= k < merged.len() implies (#[trigger] merged[k]).wf() by {
            assert(forest[i].wf());
            assert(rest[j] == forest[if j < i { j } else { j + 1 }]);
            if k < rest2.len() {
                let kr = if k < j { k } else { k + 1 };
                assert(merged[k] == rest[kr]);
                assert(rest[kr] == forest[if kr < i { kr } else { kr + 1 }]);
            }
        }
    }
}

/// What merging a forest down to one tree keeps: the root holds the total
/// frequency of the forest, the tree has the leaves of the forest, and it is
/// well formed where the forest was.
pub proof fn lemma_merge_all(forest: Seq<Node>)
    requires
        forest.len() >= 1,
        forest_total(forest) <= u64::MAX,
    ensures
        merge_all(forest).frequency == forest_total(forest),
        forall|b: u8| merge_all(forest).contains(b) <==> forest_contains(forest, b),
        forest_wf(forest) ==> merge_all(forest).wf(),
        forest_unique(forest) ==> merge_all(forest).unique(),
    decreases forest.len(),
{
    if forest.len() == 1 {
        assert(forest_total(forest.drop_last()) == 0);
        assert(forest.last() == forest[0]);
        assert forall|b: u8| forest_contains(forest, b) implies forest[0].contains(b) by {
            let k = choose|k: int| 0 <= k < forest.len() && (#[trigger] forest[k]).contains(b);
        }
    } else {
        lemma_merge_step(forest);
        lemma_merge_all(merge_step(forest));
    }
}

/// The forest of leaves of a table holds the table's total and its byte values.
pub proof fn lemma_leaves(table: Seq<(u8, u32)>)
    ensures
        leaves(table).len() == table.len(),
        forest_total(leaves(table)) == total(table),
        forest_wf(leaves(table)),
        increasing(table) ==> forest_unique(leaves(table)),
        forall|b: u8| forest_contains(leaves(table), b) <==> has_entry(table, b),
    decreases table.len(),
{
    let forest = leaves(table);
    if table.len() > 0 {
        lemma_leaves(table.drop_last());
        assert(forest.drop_last() == leaves(table.drop_last()));
    }
    assert forall|b: u8| forest_contains(forest, b) implies has_entry(table, b) by {
        let k = choose|k: int| 0 <= k < forest.len() && (#[trigger] forest[k]).contains(b);
        assert(table[k].0 == b);
    }
    assert forall|b: u8| has_entry(table, b) implies forest_contains(forest, b) by {
        let k = choose|k: int| 0 <= k < table.len() && #[trigger] table[k].0 == b;
        assert(forest[k].contains(b));
    }
}

/// The tree of a well-formed table with at least one entry is well formed,
/// its root holds the sum of the table's counts, and its leaves are the byte
/// values of the table, one leaf for each.
pub proof fn lemma_huffman_tree(table: Seq<(u8, u32)>)
    requires
        increasing(table),
        table.len() >= 1,
    ensures
        huffman_tree(table).wf(),
        huffman_tree(table).unique(),
        huffman_tree(table).leaves_from(table),
        huffman_tree(table).frequency == total(table),
        forall|b: u8| huffman_tree(table).contains(b) <==> has_entry(table, b),
        table.len() == 1 ==> huffman_tree(table) == leaf(table[0]),
        table.len() >= 2 ==> huffman_tree(table).kind is Internal,
{
    if table.len() >= 2 {
        lemma_merge_all_internal(leaves(table));
    }
    assert(forest_from(leaves(table), table)) by {
        assert forall|i: int| 0 <= i < leaves(table).len() implies (#[trigger] leaves(
            table,
        )[i]).leaves_from(table) by {
            assert(table[i].0 == leaves(table)[i].kind->character);
        }
    }
    lemma_merge_all_leaves(leaves(table), table);
    lemma_increasing_len(table);
    lemma_total_bound(table);
    lemma_leaves(table);
    lemma_merge_all(leaves(table));
}

/// Merging makes no leaf and changes none: the leaves of the merged tree hold
/// entries of the table where those of the forest do.
pub proof fn lemma_merge_all_leaves(forest: Seq<Node>, table: Seq<(u8, u32)>)
    requires
        forest.len() >= 1,
        forest_from(forest, table),
    ensures
        merge_all(forest).leaves_from(table),
    decreases forest.len(),
{
    if forest.len() >= 2 {
        let i = first_min(forest);
        lemma_first_min(forest);
        let rest = forest.remove(i);
        let j = first_min(rest);
        lemma_first_min(rest);
        let rest2 = rest.remove(j);
        let merged = merge_step(forest);
        lemma_merge_step_len(forest);
        assert(rest[j] == forest[if j < i { j } else { j + 1 }]);
        assert forall|k: int| 0 <= k < merged.len() implies (#[trigger] merged[k]).leaves_from(
            table,
        ) by {
            if k < rest2.len() {
                let kr = if k < j { k } else { k + 1 };
                assert(merged[k] == rest[kr]);
                assert(rest[kr] == forest[if kr < i { kr } else { kr + 1 }]);
            } else {
                assert(forest[i].leaves_from(table));
                assert(rest[j].leaves_from(table));
            }
        }
        lemma_merge_all_leaves(merged, table);
    }
}

/// A forest of two or more trees is merged into a tree with an internal node
/// at its root.
pub proof fn lemma_merge_all_internal(forest: Seq<Node>)
    requires
        forest.len() >= 2 || (forest.len() == 1 && forest[0].kind is Internal),
    ensures
        merge_all(forest).kind is Internal,
    decreases forest.len(),
{
    if forest.len() >= 2 {
        lemma_merge_step_len(forest);
        let merged = merge_step(forest);
        assert(merged.last().kind is Internal);
        lemma_merge_all_internal(merged);
    }
}

/// The position of the node that the forest gives up first.
fn min_index(forest: &Vec<Node>) -> (best: usize)
    requires
        forest.len() >= 1,
    ensures
        best == first_min(forest@),
        is_first_min(forest@, best as int),
{
    let mut best: usize = 0;
    let mut i: usize = 1;
    assert(forest@.take(1).len() == 1);
    while i < forest.len()
        invariant
            1 <= i <= forest.len(),
            best < i,
            best == first_min(forest@.take(i as int)),
        decreases forest.len() - i,
    {
        proof {
            assert(forest@.take(i + 1).drop_last() == forest@.take(i as int));
        }
        if forest[i].frequency < forest[best].frequency {
            best = i;
        }
        i += 1;
    }
    proof {
        assert(forest@.take(i as int) == forest@);
        lemma_first_min(forest@);
    }
    best
}

/// Builds the prefix-code tree of a frequency table.
///
/// One leaf is made per entry. Then, while more than one node is left, the two
/// nodes of lowest frequency are taken out, the lowest first and of equal ones
/// the one that has waited longest, and joined under a new node that holds the
/// sum of their frequencies: the first becomes its left child, the second its
/// right child. A table with one entry gives a single leaf.
///
/// The tree is optimal: no tree whose leaves hold the counts of the table has
/// a lower cost, the sum of the counts times the depths of their leaves.
pub fn build_binary_tree(char_freq: &Vec<(u8, u32)>) -> (root: Node)
    requires
        increasing(char_freq@),
        char_freq.len() >= 1,
    ensures
        root == huffman_tree(char_freq@),
        root.wf(),
        root.unique(),
        root.leaves_from(char_freq@),
        root.frequency == total(char_freq@),
        forall|b: u8| root.contains(b) <==> has_entry(char_freq@, b),
        char_freq.len() == 1 ==> root == leaf(char_freq@[0]),
        char_freq.len() >= 2 ==> root.kind is Internal,
        forall|other: Node| holds_counts(other, char_freq@) ==> root.cost() <= other.cost(),
{
    let mut forest: Vec<Node> = Vec::new();
    let mut k: usize = 0;
    while k < char_freq.len()
        invariant
            k <= char_freq.len(),
            forest@ == leaves(char_freq@.take(k as int)),
        decreases char_freq.len() - k,
    {
        let entry: (u8, u32) = char_freq[k];
        forest.push(
            Node { frequency: entry.1 as u64, kind: NodeKind::Leaf { character: entry.0 } },
        );
        assert(forest@ == leaves(char_freq@.take(k + 1)));
        k += 1;
    }
    proof {
        assert(char_freq@.take(k as int) == char_freq@);
        assert forall|other: Node| holds_counts(other, char_freq@) implies huffman_tree(
            char_freq@,
        ).cost() <= other.cost() by {
            lemma_huffman_tree_optimal(char_freq@, other);
        }
        lemma_huffman_tree(char_freq@);
        lemma_increasing_len(char_freq@);
        lemma_total_bound(char_freq@);
        lemma_leaves(char_freq@);
    }
    while forest.len() > 1
        invariant
            forest.len() >= 1,
            forest_total(forest@) <= u64::MAX,
            merge_all(forest@) == huffman_tree(char_freq@),
        decreases forest.len(),
    {
        proof {
            lemma_merge_step(forest@);
        }
        let ghost before = forest@;
        let i: usize = min_index(&forest);
        let first: Node = forest.remove(i);
        let j: usize = min_index(&forest);
        let second: Node = forest.remove(j);
        let frequency: u64 = first.frequency + second.frequency;
        let kind: NodeKind = NodeKind::Internal { left: Box::new(first), right: Box::new(second) };
        forest.push(Node { frequency, kind });
        assert(forest@ == merge_step(before));
    }
    forest.remove(0)
}

} // verus!
