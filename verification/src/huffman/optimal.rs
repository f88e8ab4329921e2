//! The tree that is built from a frequency table is optimal: no tree whose
//! leaves have the same weights has a lower cost.

use vstd::prelude::*;
use crate::huffman::frequency::{increasing, lemma_increasing_len, lemma_total_bound};
use crate::huffman::tree::{
    first_min,
    forest_total,
    forest_wf,
    huffman_tree,
    join,
    leaves,
    lemma_first_min,
    lemma_leaves,
    lemma_merge_step,
    merge_all,
    merge_step,
    Node,
    NodeKind,
};

verus! {

/// The shape of a prefix-code tree, with the weight of each leaf.
pub enum Shape {
    Leaf { weight: nat },
    Fork { left: Box<Shape>, right: Box<Shape> },
}

/// 1 where `c` holds, else 0.
pub open spec fn one_if(c: bool) -> int {
    if c {
        1
    } else {
        0
    }
}

impl Shape {
    /// The sum of the weights of the leaves.
    pub open spec fn weight(self) -> nat
        decreases self,
    {
        match self {
            Shape::Leaf { weight } => weight,
            Shape::Fork { left, right } => left.weight() + right.weight(),
        }
    }

    /// The cost of the tree: the sum, over its leaves, of the weight of the
    /// leaf times its depth.
    pub open spec fn cost(self) -> nat
        decreases self,
    {
        match self {
            Shape::Leaf { .. } => 0,
            Shape::Fork { left, right } => left.cost() + right.cost() + left.weight()
                + right.weight(),
        }
    }

    /// The depth of the deepest leaf.
    pub open spec fn height(self) -> nat
        decreases self,
    {
        match self {
            Shape::Leaf { .. } => 0,
            Shape::Fork { left, right } => if left.height() >= right.height() {
                left.height() + 1
            } else {
                right.height() + 1
            },
        }
    }

    /// The number of leaves of weight `w`.
    pub open spec fn leaf_count(self, w: nat) -> int
        decreases self,
    {
        match self {
            Shape::Leaf { weight } => one_if(weight == w),
            Shape::Fork { left, right } => left.leaf_count(w) + right.leaf_count(w),
        }
    }

    /// Whether both children of this node are leaves.
    pub open spec fn is_pair(self) -> bool {
        match self {
            Shape::Leaf { .. } => false,
            Shape::Fork { left, right } => *left is Leaf && *right is Leaf,
        }
    }

    /// The weights of two leaves at the greatest depth that are children of
    /// one node.
    pub open spec fn deepest(self) -> (nat, nat)
        decreases self,
    {
        match self {
            Shape::Leaf { weight } => (weight, weight),
            Shape::Fork { left, right } => if self.is_pair() {
                (left.weight(), right.weight())
            } else if left.height() >= right.height() {
                left.deepest()
            } else {
                right.deepest()
            },
        }
    }

    /// This tree with the two leaves of `deepest` and their parent replaced
    /// by one leaf of weight `v`.
    pub open spec fn contract(self, v: nat) -> Shape
        decreases self,
    {
        match self {
            Shape::Leaf { .. } => self,
            Shape::Fork { left, right } => if self.is_pair() {
                Shape::Leaf { weight: v }
            } else if left.height() >= right.height() {
                Shape::Fork { left: Box::new(left.contract(v)), right }
            } else {
                Shape::Fork { left, right: Box::new(right.contract(v)) }
            },
        }
    }

    /// This tree with the weight of its leftmost leaf of weight `w` changed
    /// to `v`.
    pub open spec fn relabel(self, w: nat, v: nat) -> Shape
        decreases self,
    {
        match self {
            Shape::Leaf { weight } => if weight == w {
                Shape::Leaf { weight: v }
            } else {
                self
            },
            Shape::Fork { left, right } => if left.leaf_count(w) >= 1 {
                Shape::Fork { left: Box::new(left.relabel(w, v)), right }
            } else {
                Shape::Fork { left, right: Box::new(right.relabel(w, v)) }
            },
        }
    }

    /// Whether `a` is the least weight of a leaf, and `b` the least weight of
    /// another leaf.
    pub open spec fn least_two(self, a: nat, b: nat) -> bool {
        &&& self.leaf_count(a) >= 1
        &&& self.leaf_count(b) - one_if(b == a) >= 1
        &&& forall|w: nat| self.leaf_count(w) >= 1 ==> a <= w
        &&& forall|w: nat| #[trigger] self.leaf_count(w) - one_if(w == a) >= 1 ==> b <= w
    }
}

/// No weight has a negative number of leaves.
pub proof fn lemma_leaf_count_nonnegative(s: Shape, w: nat)
    ensures
        s.leaf_count(w) >= 0,
    decreases s,
{
    match s {
        Shape::Leaf { .. } => {},
        Shape::Fork { left, right } => {
            lemma_leaf_count_nonnegative(*left, w);
            lemma_leaf_count_nonnegative(*right, w);
        },
    }
}

/// What `contract` does to a tree with two leaves or more: the two leaves of
/// `deepest` give way to one of weight `v`, nothing gets deeper, and the cost
/// loses the two weights at the depth of the tree and gains `v` one level
/// higher.
pub proof fn lemma_contract(s: Shape, v: nat)
    requires
        s is Fork,
    ensures
        s.height() >= 1,
        s.leaf_count(s.deepest().0) >= 1,
        s.leaf_count(s.deepest().1) - one_if(s.deepest().0 == s.deepest().1) >= 1,
        forall|w: nat|
            #![trigger s.contract(v).leaf_count(w)]
            s.contract(v).leaf_count(w) == s.leaf_count(w) - one_if(w == s.deepest().0) - one_if(
                w == s.deepest().1,
            ) + one_if(w == v),
        s.contract(v).weight() + s.deepest().0 + s.deepest().1 == s.weight() + v,
        s.contract(v).height() <= s.height(),
        s.contract(v).cost() + (s.deepest().0 + s.deepest().1) * s.height() == s.cost() + v * (
        s.height() - 1),
    decreases s,
{
    let x = s.deepest().0;
    let y = s.deepest().1;
    let h = s.height() as int;
    let c = s.contract(v);
    match s {
        Shape::Leaf { .. } => {},
        Shape::Fork { left, right } => {
            if s.is_pair() {
                assert(left.weight() == x && right.weight() == y);
                assert(left.height() == 0 && right.height() == 0);
                assert(left.cost() == 0 && right.cost() == 0);
                assert(left.leaf_count(x) == 1);
                assert(right.leaf_count(y) == 1);
                assert(left.leaf_count(y) == one_if(x == y));
                assert(right.leaf_count(x) == one_if(x == y));
                assert forall|w: nat|
                    #![trigger c.leaf_count(w)]
                    c.leaf_count(w) == s.leaf_count(w) - one_if(w == x) - one_if(w == y) + one_if(
                        w == v,
                    ) by {
                    assert(left.leaf_count(w) == one_if(w == x));
                    assert(right.leaf_count(w) == one_if(w == y));
                }
                assert((x + y) * 1 == x + y) by (nonlinear_arith);
                assert(v * 0 == 0) by (nonlinear_arith);
            } else if left.height() >= right.height() {
                assert(*left is Fork) by {
                    if *left is Leaf {
                        assert(left.height() == 0);
                        assert(right.height() == 0);
                        assert(*right is Leaf);
                    }
                }
                lemma_contract(*left, v);
                let hl = left.height() as int;
                let cl = left.contract(v);
                assert(c == Shape::Fork { left: Box::new(cl), right });
                assert(h == hl + 1);
                assert((x + y) * (hl + 1) == (x + y) * hl + (x + y)) by (nonlinear_arith);
                assert(v * hl == v * (hl - 1) + v) by (nonlinear_arith);
                lemma_leaf_count_nonnegative(*right, x);
                lemma_leaf_count_nonnegative(*right, y);
                assert forall|w: nat|
                    #![trigger c.leaf_count(w)]
                    c.leaf_count(w) == s.leaf_count(w) - one_if(w == x) - one_if(w == y) + one_if(
                        w == v,
                    ) by {
                    assert(c.leaf_count(w) == cl.leaf_count(w) + right.leaf_count(w));
                }
                assert(c.cost() == cl.cost() + right.cost() + cl.weight() + right.weight());
                assert(c.height() <= h);
            } else {
                assert(*right is Fork);
                lemma_contract(*right, v);
                let hr = right.height() as int;
                let cr = right.contract(v);
                assert(c == Shape::Fork { left, right: Box::new(cr) });
                assert(h == hr + 1);
                assert((x + y) * (hr + 1) == (x + y) * hr + (x + y)) by (nonlinear_arith);
                assert(v * hr == v * (hr - 1) + v) by (nonlinear_arith);
                lemma_leaf_count_nonnegative(*left, x);
                lemma_leaf_count_nonnegative(*left, y);
                assert forall|w: nat|
                    #![trigger c.leaf_count(w)]
                    c.leaf_count(w) == s.leaf_count(w) - one_if(w == x) - one_if(w == y) + one_if(
                        w == v,
                    ) by {
                    assert(c.leaf_count(w) == left.leaf_count(w) + cr.leaf_count(w));
                }
                assert(c.cost() == left.cost() + cr.cost() + left.weight() + cr.weight());
                assert(c.height() <= h);
            }
        },
    }
}

/// What `relabel` does where a leaf of weight `w` gets the greater weight
/// `v`: one leaf changes, the tree keeps its height, and the cost grows by no
/// more than the difference of the weights times the height.
pub proof fn lemma_relabel(s: Shape, w: nat, v: nat)
    requires
        s.leaf_count(w) >= 1,
        w <= v,
    ensures
        forall|u: nat|
            #![trigger s.relabel(w, v).leaf_count(u)]
            s.relabel(w, v).leaf_count(u) == s.leaf_count(u) - one_if(u == w) + one_if(u == v),
        s.relabel(w, v).weight() == s.weight() + (v - w),
        s.relabel(w, v).height() == s.height(),
        s.relabel(w, v).cost() <= s.cost() + (v - w) * s.height(),
    decreases s,
{
    let d = v - w;
    let r = s.relabel(w, v);
    match s {
        Shape::Leaf { .. } => {
            assert(d * 0 == 0) by (nonlinear_arith);
        },
        Shape::Fork { left, right } => {
            let h = s.height() as int;
            if left.leaf_count(w) >= 1 {
                lemma_relabel(*left, w, v);
                let rl = left.relabel(w, v);
                assert(r == Shape::Fork { left: Box::new(rl), right });
                let hl = left.height() as int;
                assert(d * hl + d <= d * h) by (nonlinear_arith)
                    requires
                        d >= 0,
                        hl + 1 <= h,
                ;
                assert forall|u: nat|
                    #![trigger r.leaf_count(u)]
                    r.leaf_count(u) == s.leaf_count(u) - one_if(u == w) + one_if(u == v) by {
                    assert(r.leaf_count(u) == rl.leaf_count(u) + right.leaf_count(u));
                }
                assert(r.cost() == rl.cost() + right.cost() + rl.weight() + right.weight());
            } else {
                lemma_leaf_count_nonnegative(*left, w);
                lemma_relabel(*right, w, v);
                let rr = right.relabel(w, v);
                assert(r == Shape::Fork { left, right: Box::new(rr) });
                let hr = right.height() as int;
                assert(d * hr + d <= d * h) by (nonlinear_arith)
                    requires
                        d >= 0,
                        hr + 1 <= h,
                ;
                assert forall|u: nat|
                    #![trigger r.leaf_count(u)]
                    r.leaf_count(u) == s.leaf_count(u) - one_if(u == w) + one_if(u == v) by {
                    assert(r.leaf_count(u) == left.leaf_count(u) + rr.leaf_count(u));
                }
                assert(r.cost() == left.cost() + rr.cost() + left.weight() + rr.weight());
            }
        },
    }
}

/// In any tree with two leaves or more, the two leaves of least weight can
/// be merged into one leaf of their summed weight at a gain: some tree has
/// the leaves of the given tree with those two replaced by their sum, and its
/// cost is lower by the two weights at least.
pub proof fn lemma_merge_least(s: Shape, a: nat, b: nat) -> (merged: Shape)
    requires
        s is Fork,
        s.least_two(a, b),
    ensures
        forall|w: nat|
            #![trigger merged.leaf_count(w)]
            merged.leaf_count(w) == s.leaf_count(w) - one_if(w == a) - one_if(w == b) + one_if(
                w == a + b,
            ),
        merged.cost() + a + b <= s.cost(),
{
    let x = s.deepest().0;
    let y = s.deepest().1;
    let h = s.height() as int;
    let lo = if x <= y { x } else { y };
    let hi = if x <= y { y } else { x };
    lemma_contract(s, a + b);
    let t1 = s.contract(a + b);
    assert(a <= lo);
    assert(s.leaf_count(hi) - one_if(hi == a) >= 1);
    assert(b <= hi);
    let t2 = if lo > a { t1.relabel(a, lo) } else { t1 };
    if lo > a {
        assert(t1.leaf_count(a) >= 1);
        lemma_relabel(t1, a, lo);
    }
    assert(t2.height() <= h);
    assert(t2.cost() <= t1.cost() + (lo - a) * h) by {
        if lo > a {
            assert((lo - a) * t1.height() <= (lo - a) * h) by (nonlinear_arith)
                requires
                    lo - a >= 0,
                    t1.height() <= h,
            ;
        } else {
            assert((lo - a) * h == 0) by (nonlinear_arith)
                requires
                    lo - a == 0,
            ;
        }
    }
    assert forall|w: nat|
        #![trigger t2.leaf_count(w)]
        t2.leaf_count(w) == s.leaf_count(w) - one_if(w == a) - one_if(w == hi) + one_if(
            w == a + b,
        ) by {
        assert(t1.leaf_count(w) == s.leaf_count(w) - one_if(w == x) - one_if(w == y) + one_if(
            w == a + b,
        ));
        if lo > a {
            assert(t2.leaf_count(w) == t1.leaf_count(w) - one_if(w == a) + one_if(w == lo));
        }
    }
    let t3 = if hi > b { t2.relabel(b, hi) } else { t2 };
    if hi > b {
        assert(t2.leaf_count(b) == s.leaf_count(b) - one_if(b == a) - one_if(b == hi) + one_if(
            b == a + b,
        ));
        assert(t2.leaf_count(b) >= 1);
        lemma_relabel(t2, b, hi);
    }
    assert(t3.cost() <= t2.cost() + (hi - b) * h) by {
        if hi > b {
            assert((hi - b) * t2.height() <= (hi - b) * h) by (nonlinear_arith)
                requires
                    hi - b >= 0,
                    t2.height() <= h,
            ;
        } else {
            assert((hi - b) * h == 0) by (nonlinear_arith)
                requires
                    hi - b == 0,
            ;
        }
    }
    assert forall|w: nat|
        #![trigger t3.leaf_count(w)]
        t3.leaf_count(w) == s.leaf_count(w) - one_if(w == a) - one_if(w == b) + one_if(
            w == a + b,
        ) by {
        assert(t2.leaf_count(w) == s.leaf_count(w) - one_if(w == a) - one_if(w == hi) + one_if(
            w == a + b,
        ));
        if hi > b {
            assert(t3.leaf_count(w) == t2.leaf_count(w) - one_if(w == b) + one_if(w == hi));
        }
    }
    assert(t3.cost() + a + b <= s.cost()) by {
        assert(t1.cost() + (x + y) * h == s.cost() + (a + b) * (h - 1));
        assert(lo + hi == x + y);
        assert((x + y) * h - (a + b) * (h - 1) - (lo - a) * h - (hi - b) * h == a + b)
            by (nonlinear_arith)
            requires
                lo + hi == x + y,
        ;
    }
    t3
}

impl Node {
    /// The shape of this tree, with the frequency of each leaf as its weight.
    pub open spec fn shape(self) -> Shape
        decreases self,
    {
        match self.kind {
            NodeKind::Leaf { .. } => Shape::Leaf { weight: self.frequency as nat },
            NodeKind::Internal { left, right } => Shape::Fork {
                left: Box::new(left.shape()),
                right: Box::new(right.shape()),
            },
        }
    }
}

/// The number of entries of a table that hold the count `w`.
pub open spec fn entry_count(table: Seq<(u8, u32)>, w: nat) -> int
    decreases table.len(),
{
    if table.len() == 0 {
        0
    } else {
        entry_count(table.drop_last(), w) + one_if(table.last().1 == w)
    }
}

/// Whether the leaves of `tree` hold the counts of `table`: as many leaves
/// hold a frequency as entries of the table hold it as their count.
pub open spec fn holds_counts(tree: Node, table: Seq<(u8, u32)>) -> bool {
    forall|w: nat| tree.shape().leaf_count(w) == entry_count(table, w)
}

/// The sum of the costs of the trees of a forest.
pub open spec fn forest_cost(forest: Seq<Node>) -> nat
    decreases forest.len(),
{
    if forest.len() == 0 {
        0
    } else {
        forest_cost(forest.drop_last()) + forest.last().cost()
    }
}

/// The number of trees of a forest whose root holds the frequency `w`.
pub open spec fn forest_count(forest: Seq<Node>, w: nat) -> int
    decreases forest.len(),
{
    if forest.len() == 0 {
        0
    } else {
        forest_count(forest.drop_last(), w) + one_if(forest.last().frequency == w)
    }
}

/// The root of a well-formed tree holds the sum of the frequencies of its
/// leaves.
pub proof fn lemma_wf_weight(node: Node)
    requires
        node.wf(),
    ensures
        node.weight() == node.frequency,
    decreases node,
{
    match node.kind {
        NodeKind::Leaf { .. } => {},
        NodeKind::Internal { left, right } => {
            lemma_wf_weight(*left);
            lemma_wf_weight(*right);
        },
    }
}

/// A tree that leaves a forest takes its cost and its root frequency along.
pub proof fn lemma_forest_remove(forest: Seq<Node>, i: int)
    requires
        0 <= i < forest.len(),
    ensures
        forest_cost(forest.remove(i)) + forest[i].cost() == forest_cost(forest),
        forall|w: nat|
            #![trigger forest_count(forest.remove(i), w)]
            forest_count(forest.remove(i), w) + one_if(forest[i].frequency == w) == forest_count(
                forest,
                w,
            ),
    decreases forest.len(),
{
    if i == forest.len() - 1 {
        assert(forest.remove(i) == forest.drop_last());
    } else {
        lemma_forest_remove(forest.drop_last(), i);
        assert(forest.remove(i).drop_last() == forest.drop_last().remove(i));
        assert(forest.remove(i).last() == forest.last());
        assert forall|w: nat|
            #![trigger forest_count(forest.remove(i), w)]
            forest_count(forest.remove(i), w) + one_if(forest[i].frequency == w) == forest_count(
                forest,
                w,
            ) by {
            assert(forest_count(forest.drop_last().remove(i), w) + one_if(
                forest.drop_last()[i].frequency == w,
            ) == forest_count(forest.drop_last(), w));
        }
    }
}

/// A tree that enters a forest brings its cost and its root frequency.
pub proof fn lemma_forest_push(forest: Seq<Node>, node: Node)
    ensures
        forest_cost(forest.push(node)) == forest_cost(forest) + node.cost(),
        forall|w: nat|
            #![trigger forest_count(forest.push(node), w)]
            forest_count(forest.push(node), w) == forest_count(forest, w) + one_if(
                node.frequency == w,
            ),
{
    assert(forest.push(node).drop_last() == forest);
}

/// A frequency is counted in a forest exactly where a root holds it.
pub proof fn lemma_forest_count(forest: Seq<Node>, w: nat)
    ensures
        forest_count(forest, w) >= 0,
        forest_count(forest, w) >= 1 <==> exists|k: int|
            0 <= k < forest.len() && (#[trigger] forest[k]).frequency == w,
    decreases forest.len(),
{
    if forest.len() > 0 {
        let front = forest.drop_last();
        lemma_forest_count(front, w);
        if forest_count(forest, w) >= 1 {
            if forest.last().frequency == w {
                assert(forest[forest.len() - 1].frequency == w);
            } else {
                let k = choose|k: int| 0 <= k < front.len() && (#[trigger] front[k]).frequency == w;
                assert(forest[k].frequency == w);
            }
        }
        if exists|k: int| 0 <= k < forest.len() && (#[trigger] forest[k]).frequency == w {
            let k = choose|k: int| 0 <= k < forest.len() && (#[trigger] forest[k]).frequency == w;
            if k < front.len() {
                assert(front[k].frequency == w);
            }
        }
    }
}

/// The tree that a forest is merged into costs no more than the trees of the
/// forest put together in any other way: where `other` has one leaf for each
/// tree of the forest, with the frequency of its root as its weight, the cost
/// of the merged tree is at most the costs of the trees and that of `other`.
pub proof fn lemma_merge_all_optimal(forest: Seq<Node>, other: Shape)
    requires
        forest.len() >= 1,
        forest_wf(forest),
        forest_total(forest) <= u64::MAX,
        forall|w: nat| other.leaf_count(w) == forest_count(forest, w),
    ensures
        merge_all(forest).cost() <= forest_cost(forest) + other.cost(),
    decreases forest.len(),
{
    if forest.len() == 1 {
        assert(forest.drop_last().len() == 0);
        assert(forest_cost(forest.drop_last()) == 0);
        assert(forest.last() == forest[0]);
    } else {
        let i = first_min(forest);
        lemma_first_min(forest);
        let rest = forest.remove(i);
        let j = first_min(rest);
        lemma_first_min(rest);
        let rest2 = rest.remove(j);
        let first = forest[i];
        let second = rest[j];
        let a = first.frequency as nat;
        let b = second.frequency as nat;
        let joined = join(first, second);
        let merged = merge_step(forest);
        assert(merged == rest2.push(joined));
        lemma_merge_step(forest);
        lemma_forest_remove(forest, i);
        lemma_forest_remove(rest, j);
        lemma_forest_push(rest2, joined);
        assert(second == forest[if j < i { j } else { j + 1 }]);
        assert(first.wf() && second.wf());
        lemma_wf_weight(first);
        lemma_wf_weight(second);
        assert(joined.frequency == a + b);
        assert(joined.cost() == first.cost() + second.cost() + a + b);
        assert(forest_cost(merged) == forest_cost(forest) + a + b);
        assert forall|w: nat|
            #![trigger forest_count(merged, w)]
            forest_count(merged, w) == forest_count(forest, w) - one_if(w == a) - one_if(w == b)
                + one_if(w == a + b) by {
            assert(forest_count(rest, w) + one_if(first.frequency == w) == forest_count(
                forest,
                w,
            ));
            assert(forest_count(rest2, w) + one_if(second.frequency == w) == forest_count(
                rest,
                w,
            ));
            assert(forest_count(merged, w) == forest_count(rest2, w) + one_if(
                joined.frequency == w,
            ));
        }
        assert(other.least_two(a, b)) by {
            lemma_forest_count(forest, a);
            lemma_forest_count(rest, b);
            assert(forest_count(rest, b) + one_if(first.frequency == b) == forest_count(
                forest,
                b,
            ));
            assert forall|w: nat| other.leaf_count(w) >= 1 implies a <= w by {
                lemma_forest_count(forest, w);
                let k = choose|k: int|
                    0 <= k < forest.len() && (#[trigger] forest[k]).frequency == w;
            }
            assert forall|w: nat| #[trigger] other.leaf_count(w) - one_if(w == a) >= 1 implies b
                <= w by {
                assert(forest_count(rest, w) + one_if(first.frequency == w) == forest_count(
                    forest,
                    w,
                ));
                lemma_forest_count(rest, w);
                let k = choose|k: int| 0 <= k < rest.len() && (#[trigger] rest[k]).frequency == w;
            }
        }
        assert(other is Fork) by {
            if other is Leaf {
                assert(other.leaf_count(a) >= 1);
                assert(other.leaf_count(b) - one_if(b == a) >= 1);
            }
        }
        let smaller = lemma_merge_least(other, a, b);
        assert forall|w: nat| smaller.leaf_count(w) == forest_count(merged, w) by {
            assert(smaller.leaf_count(w) == other.leaf_count(w) - one_if(w == a) - one_if(w == b)
                + one_if(w == a + b));
        }
        lemma_merge_all_optimal(merged, smaller);
    }
}

/// The shape of a tree has the cost and the weight of the tree.
pub proof fn lemma_shape(node: Node)
    ensures
        node.shape().cost() == node.cost(),
        node.shape().weight() == node.weight(),
    decreases node,
{
    match node.kind {
        NodeKind::Leaf { .. } => {},
        NodeKind::Internal { left, right } => {
            lemma_shape(*left);
            lemma_shape(*right);
        },
    }
}

/// The forest of leaves of a table costs nothing yet, and its roots hold the
/// counts of the table.
pub proof fn lemma_leaves_count(table: Seq<(u8, u32)>)
    ensures
        forest_cost(leaves(table)) == 0,
        forall|w: nat| forest_count(leaves(table), w) == entry_count(table, w),
    decreases table.len(),
{
    if table.len() > 0 {
        lemma_leaves_count(table.drop_last());
        assert(leaves(table).drop_last() == leaves(table.drop_last()));
        assert(leaves(table).last().cost() == 0);
        assert forall|w: nat| forest_count(leaves(table), w) == entry_count(table, w) by {
            assert(forest_count(leaves(table.drop_last()), w) == entry_count(
                table.drop_last(),
                w,
            ));
        }
    }
}

/// The tree of a frequency table is optimal among all shapes: no shape whose
/// leaves hold the counts of the table has a lower cost.
pub proof fn lemma_huffman_tree_least_cost(table: Seq<(u8, u32)>, other: Shape)
    requires
        increasing(table),
        table.len() >= 1,
        forall|w: nat| other.leaf_count(w) == entry_count(table, w),
    ensures
        huffman_tree(table).cost() <= other.cost(),
{
    lemma_increasing_len(table);
    lemma_total_bound(table);
    lemma_leaves(table);
    lemma_leaves_count(table);
    assert forall|w: nat| other.leaf_count(w) == forest_count(leaves(table), w) by {
        assert(other.leaf_count(w) == entry_count(table, w));
    }
    lemma_merge_all_optimal(leaves(table), other);
}

/// The tree of a frequency table is optimal: no tree whose leaves hold the
/// counts of the table has a lower cost.
pub proof fn lemma_huffman_tree_optimal(table: Seq<(u8, u32)>, other: Node)
    requires
        increasing(table),
        table.len() >= 1,
        holds_counts(other, table),
    ensures
        huffman_tree(table).cost() <= other.cost(),
{
    lemma_shape(other);
    lemma_huffman_tree_least_cost(table, other.shape());
}

} // verus!
