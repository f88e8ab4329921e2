//! The code table: the bit string that stands for each byte value of a tree.

use std::collections::HashMap;
use vstd::prelude::*;
use crate::huffman::tree::{Node, NodeKind};

verus! {

impl Node {
    /// The way from this node down to the leaf for `b`: `false` for a step to
    /// the left child, `true` for a step to the right child. Where several
    /// leaves stand for `b`, it leads to the rightmost; where none does, to the
    /// leftmost leaf.
    pub open spec fn path_to(self, b: u8) -> Seq<bool>
        decreases self,
    {
        match self.kind {
            NodeKind::Leaf { .. } => Seq::empty(),
            NodeKind::Internal { left, right } => if right.contains(b) {
                seq![true] + right.path_to(b)
            } else {
                seq![false] + left.path_to(b)
            },
        }
    }

    /// The child that one step leads to: the right child where `bit` is set,
    /// else the left one. A leaf has none.
    pub open spec fn child(self, bit: bool) -> Option<Node> {
        match self.kind {
            NodeKind::Leaf { .. } => None,
            NodeKind::Internal { left, right } => Some(if bit { *right } else { *left }),
        }
    }

    /// The node that `path` leads to from this node, if the path does not try
    /// to go on below a leaf.
    pub open spec fn descend(self, path: Seq<bool>) -> Option<Node>
        decreases path.len(),
    {
        if path.len() == 0 {
            Some(self)
        } else {
            match self.child(path[0]) {
                Some(next) => next.descend(path.skip(1)),
                None => None,
            }
        }
    }

    /// Whether this node is the leaf for `b`.
    pub open spec fn is_leaf_for(self, b: u8) -> bool {
        self.kind == (NodeKind::Leaf { character: b })
    }
}

/// The code that a leaf gets when `path` leads to it from the root: the path
/// itself, but the single bit 0 for the leaf that is the root, whose path is
/// empty.
pub open spec fn leaf_code(path: Seq<bool>) -> Seq<bool> {
    if path.len() == 0 {
        seq![false]
    } else {
        path
    }
}

/// The code of the byte value `b` in the tree `root`.
pub open spec fn code_of(root: Node, b: u8) -> Seq<bool> {
    leaf_code(root.path_to(b))
}

/// The codes of the leaves below `node`, where `prefix` leads to `node`.
pub open spec fn codes_below(node: Node, prefix: Seq<bool>) -> Map<u8, Seq<bool>> {
    Map::new(|b: u8| node.contains(b), |b: u8| leaf_code(prefix + node.path_to(b)))
}

/// The code table of the tree `root`: one code per byte value.
pub open spec fn code_table(root: Node) -> Map<u8, Seq<bool>> {
    codes_below(root, Seq::empty())
}

/// What a table of codes holds, each code as a sequence of bits.
pub open spec fn table_view(codes: Map<u8, Vec<bool>>) -> Map<u8, Seq<bool>> {
    Map::new(|b: u8| codes.contains_key(b), |b: u8| codes[b]@)
}

/// Whether `p` is the beginning of `q`.
pub open spec fn is_prefix(p: Seq<bool>, q: Seq<bool>) -> bool {
    p.len() <= q.len() && q.take(p.len() as int) == p
}

/// Whether no code of the table is the beginning of the code of another byte
/// value.
pub open spec fn prefix_free(codes: Map<u8, Seq<bool>>) -> bool {
    forall|a: u8, b: u8|
        codes.contains_key(a) && codes.contains_key(b) && a != b ==> !is_prefix(
            #[trigger] codes[a],
            #[trigger] codes[b],
        )
}

/// A path in two parts leads where the second part leads from the end of the
/// first.
pub proof fn lemma_descend_concat(node: Node, p: Seq<bool>, q: Seq<bool>)
    ensures
        node.descend(p + q) == match node.descend(p) {
            Some(mid) => mid.descend(q),
            None => None,
        },
    decreases p.len(),
{
    if p.len() == 0 {
        assert(p + q == q);
    } else {
        assert((p + q)[0] == p[0]);
        assert((p + q).skip(1) == p.skip(1) + q);
        match node.child(p[0]) {
            Some(next) => {
                lemma_descend_concat(next, p.skip(1), q);
            },
            None => {},
        }
    }
}

/// One more step at the end of a path leads to a child of the node that the
/// path leads to.
pub proof fn lemma_descend_push(node: Node, p: Seq<bool>, bit: bool)
    ensures
        node.descend(p.push(bit)) == match node.descend(p) {
            Some(mid) => mid.child(bit),
            None => None,
        },
{
    lemma_descend_concat(node, p, seq![bit]);
    assert(p.push(bit) == p + seq![bit]);
    match node.descend(p) {
        Some(mid) => {
            assert(seq![bit].skip(1).len() == 0);
            match mid.child(bit) {
                Some(next) => {
                    assert(next.descend(seq![bit].skip(1)) == Some(next));
                },
                None => {},
            }
        },
        None => {},
    }
}

/// The path to a byte value of the tree leads to its leaf.
pub proof fn lemma_path_leads_to_leaf(node: Node, b: u8)
    requires
        node.contains(b),
    ensures
        node.descend(node.path_to(b)) is Some,
        node.descend(node.path_to(b))->0.is_leaf_for(b),
    decreases node,
{
    match node.kind {
        NodeKind::Leaf { .. } => {},
        NodeKind::Internal { left, right } => {
            let path = node.path_to(b);
            if right.contains(b) {
                assert(path.skip(1) == right.path_to(b));
                lemma_path_leads_to_leaf(*right, b);
            } else {
                assert(path.skip(1) == left.path_to(b));
                lemma_path_leads_to_leaf(*left, b);
            }
        },
    }
}

/// In a tree without a byte value in two leaves, a path that leads to a leaf
/// is the path to the byte value of that leaf.
pub proof fn lemma_leaf_path(node: Node, path: Seq<bool>, b: u8)
    requires
        node.unique(),
        node.descend(path) is Some,
        node.descend(path)->0.is_leaf_for(b),
    ensures
        node.contains(b),
        path == node.path_to(b),
    decreases node,
{
    match node.kind {
        NodeKind::Leaf { .. } => {
            if path.len() > 0 {
                assert(node.child(path[0]) is None);
            }
            assert(path == Seq::<bool>::empty());
        },
        NodeKind::Internal { left, right } => {
            assert(path.len() > 0);
            let next = if path[0] { *right } else { *left };
            lemma_leaf_path(next, path.skip(1), b);
            assert(path == seq![path[0]] + path.skip(1));
        },
    }
}

/// Below a leaf no path goes on: only the empty path leads anywhere.
pub proof fn lemma_descend_from_leaf(node: Node, path: Seq<bool>)
    requires
        node.kind is Leaf,
    ensures
        node.descend(path) is Some <==> path.len() == 0,
{
}

/// The path to a byte value of a tree is not the beginning of the path to
/// another.
pub proof fn lemma_paths_prefix_free(node: Node, a: u8, b: u8)
    requires
        node.contains(a),
        node.contains(b),
        a != b,
    ensures
        node.kind is Internal,
        !is_prefix(node.path_to(a), node.path_to(b)),
{
    let p = node.path_to(a);
    let q = node.path_to(b);
    lemma_path_leads_to_leaf(node, a);
    lemma_path_leads_to_leaf(node, b);
    if is_prefix(p, q) {
        let rest = q.skip(p.len() as int);
        assert(q == p + rest);
        lemma_descend_concat(node, p, rest);
        lemma_descend_from_leaf(node.descend(p)->0, rest);
        assert(rest.len() == 0);
        assert(false);
    }
}

/// No code of a tree is the beginning of the code of another byte value.
pub proof fn lemma_prefix_free(root: Node, a: u8, b: u8)
    requires
        root.contains(a),
        root.contains(b),
        a != b,
    ensures
        !is_prefix(code_of(root, a), code_of(root, b)),
{
    lemma_paths_prefix_free(root, a, b);
    assert(root.path_to(a).len() > 0 && root.path_to(b).len() > 0);
}

/// The codes of the leaves below a node are prefix-free, whatever leads to
/// the node.
pub proof fn lemma_codes_prefix_free(node: Node, prefix: Seq<bool>)
    ensures
        prefix_free(codes_below(node, prefix)),
{
    let codes = codes_below(node, prefix);
    assert forall|a: u8, b: u8|
        codes.contains_key(a) && codes.contains_key(b) && a != b implies !is_prefix(
        #[trigger] codes[a],
        #[trigger] codes[b],
    ) by {
        lemma_paths_prefix_free(node, a, b);
        let p = node.path_to(a);
        let q = node.path_to(b);
        assert(p.len() > 0 && q.len() > 0);
        assert(codes[a] == prefix + p);
        assert(codes[b] == prefix + q);
        if is_prefix(prefix + p, prefix + q) {
            assert(q.take(p.len() as int) =~= p) by {
                assert forall|i: int| 0 <= i < p.len() implies q[i] == p[i] by {
                    assert((prefix + q).take((prefix + p).len() as int)[prefix.len() + i] == (
                    prefix + p)[prefix.len() + i]);
                }
            }
            assert(false);
        }
    }
}

/// `code` with `bit` appended.
fn extended(code: &Vec<bool>, bit: bool) -> (longer: Vec<bool>)
    ensures
        longer@ == code@.push(bit),
{
    let mut longer: Vec<bool> = Vec::new();
    let mut i: usize = 0;
    while i < code.len()
        invariant
            i <= code.len(),
            longer@ == code@.take(i as int),
        decreases code.len() - i,
    {
        longer.push(code[i]);
        assert(longer@ == code@.take(i + 1));
        i += 1;
    }
    assert(code@.take(i as int) == code@);
    longer.push(bit);
    longer
}

/// Records in `codes` the code of every leaf below `node`, where
/// `current_code` leads from the root to `node`: 0 is appended for a step to
/// the left and 1 for a step to the right. A leaf that is reached with an empty
/// code, the root of a tree of one node, gets the single bit 0. A byte value
/// that `codes` already holds gets its new code. A table that was empty is
/// prefix-free afterwards: no code is the beginning of another.
pub fn generate_codes(node: Node, current_code: Vec<bool>, codes: &mut HashMap<u8, Vec<bool>>)
    ensures
        table_view(final(codes)@) == table_view(old(codes)@).union_prefer_right(
            codes_below(node, current_code@),
        ),
        (forall|b: u8| !old(codes)@.contains_key(b)) ==> prefix_free(table_view(final(codes)@)),
    decreases node,
{
    broadcast use vstd::std_specs::hash::group_hash_axioms;
    proof {
        lemma_codes_prefix_free(node, current_code@);
        if forall|b: u8| !old(codes)@.contains_key(b) {
            assert(table_view(old(codes)@).union_prefer_right(codes_below(node, current_code@))
                =~= codes_below(node, current_code@));
        }
    }
    match node.kind {
        NodeKind::Leaf { character } => {
            let code: Vec<bool> = if current_code.len() == 0 {
                extended(&current_code, false)
            } else {
                current_code
            };
            assert(code@ == leaf_code(current_code@ + node.path_to(character)));
            codes.insert(character, code);
            assert(table_view(codes@) =~= table_view(old(codes)@).union_prefer_right(
                codes_below(node, current_code@),
            ));
        },
        NodeKind::Internal { left, right } => {
            let left_code: Vec<bool> = extended(&current_code, false);
            let right_code: Vec<bool> = extended(&current_code, true);
            let ghost left_node = *left;
            let ghost right_node = *right;
            generate_codes(*left, left_code, codes);
            generate_codes(*right, right_code, codes);
            proof {
                assert forall|b: u8| node.contains(b) implies (#[trigger] table_view(codes@)[b])
                    == leaf_code(current_code@ + node.path_to(b)) by {
                    if right_node.contains(b) {
                        assert(current_code@ + (seq![true] + right_node.path_to(b))
                            == current_code@.push(true) + right_node.path_to(b));
                    } else {
                        assert(current_code@ + (seq![false] + left_node.path_to(b))
                            == current_code@.push(false) + left_node.path_to(b));
                    }
                }
                assert(table_view(codes@) =~= table_view(old(codes)@).union_prefer_right(
                    codes_below(node, current_code@),
                ));
            }
        },
    }
}

} // verus!
