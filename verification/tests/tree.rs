use hydrogen::huffman::{build_binary_tree, generate_codes, Node, NodeKind};
use std::collections::HashMap;

fn leaf(character: u8, frequency: u64) -> Node {
    Node { frequency, kind: NodeKind::Leaf { character } }
}

fn join(left: Node, right: Node) -> Node {
    Node {
        frequency: left.frequency + right.frequency,
        kind: NodeKind::Internal { left: Box::new(left), right: Box::new(right) },
    }
}

fn depth(node: &Node) -> usize {
    match &node.kind {
        NodeKind::Leaf { .. } => 0,
        NodeKind::Internal { left, right } => 1 + depth(left).max(depth(right)),
    }
}

#[test]
fn one_entry_gives_a_single_leaf() {
    assert_eq!(build_binary_tree(&vec![(0x41, 100)]), leaf(0x41, 100));
}

#[test]
fn two_entries_give_one_internal_node() {
    assert_eq!(build_binary_tree(&vec![(b'a', 3), (b'b', 2)]), join(leaf(b'b', 2), leaf(b'a', 3)));
}

#[test]
fn lowest_frequencies_are_merged_first() {
    let root = build_binary_tree(&vec![(b'a', 1), (b'b', 1), (b'c', 2)]);
    assert_eq!(root, join(leaf(b'c', 2), join(leaf(b'a', 1), leaf(b'b', 1))));
}

#[test]
fn first_popped_becomes_left_child() {
    let root = build_binary_tree(&vec![(b'x', 5), (b'y', 1), (b'z', 3)]);
    assert_eq!(root, join(join(leaf(b'y', 1), leaf(b'z', 3)), leaf(b'x', 5)));
}

#[test]
fn root_holds_the_sum_of_all_counts() {
    let table = vec![(1, 10), (2, 20), (3, 30), (4, 40), (5, 50)];
    assert_eq!(build_binary_tree(&table).frequency, 150);
}

#[test]
fn sums_do_not_wrap_at_32_bits() {
    let root = build_binary_tree(&vec![(0, u32::MAX), (1, u32::MAX)]);
    assert_eq!(root.frequency, 2 * (u32::MAX as u64));
}

#[test]
fn equal_frequencies_give_a_balanced_tree() {
    let table: Vec<(u8, u32)> = (0..=255u8).map(|value| (value, 1)).collect();
    let root = build_binary_tree(&table);
    assert_eq!(root.frequency, 256);
    assert_eq!(depth(&root), 8);
}

#[test]
fn codes_follow_the_branches() {
    let root = join(leaf(b'c', 2), join(leaf(b'a', 1), leaf(b'b', 1)));
    let mut codes: HashMap<u8, Vec<bool>> = HashMap::new();
    generate_codes(root, Vec::new(), &mut codes);
    assert_eq!(codes.len(), 3);
    assert_eq!(codes[&b'c'], vec![false]);
    assert_eq!(codes[&b'a'], vec![true, false]);
    assert_eq!(codes[&b'b'], vec![true, true]);
}

#[test]
fn single_leaf_gets_the_code_zero() {
    let mut codes: HashMap<u8, Vec<bool>> = HashMap::new();
    generate_codes(leaf(0x41, 100), Vec::new(), &mut codes);
    assert_eq!(codes.len(), 1);
    assert_eq!(codes[&0x41], vec![false]);
}

#[test]
fn codes_start_with_the_code_so_far() {
    let mut codes: HashMap<u8, Vec<bool>> = HashMap::new();
    codes.insert(b'q', vec![true]);
    codes.insert(b'a', vec![true, true, true]);
    generate_codes(join(leaf(b'a', 1), leaf(b'b', 1)), vec![false, true], &mut codes);
    assert_eq!(codes.len(), 3);
    assert_eq!(codes[&b'q'], vec![true]);
    assert_eq!(codes[&b'a'], vec![false, true, false]);
    assert_eq!(codes[&b'b'], vec![false, true, true]);
}

#[test]
fn rightmost_leaf_wins_for_a_repeated_byte() {
    let mut codes: HashMap<u8, Vec<bool>> = HashMap::new();
    generate_codes(join(leaf(b'a', 1), join(leaf(b'b', 1), leaf(b'a', 1))), Vec::new(), &mut codes);
    assert_eq!(codes[&b'a'], vec![true, true]);
    assert_eq!(codes[&b'b'], vec![true, false]);
}

#[test]
fn no_code_is_a_prefix_of_another() {
    let input = b"a man a plan a canal panama";
    let table = hydrogen::huffman::get_freq(input);
    let mut codes: HashMap<u8, Vec<bool>> = HashMap::new();
    generate_codes(build_binary_tree(&table), Vec::new(), &mut codes);
    assert_eq!(codes.len(), table.len());
    for (a, code_a) in codes.iter() {
        for (b, code_b) in codes.iter() {
            if a != b {
                assert!(!code_b.starts_with(code_a));
            }
        }
    }
}

fn cost(node: &Node, depth: u64) -> u64 {
    match &node.kind {
        NodeKind::Leaf { .. } => node.frequency * depth,
        NodeKind::Internal { left, right } => cost(left, depth + 1) + cost(right, depth + 1),
    }
}

#[test]
fn tree_has_the_least_cost() {
    let table = vec![(b'a', 45), (b'b', 13), (b'c', 12), (b'd', 16), (b'e', 9), (b'f', 5)];
    let mut sorted = table.clone();
    sorted.sort();
    let root = build_binary_tree(&sorted);
    assert_eq!(root.frequency, 100);
    assert_eq!(cost(&root, 0), 224);
    // a tree of the same leaves that is as flat as can be costs more
    let flat = join(
        join(join(leaf(b'a', 45), leaf(b'b', 13)), join(leaf(b'c', 12), leaf(b'd', 16))),
        join(leaf(b'e', 9), leaf(b'f', 5)),
    );
    assert_eq!(cost(&flat, 0), 286);
    assert!(cost(&root, 0) <= cost(&flat, 0));
}

#[test]
fn code_lengths_sum_to_the_cost() {
    let input = b"this is an example of a huffman tree";
    let table = hydrogen::huffman::get_freq(input);
    let root = build_binary_tree(&table);
    let expected = cost(&root, 0);
    let mut codes: HashMap<u8, Vec<bool>> = HashMap::new();
    generate_codes(root, Vec::new(), &mut codes);
    let bits: u64 = input.iter().map(|byte| codes[byte].len() as u64).sum();
    assert_eq!(bits, expected);
    assert_eq!(bits, 135);
    let (packed, padding) = hydrogen::huffman::compress(input, &table);
    assert_eq!(packed.len() as u64 * 8, bits + padding as u64);
}
