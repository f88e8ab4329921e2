use hydrogen::huffman::frequency::{has_entries_for, is_increasing, total_of};
use hydrogen::huffman::get_freq;

#[test]
fn counts_hello_world() {
    let table = get_freq(b"hello world");
    assert_eq!(
        table,
        vec![
            (b' ', 1),
            (b'd', 1),
            (b'e', 1),
            (b'h', 1),
            (b'l', 3),
            (b'o', 2),
            (b'r', 1),
            (b'w', 1)
        ]
    );
}

#[test]
fn counts_sum_to_the_length() {
    let input = b"abracadabra, said the magician";
    let table = get_freq(input);
    let sum: u64 = table.iter().map(|entry| entry.1 as u64).sum();
    assert_eq!(sum, input.len() as u64);
    assert_eq!(total_of(&table), input.len() as u64);
}

#[test]
fn counting_twice_gives_the_same_table() {
    let input = b"the quick brown fox jumps over the lazy dog";
    assert_eq!(get_freq(input), get_freq(input));
}

#[test]
fn counts_nothing_in_the_empty_input() {
    assert_eq!(get_freq(&[]), Vec::<(u8, u32)>::new());
}

#[test]
fn counts_the_extreme_byte_values() {
    assert_eq!(get_freq(&[255, 0, 255, 0, 255]), vec![(0, 2), (255, 3)]);
}

#[test]
fn table_order_is_by_byte_value() {
    let table = get_freq(b"zyxwvutsrqponmlkjihgfedcba");
    assert!(is_increasing(&table));
    assert_eq!(table.first(), Some(&(b'a', 1)));
    assert_eq!(table.last(), Some(&(b'z', 1)));
}

#[test]
fn increasing_tables_are_told_apart() {
    assert!(is_increasing(&vec![]));
    assert!(is_increasing(&vec![(7, 1)]));
    assert!(is_increasing(&vec![(1, 5), (2, 5), (200, 1)]));
    assert!(!is_increasing(&vec![(1, 5), (1, 5)]));
    assert!(!is_increasing(&vec![(2, 1), (1, 1)]));
    assert!(!is_increasing(&vec![(1, 1), (3, 1), (2, 1)]));
}

#[test]
fn total_of_large_counts_does_not_wrap() {
    let table = vec![(0u8, u32::MAX), (1u8, u32::MAX), (2u8, 1u32)];
    assert_eq!(total_of(&table), 2 * (u32::MAX as u64) + 1);
}

#[test]
fn tables_with_and_without_all_entries() {
    let table = get_freq(b"hello");
    assert!(has_entries_for(&table, b"hello"));
    assert!(has_entries_for(&table, b"olleh"));
    assert!(has_entries_for(&table, b""));
    assert!(!has_entries_for(&table, b"help"));
    assert!(!has_entries_for(&vec![], b"a"));
    assert!(has_entries_for(&vec![], b""));
}
