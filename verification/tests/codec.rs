use hydrogen::huffman::bits::{pack_bits, read_bit};
use hydrogen::huffman::header::are_valid_parts;
use hydrogen::huffman::{compress, decode, read_header, write_compressed, HuffmanError};

#[test]
fn packs_most_significant_bit_first() {
    let bits = vec![true, false, true, true, false, false, false, true, true, true];
    assert_eq!(pack_bits(&bits), (vec![0b1011_0001, 0b1100_0000], 6));
}

#[test]
fn packs_whole_bytes_without_padding() {
    let bits = vec![false, false, false, false, true, true, true, true];
    assert_eq!(pack_bits(&bits), (vec![0x0f], 0));
    assert_eq!(pack_bits(&Vec::new()), (Vec::new(), 0));
}

#[test]
fn packed_length_is_bits_over_eight_rounded_up() {
    for n in 0..40usize {
        let bits = vec![true; n];
        let (packed, padding) = pack_bits(&bits);
        assert_eq!(packed.len(), (n + 7) / 8);
        assert_eq!(packed.len() * 8, n + padding as usize);
    }
}

#[test]
fn reads_bits_from_the_top() {
    assert!(read_bit(0b1000_0000, 0));
    assert!(!read_bit(0b1000_0000, 1));
    assert!(read_bit(0b0000_0001, 7));
    assert!(!read_bit(0b1111_1110, 7));
    assert!(read_bit(0b0010_0000, 2));
}

#[test]
fn compresses_to_the_exact_bytes() {
    // codes: c = 0, a = 10, b = 11
    let table = vec![(b'a', 1), (b'b', 1), (b'c', 2)];
    assert_eq!(compress(b"abcc", &table), (vec![0b1011_0000], 2));
    assert_eq!(compress(b"ccab", &table), (vec![0b0010_1100], 2));
    assert_eq!(compress(b"", &table), (vec![], 0));
}

#[test]
fn decodes_the_exact_bytes() {
    let table = vec![(b'a', 1), (b'b', 1), (b'c', 2)];
    assert_eq!(decode(2, &table, vec![0b1011_0000]), Ok(b"abcc".to_vec()));
    assert_eq!(decode(2, &table, vec![0b0010_1100]), Ok(b"ccab".to_vec()));
}

#[test]
fn padding_bits_are_not_read() {
    let table = vec![(b'a', 1), (b'b', 1), (b'c', 2)];
    assert_eq!(decode(2, &table, vec![0b1011_0011]), Ok(b"abcc".to_vec()));
}

#[test]
fn stream_that_ends_inside_a_code_is_corrupt() {
    let table = vec![(b'a', 1), (b'b', 1), (b'c', 2)];
    // 7 bits: 10 11 0 0 1, the last bit starts a code and nothing follows
    assert_eq!(decode(1, &table, vec![0b1011_0010]), Err(HuffmanError::CorruptStream));
}

#[test]
fn set_bit_under_a_single_leaf_is_corrupt() {
    let table = vec![(0x41, 3)];
    assert_eq!(decode(5, &table, vec![0b0000_0000]), Ok(vec![0x41, 0x41, 0x41]));
    assert_eq!(decode(5, &table, vec![0b0100_0000]), Err(HuffmanError::CorruptStream));
}

#[test]
fn stream_without_a_table_is_corrupt() {
    assert_eq!(decode(0, &vec![], vec![0]), Err(HuffmanError::CorruptStream));
    assert_eq!(decode(0, &vec![], vec![]), Ok(vec![]));
}

#[test]
fn padding_out_of_range_is_malformed() {
    let table = vec![(b'a', 1), (b'b', 1), (b'c', 2)];
    assert_eq!(decode(8, &table, vec![0b1011_0000]), Err(HuffmanError::MalformedHeader));
    assert_eq!(decode(255, &table, vec![0b1011_0000]), Err(HuffmanError::MalformedHeader));
}

#[test]
fn padding_without_a_stream_is_malformed() {
    assert_eq!(decode(3, &vec![(b'a', 1)], vec![]), Err(HuffmanError::MalformedHeader));
}

#[test]
fn table_out_of_order_is_malformed() {
    assert_eq!(
        decode(2, &vec![(b'b', 1), (b'a', 1), (b'c', 2)], vec![0b1011_0000]),
        Err(HuffmanError::MalformedHeader)
    );
    assert_eq!(
        decode(2, &vec![(b'a', 1), (b'a', 1), (b'c', 2)], vec![0b1011_0000]),
        Err(HuffmanError::MalformedHeader)
    );
}

#[test]
fn counts_that_do_not_match_the_stream_are_malformed() {
    // the stream holds four bytes, the table counts five
    let table = vec![(b'a', 1), (b'b', 1), (b'c', 3)];
    assert_eq!(decode(2, &table, vec![0b1011_0000]), Err(HuffmanError::MalformedHeader));
    // a table that counts bytes, and no stream
    assert_eq!(decode(0, &vec![(b'a', 1)], vec![]), Err(HuffmanError::MalformedHeader));
}

#[test]
fn writes_the_exact_file() {
    let table = vec![(b'a', 1), (b'b', 0x0102_0304), (b'c', 2)];
    let file = write_compressed(vec![0xb0, 0x07], 2, table);
    assert_eq!(
        file,
        vec![
            2, 2, b'a', 1, 0, 0, 0, b'b', 0x04, 0x03, 0x02, 0x01, b'c', 2, 0, 0, 0, 0xb0, 0x07
        ]
    );
}

#[test]
fn reads_the_exact_parts() {
    let file =
        vec![2, 2, b'a', 1, 0, 0, 0, b'b', 0x04, 0x03, 0x02, 0x01, b'c', 2, 0, 0, 0, 0xb0, 0x07];
    assert_eq!(
        read_header(&file),
        Ok((2, vec![(b'a', 1), (b'b', 0x0102_0304), (b'c', 2)], vec![0xb0, 0x07]))
    );
}

#[test]
fn header_round_trips_counts_and_padding() {
    let table =
        vec![(0u8, 1u32), (7, 255), (8, 256), (100, 65_536), (254, 16_777_216), (255, u32::MAX)];
    for padding in 0..=7u8 {
        let file = write_compressed(vec![0xaa, 0x55], padding, table.clone());
        assert_eq!(read_header(&file), Ok((padding, table.clone(), vec![0xaa, 0x55])));
    }
}

#[test]
fn header_that_is_cut_short_is_malformed() {
    let file = vec![2, 2, b'a', 1, 0, 0, 0, b'b', 4, 3, 2, 1, b'c', 2, 0, 0, 0, 0xb0];
    for cut in 1..17 {
        assert_eq!(read_header(&file[..cut]), Err(HuffmanError::MalformedHeader));
    }
    assert_eq!(
        read_header(&file[..17]),
        Ok((2, vec![(b'a', 1), (b'b', 0x0102_0304), (b'c', 2)], vec![]))
    );
    assert!(read_header(&file).is_ok());
}

#[test]
fn header_with_bad_padding_is_malformed() {
    assert_eq!(read_header(&[8, 0, b'a', 1, 0, 0, 0, 0]), Err(HuffmanError::MalformedHeader));
    assert_eq!(read_header(&[255, 0, b'a', 1, 0, 0, 0, 0]), Err(HuffmanError::MalformedHeader));
    assert_eq!(read_header(&[7, 0, b'a', 1, 0, 0, 0, 0]), Ok((7, vec![(b'a', 1)], vec![0])));
    assert_eq!(read_header(&[0, 0, b'a', 1, 0, 0, 0]), Ok((0, vec![(b'a', 1)], vec![])));
}

#[test]
fn header_with_entries_out_of_order_is_malformed() {
    assert_eq!(
        read_header(&[0, 1, b'b', 1, 0, 0, 0, b'a', 1, 0, 0, 0, 0x80]),
        Err(HuffmanError::MalformedHeader)
    );
}

#[test]
fn empty_file_has_empty_parts() {
    assert_eq!(read_header(&[]), Ok((0, vec![], vec![])));
    assert_eq!(write_compressed(vec![], 0, vec![]), Vec::<u8>::new());
}

#[test]
fn valid_parts_are_told_apart() {
    let table = vec![(b'a', 1), (b'b', 1)];
    assert!(are_valid_parts(6, &table, &vec![0x40]));
    assert!(are_valid_parts(0, &table, &vec![]));
    assert!(are_valid_parts(7, &table, &vec![]));
    assert!(are_valid_parts(0, &vec![], &vec![]));
    assert!(!are_valid_parts(8, &table, &vec![0x40]));
    assert!(!are_valid_parts(1, &vec![], &vec![]));
    assert!(!are_valid_parts(0, &vec![], &vec![0x40]));
    assert!(!are_valid_parts(0, &vec![(b'b', 1), (b'a', 1)], &vec![0x40]));
}

#[test]
fn decoded_streams_compress_to_themselves() {
    let table = vec![(b'a', 3), (b'b', 2), (b'c', 1), (b'd', 1)];
    let mut accepted = 0;
    let mut state: u32 = 12345;
    for _ in 0..2000 {
        state = state.wrapping_mul(1664525).wrapping_add(1013904223);
        let first = (state >> 24) as u8;
        state = state.wrapping_mul(1664525).wrapping_add(1013904223);
        let second = (state >> 24) as u8;
        let padding = (state >> 8) as u8 % 8;
        let stream = vec![first, second];
        match decode(padding, &table, stream.clone()) {
            Ok(bytes) => {
                accepted += 1;
                assert_eq!(bytes.len(), 7);
                let (packed, pad) = compress(&bytes, &table);
                assert_eq!(pad, padding);
                assert_eq!(packed.len(), 2);
                assert_eq!(packed[0], first);
                let mask = 0xffu8 << padding;
                assert_eq!(packed[1], second & mask);
            }
            Err(e) => {
                assert!(e == HuffmanError::CorruptStream || e == HuffmanError::MalformedHeader);
            }
        }
    }
    assert!(accepted > 0);
}
