use hydrogen::huffman;

#[test]
fn roundtrip_text() {
    let input = b"hello world";
    let char_freq = huffman::get_freq(input);
    let (compressed, padding) = huffman::compress(input, &char_freq);
    let output = huffman::decode(padding, &char_freq, compressed).unwrap();
    assert_eq!(input.to_vec(), output);
}

#[test]
fn roundtrip_single_repeated_byte() {
    let input = vec![0x41u8; 100];
    let char_freq = huffman::get_freq(&input);
    assert_eq!(char_freq, vec![(0x41u8, 100u32)]);
    let (compressed, padding) = huffman::compress(&input, &char_freq);
    assert_eq!(compressed.len(), 13);
    assert_eq!(padding, 4);
    assert!(compressed.iter().all(|byte| *byte == 0));
    let output = huffman::decode(padding, &char_freq, compressed).unwrap();
    assert_eq!(output, input);
}

#[test]
fn roundtrip_empty_input() {
    let input: Vec<u8> = Vec::new();
    let char_freq = huffman::get_freq(&input);
    assert!(char_freq.is_empty());
    let (compressed, padding) = huffman::compress(&input, &char_freq);
    assert!(compressed.is_empty());
    assert_eq!(padding, 0);
    let file = huffman::write_compressed(compressed, padding, char_freq);
    assert!(file.is_empty());
    let (padding, char_freq, compressed) = huffman::read_header(&file).unwrap();
    assert_eq!(padding, 0);
    assert!(char_freq.is_empty());
    assert!(compressed.is_empty());
    let output = huffman::decode(padding, &char_freq, compressed).unwrap();
    assert!(output.is_empty());
}

#[test]
fn roundtrip_every_byte_value() {
    let mut input: Vec<u8> = Vec::new();
    for round in 0..3u32 {
        for value in 0..=255u8 {
            for _ in 0..(1 + (value as u32 * 7 + round) % 5) {
                input.push(value);
            }
        }
    }
    let char_freq = huffman::get_freq(&input);
    assert_eq!(char_freq.len(), 256);
    let (compressed, padding) = huffman::compress(&input, &char_freq);
    let file = huffman::write_compressed(compressed.clone(), padding, char_freq.clone());
    assert_eq!(file.len(), 2 + 5 * 256 + compressed.len());
    assert_eq!(file[1], 255);
    let (read_padding, read_freq, read_data) = huffman::read_header(&file).unwrap();
    assert_eq!(read_padding, padding);
    assert_eq!(read_freq, char_freq);
    assert_eq!(read_data, compressed);
    let output = huffman::decode(read_padding, &read_freq, read_data).unwrap();
    assert_eq!(output, input);
}

#[test]
fn roundtrip_through_a_file() {
    let input = b"it was the best of times, it was the worst of times".to_vec();
    let char_freq = huffman::get_freq(&input);
    let (compressed, padding) = huffman::compress(&input, &char_freq);
    let file = huffman::write_compressed(compressed, padding, char_freq);
    let (padding, char_freq, compressed) = huffman::read_header(&file).unwrap();
    let output = huffman::decode(padding, &char_freq, compressed).unwrap();
    assert_eq!(output, input);
}

#[test]
fn skewed_text_gets_smaller() {
    let mut input: Vec<u8> = Vec::new();
    for i in 0..2000u32 {
        input.push(b'e');
        if i % 2 == 0 {
            input.push(b' ');
        }
        if i % 5 == 0 {
            input.push(b't');
        }
        if i % 50 == 0 {
            input.push(b'z');
        }
        if i % 400 == 0 {
            input.push(b'q');
        }
    }
    let char_freq = huffman::get_freq(&input);
    let (compressed, padding) = huffman::compress(&input, &char_freq);
    assert!(compressed.len() * 8 <= input.len() * 8);
    assert!(compressed.len() <= input.len());
    assert!(padding <= 7);
    let file = huffman::write_compressed(compressed, padding, char_freq.clone());
    assert!(file.len() <= input.len() + 2 + 5 * char_freq.len());
    assert!(file.len() < input.len() / 2);
}

#[test]
fn compression_never_makes_the_stream_longer() {
    let inputs: Vec<Vec<u8>> = vec![
        (0..=255u8).collect(),
        (0..=255u8).rev().cycle().take(1000).collect(),
        vec![0, 1],
        vec![9],
        b"abcdefgh".to_vec(),
        (0..5000u32).map(|i| (i.wrapping_mul(2654435761) >> 24) as u8).collect(),
    ];
    for input in inputs {
        let char_freq = huffman::get_freq(&input);
        let (compressed, padding) = huffman::compress(&input, &char_freq);
        assert!(compressed.len() <= input.len());
        assert_eq!(huffman::decode(padding, &char_freq, compressed), Ok(input));
    }
}
