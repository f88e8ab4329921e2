use hydrogen::rle::{compress, write_compressed};

fn expand(runs: &[(u8, u32)]) -> Vec<u8> {
    let mut bytes: Vec<u8> = Vec::new();
    for (byte, count) in runs {
        for _ in 0..*count {
            bytes.push(*byte);
        }
    }
    bytes
}

#[test]
fn runs_of_a_short_input() {
    assert_eq!(compress(b"aaabccdddd"), vec![(b'a', 3), (b'b', 1), (b'c', 2), (b'd', 4)]);
}

#[test]
fn runs_of_the_empty_input() {
    assert_eq!(compress(b""), Vec::<(u8, u32)>::new());
}

#[test]
fn one_run_for_one_repeated_byte() {
    assert_eq!(compress(&[7u8; 1000]), vec![(7, 1000)]);
}

#[test]
fn runs_expand_to_the_input() {
    let input = b"xxyzzzzxxxxxxxxxxxy  y".to_vec();
    let runs = compress(&input);
    assert_eq!(expand(&runs), input);
    for pair in runs.windows(2) {
        assert_ne!(pair[0].0, pair[1].0);
    }
}

#[test]
fn runs_are_written_five_bytes_each() {
    let file = write_compressed(&vec![(b'a', 3), (b'b', 0x0102_0304)]);
    assert_eq!(file, vec![b'a', 3, 0, 0, 0, b'b', 4, 3, 2, 1]);
    assert_eq!(write_compressed(&vec![]), Vec::<u8>::new());
}
