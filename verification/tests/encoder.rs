use refpack::decoder::decode_tokens;
use refpack::encoder::{encode_tokens, write_literal_runs};

fn tokens_of(input: &[u8]) -> Vec<u8> {
    let mut out = vec![0x55];
    encode_tokens(input, &mut out);
    assert_eq!(out[0], 0x55);
    out[1..].to_vec()
}

#[test]
fn encode_tokens_appends_to_the_buffer() {
    assert_eq!(tokens_of(b""), vec![0xFC]);
    assert_eq!(tokens_of(b"ab"), vec![0xFE, b'a', b'b']);
    assert_eq!(tokens_of(b"abcdabcd"), vec![224, 97, 98, 99, 100, 4, 3, 252]);
}

#[test]
fn encode_then_decode_reads_the_whole_stream() {
    let input = b"to be or not to be, that is the question: to be or not to be";
    let tokens = tokens_of(input);
    assert_eq!(decode_tokens(&tokens), Ok((input.to_vec(), tokens.len())));
}

#[test]
fn literal_runs_keep_the_last_bytes_back() {
    let input: Vec<u8> = (0..10u8).collect();
    let mut out = Vec::new();
    write_literal_runs(&input, &mut out);
    assert_eq!(out, vec![0xE1, 0, 1, 2, 3, 4, 5, 6, 7]);

    let mut out = Vec::new();
    write_literal_runs(&input[2..5], &mut out);
    assert_eq!(out, Vec::<u8>::new());

    let mut out = Vec::new();
    write_literal_runs(&input[3..7], &mut out);
    assert_eq!(out, vec![0xE0, 3, 4, 5, 6]);
}

#[test]
fn long_literal_spans_are_split_into_runs() {
    let input: Vec<u8> = (0..230usize).map(|i| i as u8).collect();
    let mut out = Vec::new();
    write_literal_runs(&input, &mut out);
    // 112 + 112 + 4, and two bytes kept back.
    assert_eq!(out.len(), 113 + 113 + 5);
    assert_eq!(out[0], 0xFB);
    assert_eq!(&out[1..113], &input[..112]);
    assert_eq!(out[113], 0xFB);
    assert_eq!(&out[114..226], &input[112..224]);
    assert_eq!(out[226], 0xE0);
    assert_eq!(&out[227..], &input[224..228]);
}

#[test]
fn matches_longer_than_a_token_are_split() {
    let input = vec![3u8; 5000];
    let tokens = tokens_of(&input);
    // One literal rides with the first copy; 1028 + 1028 + 1028 + 1028 + 887.
    assert_eq!(
        tokens,
        vec![
            0xCD, 0, 0, 0xFF, 3, 0xCC, 0, 0, 0xFF, 0xCC, 0, 0, 0xFF, 0xCC, 0, 0, 0xFF, 0xCC, 0, 0,
            0x72, 0xFC
        ]
    );
    assert_eq!(decode_tokens(&tokens), Ok((input, tokens.len())));
}
