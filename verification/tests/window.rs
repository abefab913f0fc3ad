use refpack::window::{EncodeWindow, Match, MAX_MATCH, MAX_OFFSET};

fn window_at(input: &[u8], pos: usize) -> EncodeWindow<'_> {
    let mut window = EncodeWindow::new(input);
    for _ in 0..pos {
        window.advance();
    }
    assert_eq!(window.cursor(), pos);
    window
}

#[test]
fn no_match_at_the_start() {
    let input = b"aaaaaaaa";
    assert_eq!(window_at(input, 0).find_match(), None);
}

#[test]
fn match_overlaps_the_cursor() {
    let input = b"aaaaaaaa";
    assert_eq!(window_at(input, 1).find_match(), Some(Match { length: 7, offset: 1 }));
}

#[test]
fn longest_match_wins() {
    let input = b"abcdeXabcYabcde";
    assert_eq!(window_at(input, 10).find_match(), Some(Match { length: 5, offset: 10 }));
}

#[test]
fn nearest_match_wins_a_tie() {
    let input = b"abcXabcYabc";
    assert_eq!(window_at(input, 8).find_match(), Some(Match { length: 3, offset: 4 }));
}

#[test]
fn two_bytes_are_not_a_match() {
    let input = b"abXabY";
    assert_eq!(window_at(input, 3).find_match(), None);
    let tail = b"abcab";
    assert_eq!(window_at(tail, 3).find_match(), None);
}

#[test]
fn match_length_is_capped() {
    let input = vec![7u8; 3000];
    assert_eq!(window_at(&input, 1).find_match(), Some(Match { length: MAX_MATCH, offset: 1 }));
    assert_eq!(window_at(&input, 2990).find_match(), Some(Match { length: 10, offset: 1 }));
}

#[test]
fn matches_beyond_the_window_are_not_found() {
    let mut input = b"needle".to_vec();
    let mut x: u32 = 99;
    while input.len() < MAX_OFFSET + 1 {
        x = x.wrapping_mul(1664525).wrapping_add(1013904223);
        // Bytes that cannot spell the needle.
        input.push(0x80 | (x >> 24) as u8);
    }
    let at = input.len();
    input.extend_from_slice(b"needle");
    assert_eq!(at, MAX_OFFSET + 1);
    let found = window_at(&input, at).find_match();
    assert!(found.map_or(true, |m| m.offset <= MAX_OFFSET && m.length < 6));

    let mut near = b"needle".to_vec();
    near.extend_from_slice(&input[7..at]);
    near.extend_from_slice(b"needle");
    let at = near.len() - 6;
    assert_eq!(at, MAX_OFFSET);
    assert_eq!(window_at(&near, at).find_match(), Some(Match { length: 6, offset: MAX_OFFSET }));
}

#[test]
fn advance_stops_at_the_end() {
    let input = b"abc";
    let mut window = EncodeWindow::new(input);
    for _ in 0..5 {
        window.advance();
    }
    assert_eq!(window.cursor(), 3);
    assert_eq!(window.find_match(), None);
}
