use refpack::error::FormatError;
use refpack::token::Token;

fn control_bytes(token: &Token) -> Vec<u8> {
    let mut out = vec![0xAB];
    token.write_control(&mut out);
    assert_eq!(out[0], 0xAB);
    out[1..].to_vec()
}

#[test]
fn parse_short_copy() {
    assert_eq!(
        Token::parse(&[0x00, 0x00]),
        Ok(Token::ShortCopy { literal_prefix: 0, copy_length: 3, copy_offset: 1 })
    );
    assert_eq!(
        Token::parse(&[0x02, 15]),
        Ok(Token::ShortCopy { literal_prefix: 2, copy_length: 3, copy_offset: 16 })
    );
    assert_eq!(
        Token::parse(&[0x7F, 0xFF]),
        Ok(Token::ShortCopy { literal_prefix: 3, copy_length: 10, copy_offset: 1024 })
    );
    assert_eq!(
        Token::parse(&[0x35, 0x80]),
        Ok(Token::ShortCopy { literal_prefix: 1, copy_length: 8, copy_offset: 385 })
    );
}

#[test]
fn parse_medium_copy() {
    assert_eq!(
        Token::parse(&[0x89, 0x40, 0x00]),
        Ok(Token::MediumCopy { literal_prefix: 1, copy_length: 13, copy_offset: 1 })
    );
    assert_eq!(
        Token::parse(&[0x80, 0x00, 0x00]),
        Ok(Token::MediumCopy { literal_prefix: 0, copy_length: 4, copy_offset: 1 })
    );
    assert_eq!(
        Token::parse(&[0xBF, 0xFF, 0xFF]),
        Ok(Token::MediumCopy { literal_prefix: 3, copy_length: 67, copy_offset: 16384 })
    );
}

#[test]
fn parse_long_copy() {
    assert_eq!(
        Token::parse(&[0xC0, 0x00, 0x00, 0x00]),
        Ok(Token::LongCopy { literal_prefix: 0, copy_length: 5, copy_offset: 1 })
    );
    assert_eq!(
        Token::parse(&[0xDF, 0xFF, 0xFF, 0xFF]),
        Ok(Token::LongCopy { literal_prefix: 3, copy_length: 1028, copy_offset: 131072 })
    );
    assert_eq!(
        Token::parse(&[0xD6, 0x12, 0x34, 0x56]),
        Ok(Token::LongCopy { literal_prefix: 2, copy_length: 347, copy_offset: 70197 })
    );
}

#[test]
fn parse_literal_run() {
    assert_eq!(Token::parse(&[0xE0]), Ok(Token::LiteralRun { length: 4 }));
    assert_eq!(Token::parse(&[0xE1]), Ok(Token::LiteralRun { length: 8 }));
    assert_eq!(Token::parse(&[0xFB]), Ok(Token::LiteralRun { length: 112 }));
}

#[test]
fn parse_stream_end() {
    assert_eq!(Token::parse(&[0xFC]), Ok(Token::StreamEnd { trailing_literal_count: 0 }));
    assert_eq!(Token::parse(&[0xFE]), Ok(Token::StreamEnd { trailing_literal_count: 2 }));
    assert_eq!(Token::parse(&[0xFF, 1, 2, 3]), Ok(Token::StreamEnd { trailing_literal_count: 3 }));
}

#[test]
fn parse_truncated_control_bytes() {
    assert_eq!(Token::parse(&[]), Err(FormatError::Truncated));
    assert_eq!(Token::parse(&[0x00]), Err(FormatError::Truncated));
    assert_eq!(Token::parse(&[0x80, 0x00]), Err(FormatError::Truncated));
    assert_eq!(Token::parse(&[0xC0, 0x00, 0x00]), Err(FormatError::Truncated));
}

#[test]
fn control_len_and_literal_count() {
    let short = Token::ShortCopy { literal_prefix: 2, copy_length: 3, copy_offset: 16 };
    let medium = Token::MediumCopy { literal_prefix: 1, copy_length: 13, copy_offset: 1 };
    let long = Token::LongCopy { literal_prefix: 3, copy_length: 1028, copy_offset: 131072 };
    let run = Token::LiteralRun { length: 8 };
    let end = Token::StreamEnd { trailing_literal_count: 2 };
    assert_eq!((short.control_len(), short.literal_count()), (2, 2));
    assert_eq!((medium.control_len(), medium.literal_count()), (3, 1));
    assert_eq!((long.control_len(), long.literal_count()), (4, 3));
    assert_eq!((run.control_len(), run.literal_count()), (1, 8));
    assert_eq!((end.control_len(), end.literal_count()), (1, 2));
}

#[test]
fn write_control_exact_bytes() {
    assert_eq!(
        control_bytes(&Token::ShortCopy { literal_prefix: 2, copy_length: 3, copy_offset: 16 }),
        vec![0x02, 15]
    );
    assert_eq!(
        control_bytes(&Token::ShortCopy { literal_prefix: 3, copy_length: 10, copy_offset: 1024 }),
        vec![0x7F, 0xFF]
    );
    assert_eq!(
        control_bytes(&Token::MediumCopy { literal_prefix: 1, copy_length: 13, copy_offset: 1 }),
        vec![0x89, 0x40, 0x00]
    );
    assert_eq!(
        control_bytes(&Token::LongCopy { literal_prefix: 2, copy_length: 347, copy_offset: 70197 }),
        vec![0xD6, 0x12, 0x34, 0x56]
    );
    assert_eq!(control_bytes(&Token::LiteralRun { length: 4 }), vec![0xE0]);
    assert_eq!(control_bytes(&Token::LiteralRun { length: 112 }), vec![0xFB]);
    assert_eq!(control_bytes(&Token::StreamEnd { trailing_literal_count: 0 }), vec![0xFC]);
    assert_eq!(control_bytes(&Token::StreamEnd { trailing_literal_count: 3 }), vec![0xFF]);
}

#[test]
fn every_control_sequence_reads_and_writes_back() {
    for b0 in 0..=255u8 {
        for b1 in [0x00u8, 0x01, 0x3F, 0x40, 0x7F, 0x80, 0xC5, 0xFF] {
            for tail in [0x00u8, 0x5A, 0xFF] {
                let bytes = [b0, b1, tail, tail ^ 0x33];
                let token = Token::parse(&bytes).unwrap();
                let written = control_bytes(&token);
                assert_eq!(written.len(), token.control_len());
                assert_eq!(&written[..], &bytes[..written.len()]);
            }
        }
    }
}

#[test]
fn select_copy_takes_the_narrowest_form() {
    assert_eq!(
        Token::select_copy(0, 3, 1),
        Some(Token::ShortCopy { literal_prefix: 0, copy_length: 3, copy_offset: 1 })
    );
    assert_eq!(
        Token::select_copy(3, 10, 1024),
        Some(Token::ShortCopy { literal_prefix: 3, copy_length: 10, copy_offset: 1024 })
    );
    assert_eq!(
        Token::select_copy(1, 11, 1),
        Some(Token::MediumCopy { literal_prefix: 1, copy_length: 11, copy_offset: 1 })
    );
    assert_eq!(
        Token::select_copy(1, 4, 1025),
        Some(Token::MediumCopy { literal_prefix: 1, copy_length: 4, copy_offset: 1025 })
    );
    assert_eq!(
        Token::select_copy(2, 67, 16384),
        Some(Token::MediumCopy { literal_prefix: 2, copy_length: 67, copy_offset: 16384 })
    );
    assert_eq!(
        Token::select_copy(0, 68, 1),
        Some(Token::LongCopy { literal_prefix: 0, copy_length: 68, copy_offset: 1 })
    );
    assert_eq!(
        Token::select_copy(0, 5, 16385),
        Some(Token::LongCopy { literal_prefix: 0, copy_length: 5, copy_offset: 16385 })
    );
    assert_eq!(
        Token::select_copy(3, 1028, 131072),
        Some(Token::LongCopy { literal_prefix: 3, copy_length: 1028, copy_offset: 131072 })
    );
}

#[test]
fn select_copy_refuses_what_no_form_holds() {
    assert_eq!(Token::select_copy(0, 2, 1), None);
    assert_eq!(Token::select_copy(0, 3, 1025), None);
    assert_eq!(Token::select_copy(0, 4, 16385), None);
    assert_eq!(Token::select_copy(0, 1029, 1), None);
    assert_eq!(Token::select_copy(0, 5, 131073), None);
    assert_eq!(Token::select_copy(0, 5, 0), None);
    assert_eq!(Token::select_copy(4, 5, 1), None);
}

#[test]
fn write_appends_control_bytes_and_literals() {
    let mut out = vec![0x11];
    let token = Token::MediumCopy { literal_prefix: 1, copy_length: 13, copy_offset: 1 };
    token.write(&[0x2A], &mut out);
    assert_eq!(out, vec![0x11, 0x89, 0x40, 0x00, 0x2A]);
    Token::StreamEnd { trailing_literal_count: 2 }.write(&[7, 0], &mut out);
    assert_eq!(out, vec![0x11, 0x89, 0x40, 0x00, 0x2A, 0xFE, 7, 0]);
}
