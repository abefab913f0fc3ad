use refpack::error::FormatError;
use refpack::header::{parse_header, write_header, FLAGS_NARROW, FLAGS_WIDE, MARKER, NARROW_MAX};

#[test]
fn write_header_narrow_values() {
    assert_eq!(write_header(0), vec![0x10, 0xFB, 0, 0, 0]);
    assert_eq!(write_header(100), vec![0x10, 0xFB, 0, 0, 100]);
    assert_eq!(write_header(0x012345), vec![0x10, 0xFB, 0x01, 0x23, 0x45]);
    assert_eq!(write_header(0xFF_FFFF), vec![0x10, 0xFB, 0xFF, 0xFF, 0xFF]);
}

#[test]
fn write_header_wide_values() {
    assert_eq!(write_header(0x100_0000), vec![0x90, 0xFB, 1, 0, 0, 0]);
    assert_eq!(write_header(0x1234_5678), vec![0x90, 0xFB, 0x12, 0x34, 0x56, 0x78]);
    assert_eq!(write_header(u32::MAX), vec![0x90, 0xFB, 0xFF, 0xFF, 0xFF, 0xFF]);
}

#[test]
fn write_header_takes_the_narrowest_width() {
    for len in [0u32, 1, 255, 256, 65535, 65536, NARROW_MAX] {
        let header = write_header(len);
        assert_eq!(header.len(), 5);
        assert_eq!(header[0], FLAGS_NARROW);
        assert_eq!(header[1], MARKER);
        assert_eq!(parse_header(&header), Ok((len, 5)));
    }
    for len in [NARROW_MAX + 1, 0x8000_0000, u32::MAX] {
        let header = write_header(len);
        assert_eq!(header.len(), 6);
        assert_eq!(header[0], FLAGS_WIDE);
        assert_eq!(header[1], MARKER);
        assert_eq!(parse_header(&header), Ok((len, 6)));
    }
}

#[test]
fn parse_header_accepts_both_widths_for_one_length() {
    assert_eq!(parse_header(&[0x10, 0xFB, 0, 0, 100]), Ok((100, 5)));
    assert_eq!(parse_header(&[0x90, 0xFB, 0, 0, 0, 100]), Ok((100, 6)));
    assert_eq!(parse_header(&[0x10, 0xFB, 0x01, 0x02, 0x03]), Ok((0x010203, 5)));
    assert_eq!(parse_header(&[0x90, 0xFB, 0x00, 0x01, 0x02, 0x03]), Ok((0x010203, 6)));
}

#[test]
fn parse_header_reads_only_the_width_bit_of_the_flags() {
    assert_eq!(parse_header(&[0x00, 0xFB, 0, 1, 0]), Ok((256, 5)));
    assert_eq!(parse_header(&[0x7F, 0xFB, 0, 1, 0]), Ok((256, 5)));
    assert_eq!(parse_header(&[0x80, 0xFB, 0, 0, 1, 0]), Ok((256, 6)));
    assert_eq!(parse_header(&[0xFF, 0xFB, 0, 0, 1, 0]), Ok((256, 6)));
}

#[test]
fn parse_header_ignores_what_follows() {
    assert_eq!(parse_header(&[0x10, 0xFB, 0, 0, 100, 0x89, 0x40, 0x00]), Ok((100, 5)));
}

#[test]
fn parse_header_bad_signature() {
    assert_eq!(parse_header(&[0x10, 0xFA, 0, 0, 0]), Err(FormatError::BadSignature));
    assert_eq!(parse_header(&[0x10, 0x00]), Err(FormatError::BadSignature));
    assert_eq!(parse_header(&[101, 0, 0, 0, 16, 251]), Err(FormatError::BadSignature));
}

#[test]
fn parse_header_truncated() {
    assert_eq!(parse_header(&[]), Err(FormatError::Truncated));
    assert_eq!(parse_header(&[0x10]), Err(FormatError::Truncated));
    assert_eq!(parse_header(&[0x10, 0xFB]), Err(FormatError::Truncated));
    assert_eq!(parse_header(&[0x10, 0xFB, 0, 0]), Err(FormatError::Truncated));
    assert_eq!(parse_header(&[0x90, 0xFB, 0, 0, 0]), Err(FormatError::Truncated));
}
