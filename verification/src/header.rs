//! The stream header: a flag byte, the marker byte, and the uncompressed
//! length as a 3- or 4-byte big-endian field.

use crate::error::FormatError;
use vstd::prelude::*;

verus! {

/// Second byte of every stream.
pub const MARKER: u8 = 0xFB;

/// Flag byte of a stream whose length field is 3 bytes wide.
pub const FLAGS_NARROW: u8 = 0x10;

/// Flag byte of a stream whose length field is 4 bytes wide.
pub const FLAGS_WIDE: u8 = 0x90;

/// The bit of the flag byte that selects the 4-byte length field.
pub const WIDE_FLAG: u8 = 0x80;

/// Largest length that the 3-byte field can hold.
pub const NARROW_MAX: u32 = 0x00FF_FFFF;

/// Whether a flag byte announces the 4-byte length field.
pub open spec fn is_wide(flags: u8) -> bool {
    flags & WIDE_FLAG != 0
}

/// Number of bytes the whole header occupies for a given flag byte.
pub open spec fn header_len(flags: u8) -> nat {
    if is_wide(flags) {
        6
    } else {
        5
    }
}

/// Value of a 3-byte big-endian field.
pub open spec fn be24(b0: u8, b1: u8, b2: u8) -> int {
    b0 * 0x1_0000 + b1 * 0x100 + b2
}

/// Value of a 4-byte big-endian field.
pub open spec fn be32(b0: u8, b1: u8, b2: u8, b3: u8) -> int {
    b0 * 0x100_0000 + b1 * 0x1_0000 + b2 * 0x100 + b3
}

/// What the header at the front of `s` says: the uncompressed length and the
/// number of bytes the header occupies, or why `s` does not start with a header.
pub open spec fn spec_parse_header(s: Seq<u8>) -> Result<(u32, usize), FormatError> {
    if s.len() < 2 {
        Err(FormatError::Truncated)
    } else if s[1] != MARKER {
        Err(FormatError::BadSignature)
    } else if s.len() < header_len(s[0]) {
        Err(FormatError::Truncated)
    } else if is_wide(s[0]) {
        Ok((be32(s[2], s[3], s[4], s[5]) as u32, 6usize))
    } else {
        Ok((be24(s[2], s[3], s[4]) as u32, 5usize))
    }
}

/// The header bytes for `len` with the chosen field width. The narrow form
/// is meaningful only for `len <= NARROW_MAX`.
pub open spec fn header_bytes(len: u32, wide: bool) -> Seq<u8> {
    if wide {
        seq![
            FLAGS_WIDE,
            MARKER,
            (len / 0x100_0000) as u8,
            (len / 0x1_0000 % 0x100) as u8,
            (len / 0x100 % 0x100) as u8,
            (len % 0x100) as u8,
        ]
    } else {
        seq![
            FLAGS_NARROW,
            MARKER,
            (len / 0x1_0000 % 0x100) as u8,
            (len / 0x100 % 0x100) as u8,
            (len % 0x100) as u8,
        ]
    }
}

/// The header that [`write_header`] produces: the narrow field whenever the
/// length fits in it.
pub open spec fn spec_write_header(len: u32) -> Seq<u8> {
    header_bytes(len, len > NARROW_MAX)
}

/// Reads the header at the front of `bytes`.
///
/// Fails with `Truncated` when fewer bytes are present than the header needs
/// and with `BadSignature` when the marker byte is wrong. Either field width
/// is accepted.
pub fn parse_header(bytes: &[u8]) -> (res: Result<(u32, usize), FormatError>)
    ensures
        res == spec_parse_header(bytes@),
{
    if bytes.len() < 2 {
        return Err(FormatError::Truncated);
    }
    if bytes[1] != MARKER {
        return Err(FormatError::BadSignature);
    }
    if bytes[0] & WIDE_FLAG != 0 {
        if bytes.len() < 6 {
            return Err(FormatError::Truncated);
        }
        let value: u32 = (bytes[2] as u32) * 0x100_0000 + (bytes[3] as u32) * 0x1_0000 + (
        bytes[4] as u32) * 0x100 + (bytes[5] as u32);
        Ok((value, 6))
    } else {
        if bytes.len() < 5 {
            return Err(FormatError::Truncated);
        }
        let value: u32 = (bytes[2] as u32) * 0x1_0000 + (bytes[3] as u32) * 0x100 + (
        bytes[4] as u32);
        Ok((value, 5))
    }
}

/// Writes the header for a stream that decodes to `uncompressed_length`
/// bytes, with the narrowest length field that holds the value.
pub fn write_header(uncompressed_length: u32) -> (out: Vec<u8>)
    ensures
        out@ == spec_write_header(uncompressed_length),
        out@.len() == (if uncompressed_length <= NARROW_MAX { 5int } else { 6int }),
{
    let len: u32 = uncompressed_length;
    let mut out: Vec<u8> = Vec::new();
    if len > NARROW_MAX {
        out.push(FLAGS_WIDE);
        out.push(MARKER);
        out.push((len / 0x100_0000) as u8);
    } else {
        out.push(FLAGS_NARROW);
        out.push(MARKER);
    }
    out.push((len / 0x1_0000 % 0x100) as u8);
    out.push((len / 0x100 % 0x100) as u8);
    out.push((len % 0x100) as u8);
    assert(out@ =~= spec_write_header(uncompressed_length));
    out
}

/// Every header that `header_bytes` builds is read back as the same length,
/// whichever field width was chosen and whatever follows it: the reader
/// accepts both widths for one logical length.
pub proof fn lemma_parse_accepts_both_widths(len: u32, wide: bool, rest: Seq<u8>)
    requires
        wide || len <= NARROW_MAX,
    ensures
        spec_parse_header(header_bytes(len, wide) + rest) == Ok::<(u32, usize), FormatError>(
            (len, if wide { 6usize } else { 5usize }),
        ),
{
    assert(FLAGS_WIDE & WIDE_FLAG != 0) by (bit_vector);
    assert(FLAGS_NARROW & WIDE_FLAG == 0) by (bit_vector);
    let s = header_bytes(len, wide) + rest;
    if wide {
        assert(s[0] == FLAGS_WIDE && s[1] == MARKER);
        assert(s[2] == (len / 0x100_0000) as u8);
        assert(s[3] == (len / 0x1_0000 % 0x100) as u8);
        assert(s[4] == (len / 0x100 % 0x100) as u8);
        assert(s[5] == (len % 0x100) as u8);
    } else {
        assert(s[0] == FLAGS_NARROW && s[1] == MARKER);
        assert(s[2] == (len / 0x1_0000 % 0x100) as u8);
        assert(s[3] == (len / 0x100 % 0x100) as u8);
        assert(s[4] == (len % 0x100) as u8);
    }
}

/// The writer never takes the wide field when the narrow one suffices, and
/// what it writes is read back as the same length.
pub proof fn lemma_write_header_narrowest(len: u32, rest: Seq<u8>)
    ensures
        spec_write_header(len).len() == 5 <==> len <= NARROW_MAX,
        spec_write_header(len).len() == 6 <==> len > NARROW_MAX,
        spec_parse_header(spec_write_header(len) + rest) == Ok::<(u32, usize), FormatError>(
            (len, spec_write_header(len).len() as usize),
        ),
{
    lemma_parse_accepts_both_widths(len, len > NARROW_MAX, rest);
}

} // verus!
