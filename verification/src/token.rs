//! The token grammar: the five token forms, their control-byte layouts and
//! the ranges each form can express.
//!
//! | first control byte | form       | control bytes |
//! |--------------------|------------|---------------|
//! | `0x00..=0x7F`      | ShortCopy  | 2             |
//! | `0x80..=0xBF`      | MediumCopy | 3             |
//! | `0xC0..=0xDF`      | LongCopy   | 4             |
//! | `0xE0..=0xFB`      | LiteralRun | 1             |
//! | `0xFC..=0xFF`      | StreamEnd  | 1             |
//!
//! The raw literal bytes of a token follow its control bytes directly.

use crate::error::FormatError;
use vstd::prelude::*;

verus! {

/// Most literal bytes that a copy token or the terminator can carry.
pub const MAX_CARRIED_LITERALS: usize = 3;

/// Shortest copy of a ShortCopy.
pub const SHORT_MIN_LENGTH: usize = 3;

/// Longest copy of a ShortCopy.
pub const SHORT_MAX_LENGTH: usize = 10;

/// Farthest offset of a ShortCopy.
pub const SHORT_MAX_OFFSET: usize = 1024;

/// Shortest copy of a MediumCopy.
pub const MEDIUM_MIN_LENGTH: usize = 4;

/// Longest copy of a MediumCopy.
pub const MEDIUM_MAX_LENGTH: usize = 67;

/// Farthest offset of a MediumCopy.
pub const MEDIUM_MAX_OFFSET: usize = 16384;

/// Shortest copy of a LongCopy.
pub const LONG_MIN_LENGTH: usize = 5;

/// Longest copy of a LongCopy.
pub const LONG_MAX_LENGTH: usize = 1028;

/// Farthest offset of a LongCopy.
pub const LONG_MAX_OFFSET: usize = 131072;

/// Shortest literal run. Run lengths are multiples of four.
pub const RUN_MIN_LENGTH: usize = 4;

/// Longest literal run: the first control bytes from `0xFC` on belong to
/// the terminator, so `0xFB` is the last that announces a run.
pub const RUN_MAX_LENGTH: usize = 112;

/// One unit of the compressed stream.
///
/// A copy token first appends `literal_prefix` raw bytes and then copies
/// `copy_length` bytes from `copy_offset` bytes behind the end of the output.
#[derive(Clone, Copy, Debug, PartialEq, Eq, Structural)]
pub enum Token {
    ShortCopy { literal_prefix: usize, copy_length: usize, copy_offset: usize },
    MediumCopy { literal_prefix: usize, copy_length: usize, copy_offset: usize },
    LongCopy { literal_prefix: usize, copy_length: usize, copy_offset: usize },
    LiteralRun { length: usize },
    StreamEnd { trailing_literal_count: usize },
}

/// Literal prefix of a ShortCopy: the low two bits of the first byte.
pub open spec fn short_literals(b0: u8) -> int {
    (b0 & 0x03) as int
}

/// Copy length of a ShortCopy.
pub open spec fn short_length(b0: u8) -> int {
    ((b0 >> 2) & 0x07) + 3
}

/// Copy offset of a ShortCopy.
pub open spec fn short_offset(b0: u8, b1: u8) -> int {
    ((((b0 & 0x60) as u32) << 3) | (b1 as u32)) + 1
}

/// Literal prefix of a MediumCopy: the top two bits of the second byte.
pub open spec fn medium_literals(b1: u8) -> int {
    (b1 >> 6) as int
}

/// Copy length of a MediumCopy.
pub open spec fn medium_length(b0: u8) -> int {
    (b0 & 0x3F) + 4
}

/// Copy offset of a MediumCopy.
pub open spec fn medium_offset(b1: u8, b2: u8) -> int {
    ((((b1 & 0x3F) as u32) << 8) | (b2 as u32)) + 1
}

/// Literal prefix of a LongCopy: the low two bits of the first byte.
pub open spec fn long_literals(b0: u8) -> int {
    (b0 & 0x03) as int
}

/// Copy length of a LongCopy.
pub open spec fn long_length(b0: u8, b3: u8) -> int {
    (((b0 & 0x0C) as u32) << 6) + b3 + 5
}

/// Copy offset of a LongCopy.
pub open spec fn long_offset(b0: u8, b1: u8, b2: u8) -> int {
    ((((b0 & 0x10) as u32) << 12) | ((b1 as u32) << 8) | (b2 as u32)) + 1
}

/// Length of a LiteralRun.
pub open spec fn run_length(b0: u8) -> int {
    (((b0 & 0x1F) as u32) << 2) + 4
}

/// Number of literals that follow a StreamEnd.
pub open spec fn end_literals(b0: u8) -> int {
    (b0 & 0x03) as int
}

/// Number of control bytes of the token whose first control byte is `b0`.
pub open spec fn control_len_of(b0: u8) -> nat {
    if b0 < 0x80 {
        2
    } else if b0 < 0xC0 {
        3
    } else if b0 < 0xE0 {
        4
    } else {
        1
    }
}

/// The token whose control bytes stand at the front of `s`, or `None` when
/// `s` ends before the last control byte.
pub open spec fn spec_parse_token(s: Seq<u8>) -> Option<Token> {
    if s.len() == 0 || s.len() < control_len_of(s[0]) {
        None
    } else if s[0] < 0x80 {
        Some(
            Token::ShortCopy {
                literal_prefix: short_literals(s[0]) as usize,
                copy_length: short_length(s[0]) as usize,
                copy_offset: short_offset(s[0], s[1]) as usize,
            },
        )
    } else if s[0] < 0xC0 {
        Some(
            Token::MediumCopy {
                literal_prefix: medium_literals(s[1]) as usize,
                copy_length: medium_length(s[0]) as usize,
                copy_offset: medium_offset(s[1], s[2]) as usize,
            },
        )
    } else if s[0] < 0xE0 {
        Some(
            Token::LongCopy {
                literal_prefix: long_literals(s[0]) as usize,
                copy_length: long_length(s[0], s[3]) as usize,
                copy_offset: long_offset(s[0], s[1], s[2]) as usize,
            },
        )
    } else if s[0] < 0xFC {
        Some(Token::LiteralRun { length: run_length(s[0]) as usize })
    } else {
        Some(Token::StreamEnd { trailing_literal_count: end_literals(s[0]) as usize })
    }
}

/// The narrowest copy form that can express the given prefix, length and
/// offset, or `None` when no form can.
pub open spec fn spec_select_copy(literal_prefix: usize, copy_length: usize, copy_offset: usize)
    -> Option<Token> {
    if literal_prefix > MAX_CARRIED_LITERALS || copy_offset < 1 {
        None
    } else if SHORT_MIN_LENGTH <= copy_length <= SHORT_MAX_LENGTH && copy_offset
        <= SHORT_MAX_OFFSET {
        Some(Token::ShortCopy { literal_prefix, copy_length, copy_offset })
    } else if MEDIUM_MIN_LENGTH <= copy_length <= MEDIUM_MAX_LENGTH && copy_offset
        <= MEDIUM_MAX_OFFSET {
        Some(Token::MediumCopy { literal_prefix, copy_length, copy_offset })
    } else if LONG_MIN_LENGTH <= copy_length <= LONG_MAX_LENGTH && copy_offset
        <= LONG_MAX_OFFSET {
        Some(Token::LongCopy { literal_prefix, copy_length, copy_offset })
    } else {
        None
    }
}

impl Token {
    /// Whether every field lies in the range its form can express.
    pub open spec fn well_formed(self) -> bool {
        match self {
            Token::ShortCopy { literal_prefix, copy_length, copy_offset } => {
                &&& literal_prefix <= MAX_CARRIED_LITERALS
                &&& SHORT_MIN_LENGTH <= copy_length <= SHORT_MAX_LENGTH
                &&& 1 <= copy_offset <= SHORT_MAX_OFFSET
            },
            Token::MediumCopy { literal_prefix, copy_length, copy_offset } => {
                &&& literal_prefix <= MAX_CARRIED_LITERALS
                &&& MEDIUM_MIN_LENGTH <= copy_length <= MEDIUM_MAX_LENGTH
                &&& 1 <= copy_offset <= MEDIUM_MAX_OFFSET
            },
            Token::LongCopy { literal_prefix, copy_length, copy_offset } => {
                &&& literal_prefix <= MAX_CARRIED_LITERALS
                &&& LONG_MIN_LENGTH <= copy_length <= LONG_MAX_LENGTH
                &&& 1 <= copy_offset <= LONG_MAX_OFFSET
            },
            Token::LiteralRun { length } => {
                &&& RUN_MIN_LENGTH <= length <= RUN_MAX_LENGTH
                &&& length % 4 == 0
            },
            Token::StreamEnd { trailing_literal_count } => trailing_literal_count
                <= MAX_CARRIED_LITERALS,
        }
    }

    /// Whether the token copies from the output.
    pub open spec fn spec_is_copy(self) -> bool {
        self is ShortCopy || self is MediumCopy || self is LongCopy
    }

    /// Number of control bytes of the token.
    pub open spec fn spec_control_len(self) -> nat {
        match self {
            Token::ShortCopy { .. } => 2,
            Token::MediumCopy { .. } => 3,
            Token::LongCopy { .. } => 4,
            Token::LiteralRun { .. } => 1,
            Token::StreamEnd { .. } => 1,
        }
    }

    /// Number of raw literal bytes that follow the control bytes.
    pub open spec fn spec_literal_count(self) -> nat {
        match self {
            Token::ShortCopy { literal_prefix, .. } => literal_prefix as nat,
            Token::MediumCopy { literal_prefix, .. } => literal_prefix as nat,
            Token::LongCopy { literal_prefix, .. } => literal_prefix as nat,
            Token::LiteralRun { length } => length as nat,
            Token::StreamEnd { trailing_literal_count } => trailing_literal_count as nat,
        }
    }

    /// Number of bytes a copy token copies; zero for the other forms.
    pub open spec fn spec_copy_length(self) -> nat {
        match self {
            Token::ShortCopy { copy_length, .. } => copy_length as nat,
            Token::MediumCopy { copy_length, .. } => copy_length as nat,
            Token::LongCopy { copy_length, .. } => copy_length as nat,
            _ => 0,
        }
    }

    /// How far behind the end of the output a copy token starts reading;
    /// zero for the other forms.
    pub open spec fn spec_copy_offset(self) -> nat {
        match self {
            Token::ShortCopy { copy_offset, .. } => copy_offset as nat,
            Token::MediumCopy { copy_offset, .. } => copy_offset as nat,
            Token::LongCopy { copy_offset, .. } => copy_offset as nat,
            _ => 0,
        }
    }

    /// The control bytes that encode the token.
    pub open spec fn spec_control_bytes(self) -> Seq<u8> {
        match self {
            Token::ShortCopy { literal_prefix, copy_length, copy_offset } => {
                let p = literal_prefix as u32;
                let l = (copy_length - 3) as u32;
                let o = (copy_offset - 1) as u32;
                seq![(((o >> 8) << 5) | (l << 2) | p) as u8, (o & 0xFF) as u8]
            },
            Token::MediumCopy { literal_prefix, copy_length, copy_offset } => {
                let p = literal_prefix as u32;
                let l = (copy_length - 4) as u32;
                let o = (copy_offset - 1) as u32;
                seq![(0x80 | l) as u8, ((p << 6) | (o >> 8)) as u8, (o & 0xFF) as u8]
            },
            Token::LongCopy { literal_prefix, copy_length, copy_offset } => {
                let p = literal_prefix as u32;
                let l = (copy_length - 5) as u32;
                let o = (copy_offset - 1) as u32;
                seq![
                    (0xC0 | ((o >> 16) << 4) | ((l >> 8) << 2) | p) as u8,
                    ((o >> 8) & 0xFF) as u8,
                    (o & 0xFF) as u8,
                    (l & 0xFF) as u8,
                ]
            },
            Token::LiteralRun { length } => {
                let l = (length - 4) as u32;
                seq![(0xE0 | (l >> 2)) as u8]
            },
            Token::StreamEnd { trailing_literal_count } => {
                let p = trailing_literal_count as u32;
                seq![(0xFC | p) as u8]
            },
        }
    }

    /// Number of control bytes of the token.
    pub fn control_len(&self) -> (n: usize)
        ensures
            n == self.spec_control_len(),
    {
        match self {
            Token::ShortCopy { .. } => 2,
            Token::MediumCopy { .. } => 3,
            Token::LongCopy { .. } => 4,
            Token::LiteralRun { .. } => 1,
            Token::StreamEnd { .. } => 1,
        }
    }

    /// Number of raw literal bytes that follow the control bytes.
    pub fn literal_count(&self) -> (n: usize)
        ensures
            n == self.spec_literal_count(),
    {
        match self {
            Token::ShortCopy { literal_prefix, .. } => *literal_prefix,
            Token::MediumCopy { literal_prefix, .. } => *literal_prefix,
            Token::LongCopy { literal_prefix, .. } => *literal_prefix,
            Token::LiteralRun { length } => *length,
            Token::StreamEnd { trailing_literal_count } => *trailing_literal_count,
        }
    }

    /// Reads the token whose control bytes stand at the front of `bytes`.
    ///
    /// Fails with `Truncated` exactly when `bytes` ends before the token's
    /// last control byte. A token that is read is well formed.
    pub fn parse(bytes: &[u8]) -> (res: Result<Token, FormatError>)
        ensures
            match spec_parse_token(bytes@) {
                Some(t) => res == Ok::<Token, FormatError>(t) && t.well_formed(),
                None => res == Err::<Token, FormatError>(FormatError::Truncated),
            },
    {
        if bytes.len() == 0 {
            return Err(FormatError::Truncated);
        }
        let b0: u8 = bytes[0];
        if b0 < 0x80 {
            if bytes.len() < 2 {
                return Err(FormatError::Truncated);
            }
            let b1: u8 = bytes[1];
            proof {
                lemma_short_fields(b0, b1);
            }
            Ok(
                Token::ShortCopy {
                    literal_prefix: (b0 & 0x03) as usize,
                    copy_length: ((b0 >> 2) & 0x07) as usize + 3,
                    copy_offset: ((((b0 & 0x60) as u32) << 3) | (b1 as u32)) as usize + 1,
                },
            )
        } else if b0 < 0xC0 {
            if bytes.len() < 3 {
                return Err(FormatError::Truncated);
            }
            let b1: u8 = bytes[1];
            let b2: u8 = bytes[2];
            proof {
                lemma_medium_fields(b0, b1, b2);
            }
            Ok(
                Token::MediumCopy {
                    literal_prefix: (b1 >> 6) as usize,
                    copy_length: (b0 & 0x3F) as usize + 4,
                    copy_offset: ((((b1 & 0x3F) as u32) << 8) | (b2 as u32)) as usize + 1,
                },
            )
        } else if b0 < 0xE0 {
            if bytes.len() < 4 {
                return Err(FormatError::Truncated);
            }
            let b1: u8 = bytes[1];
            let b2: u8 = bytes[2];
            let b3: u8 = bytes[3];
            proof {
                lemma_long_fields(b0, b1, b2, b3);
            }
            Ok(
                Token::LongCopy {
                    literal_prefix: (b0 & 0x03) as usize,
                    copy_length: (((b0 & 0x0C) as u32) << 6) as usize + b3 as usize + 5,
                    copy_offset: ((((b0 & 0x10) as u32) << 12) | ((b1 as u32) << 8) | (
                    b2 as u32)) as usize + 1,
                },
            )
        } else if b0 < 0xFC {
            proof {
                lemma_run_fields(b0);
            }
            Ok(Token::LiteralRun { length: (((b0 & 0x1F) as u32) << 2) as usize + 4 })
        } else {
            proof {
                lemma_end_fields(b0);
            }
            Ok(Token::StreamEnd { trailing_literal_count: (b0 & 0x03) as usize })
        }
    }

    /// Picks the narrowest copy form that can express a copy of
    /// `copy_length` bytes from `copy_offset` bytes back, carrying
    /// `literal_prefix` literal bytes; `None` when no form can.
    pub fn select_copy(literal_prefix: usize, copy_length: usize, copy_offset: usize) -> (res:
        Option<Token>)
        ensures
            res == spec_select_copy(literal_prefix, copy_length, copy_offset),
            res matches Some(t) ==> t.well_formed() && t.spec_is_copy(),
    {
        if literal_prefix > MAX_CARRIED_LITERALS || copy_offset < 1 {
            None
        } else if SHORT_MIN_LENGTH <= copy_length && copy_length <= SHORT_MAX_LENGTH
            && copy_offset <= SHORT_MAX_OFFSET {
            Some(Token::ShortCopy { literal_prefix, copy_length, copy_offset })
        } else if MEDIUM_MIN_LENGTH <= copy_length && copy_length <= MEDIUM_MAX_LENGTH
            && copy_offset <= MEDIUM_MAX_OFFSET {
            Some(Token::MediumCopy { literal_prefix, copy_length, copy_offset })
        } else if LONG_MIN_LENGTH <= copy_length && copy_length <= LONG_MAX_LENGTH && copy_offset
            <= LONG_MAX_OFFSET {
            Some(Token::LongCopy { literal_prefix, copy_length, copy_offset })
        } else {
            None
        }
    }

    /// Appends the token's control bytes to `out`.
    pub fn write_control(&self, out: &mut Vec<u8>)
        requires
            self.well_formed(),
        ensures
            final(out)@ == old(out)@ + self.spec_control_bytes(),
    {
        match self {
            Token::ShortCopy { literal_prefix, copy_length, copy_offset } => {
                let p: u32 = *literal_prefix as u32;
                let l: u32 = (*copy_length - 3) as u32;
                let o: u32 = (*copy_offset - 1) as u32;
                out.push((((o >> 8) << 5) | (l << 2) | p) as u8);
                out.push((o & 0xFF) as u8);
            },
            Token::MediumCopy { literal_prefix, copy_length, copy_offset } => {
                let p: u32 = *literal_prefix as u32;
                let l: u32 = (*copy_length - 4) as u32;
                let o: u32 = (*copy_offset - 1) as u32;
                out.push((0x80 | l) as u8);
                out.push(((p << 6) | (o >> 8)) as u8);
                out.push((o & 0xFF) as u8);
            },
            Token::LongCopy { literal_prefix, copy_length, copy_offset } => {
                let p: u32 = *literal_prefix as u32;
                let l: u32 = (*copy_length - 5) as u32;
                let o: u32 = (*copy_offset - 1) as u32;
                out.push((0xC0 | ((o >> 16) << 4) | ((l >> 8) << 2) | p) as u8);
                out.push(((o >> 8) & 0xFF) as u8);
                out.push((o & 0xFF) as u8);
                out.push((l & 0xFF) as u8);
            },
            Token::LiteralRun { length } => {
                let l: u32 = (*length - 4) as u32;
                out.push((0xE0 | (l >> 2)) as u8);
            },
            Token::StreamEnd { trailing_literal_count } => {
                let p: u32 = *trailing_literal_count as u32;
                out.push((0xFC | p) as u8);
            },
        }
        assert(out@ =~= old(out)@ + self.spec_control_bytes());
    }

    /// Appends the whole token to `out`: its control bytes, then the
    /// literal bytes it carries.
    pub fn write(&self, literals: &[u8], out: &mut Vec<u8>)
        requires
            self.well_formed(),
            literals@.len() == self.spec_literal_count(),
        ensures
            final(out)@ == old(out)@ + self.spec_control_bytes() + literals@,
    {
        self.write_control(out);
        out.extend_from_slice(literals);
    }
}

/// Field ranges of a ShortCopy.
pub proof fn lemma_short_fields(b0: u8, b1: u8)
    by (bit_vector)
    ensures
        0 <= short_literals(b0) <= 3,
        3 <= short_length(b0) <= 10,
        1 <= short_offset(b0, b1) <= 1024,
{
}

/// Field ranges of a MediumCopy.
pub proof fn lemma_medium_fields(b0: u8, b1: u8, b2: u8)
    by (bit_vector)
    requires
        0x80 <= b0 < 0xC0,
    ensures
        0 <= medium_literals(b1) <= 3,
        4 <= medium_length(b0) <= 67,
        1 <= medium_offset(b1, b2) <= 16384,
{
}

/// Field ranges of a LongCopy.
pub proof fn lemma_long_fields(b0: u8, b1: u8, b2: u8, b3: u8)
    by (bit_vector)
    requires
        0xC0 <= b0 < 0xE0,
    ensures
        0 <= long_literals(b0) <= 3,
        5 <= long_length(b0, b3) <= 1028,
        (((b0 & 0x0C) as u32) << 6) <= 768,
        1 <= long_offset(b0, b1, b2) <= 131072,
{
}

/// Length range of a LiteralRun.
pub proof fn lemma_run_fields(b0: u8)
    by (bit_vector)
    requires
        0xE0 <= b0 < 0xFC,
    ensures
        4 <= run_length(b0) <= 112,
        run_length(b0) % 4 == 0,
{
}

/// Literal count range of a StreamEnd.
pub proof fn lemma_end_fields(b0: u8)
    by (bit_vector)
    ensures
        0 <= end_literals(b0) <= 3,
{
}

/// Packing a ShortCopy's fields and reading them back gives the same fields.
proof fn lemma_short_pack(p: u32, l: u32, o: u32)
    by (bit_vector)
    requires
        p <= 3,
        l <= 7,
        o <= 1023,
    ensures
        ((((o >> 8) << 5) | (l << 2) | p) as u8) < 0x80,
        short_literals((((o >> 8) << 5) | (l << 2) | p) as u8) == p,
        short_length((((o >> 8) << 5) | (l << 2) | p) as u8) == l + 3,
        short_offset((((o >> 8) << 5) | (l << 2) | p) as u8, (o & 0xFF) as u8) == o + 1,
{
}

/// Packing a MediumCopy's fields and reading them back gives the same fields.
proof fn lemma_medium_pack(p: u32, l: u32, o: u32)
    by (bit_vector)
    requires
        p <= 3,
        l <= 63,
        o <= 16383,
    ensures
        0x80 <= ((0x80 | l) as u8) < 0xC0,
        medium_literals(((p << 6) | (o >> 8)) as u8) == p,
        medium_length((0x80 | l) as u8) == l + 4,
        medium_offset(((p << 6) | (o >> 8)) as u8, (o & 0xFF) as u8) == o + 1,
{
}

/// Packing a LongCopy's fields and reading them back gives the same fields.
proof fn lemma_long_pack(p: u32, l: u32, o: u32)
    by (bit_vector)
    requires
        p <= 3,
        l <= 1023,
        o <= 131071,
    ensures
        0xC0 <= ((0xC0 | ((o >> 16) << 4) | ((l >> 8) << 2) | p) as u8) < 0xE0,
        long_literals((0xC0 | ((o >> 16) << 4) | ((l >> 8) << 2) | p) as u8) == p,
        long_length((0xC0 | ((o >> 16) << 4) | ((l >> 8) << 2) | p) as u8, (l & 0xFF) as u8) == l
            + 5,
        long_offset(
            (0xC0 | ((o >> 16) << 4) | ((l >> 8) << 2) | p) as u8,
            ((o >> 8) & 0xFF) as u8,
            (o & 0xFF) as u8,
        ) == o + 1,
{
}

/// Packing a LiteralRun's length and reading it back gives the same length.
proof fn lemma_run_pack(l: u32)
    by (bit_vector)
    requires
        l <= 108,
        l % 4 == 0,
    ensures
        0xE0 <= ((0xE0 | (l >> 2)) as u8) < 0xFC,
        run_length((0xE0 | (l >> 2)) as u8) == l + 4,
{
}

/// Packing a StreamEnd's literal count and reading it back gives the same count.
proof fn lemma_end_pack(p: u32)
    by (bit_vector)
    requires
        p <= 3,
    ensures
        ((0xFC | p) as u8) >= 0xFC,
        end_literals((0xFC | p) as u8) == p,
{
}

/// Reading is the inverse of writing: the control bytes of a well-formed
/// token, followed by anything, are read back as that token.
pub proof fn lemma_parse_control_bytes(t: Token, rest: Seq<u8>)
    requires
        t.well_formed(),
    ensures
        t.spec_control_bytes().len() == t.spec_control_len(),
        spec_parse_token(t.spec_control_bytes() + rest) == Some(t),
{
    let s = t.spec_control_bytes() + rest;
    let c = t.spec_control_bytes();
    match t {
        Token::ShortCopy { literal_prefix, copy_length, copy_offset } => {
            lemma_short_pack(
                literal_prefix as u32,
                (copy_length - 3) as u32,
                (copy_offset - 1) as u32,
            );
            assert(s[0] == c[0] && s[1] == c[1]);
        },
        Token::MediumCopy { literal_prefix, copy_length, copy_offset } => {
            lemma_medium_pack(
                literal_prefix as u32,
                (copy_length - 4) as u32,
                (copy_offset - 1) as u32,
            );
            assert(s[0] == c[0] && s[1] == c[1] && s[2] == c[2]);
        },
        Token::LongCopy { literal_prefix, copy_length, copy_offset } => {
            lemma_long_pack(
                literal_prefix as u32,
                (copy_length - 5) as u32,
                (copy_offset - 1) as u32,
            );
            assert(s[0] == c[0] && s[1] == c[1] && s[2] == c[2] && s[3] == c[3]);
        },
        Token::LiteralRun { length } => {
            lemma_run_pack((length - 4) as u32);
            assert(s[0] == c[0]);
        },
        Token::StreamEnd { trailing_literal_count } => {
            lemma_end_pack(trailing_literal_count as u32);
            assert(s[0] == c[0]);
        },
    }
}

/// Reading a ShortCopy's fields and packing them gives the same bytes.
proof fn lemma_short_unpack(b0: u8, b1: u8)
    by (bit_vector)
    requires
        b0 < 0x80,
    ensures
        ((((((((b0 & 0x60) as u32) << 3) | (b1 as u32)) >> 8) << 5) | ((((b0 >> 2) & 0x07) as u32)
            << 2) | ((b0 & 0x03) as u32)) as u8) == b0,
        ((((((b0 & 0x60) as u32) << 3) | (b1 as u32)) & 0xFF) as u8) == b1,
{
}

/// Reading a MediumCopy's fields and packing them gives the same bytes.
proof fn lemma_medium_unpack(b0: u8, b1: u8, b2: u8)
    by (bit_vector)
    requires
        0x80 <= b0 < 0xC0,
    ensures
        ((0x80 | ((b0 & 0x3F) as u32)) as u8) == b0,
        (((((b1 >> 6) as u32) << 6) | (((((b1 & 0x3F) as u32) << 8) | (b2 as u32)) >> 8)) as u8)
            == b1,
        ((((((b1 & 0x3F) as u32) << 8) | (b2 as u32)) & 0xFF) as u8) == b2,
{
}

/// Reading a LongCopy's fields and packing them gives the same bytes.
proof fn lemma_long_unpack(b0: u8, b1: u8, b2: u8, b3: u8)
    by (bit_vector)
    requires
        0xC0 <= b0 < 0xE0,
    ensures
        ((0xC0 | ((((((b0 & 0x10) as u32) << 12) | ((b1 as u32) << 8) | (b2 as u32)) >> 16) << 4)
            | (((((((b0 & 0x0C) as u32) << 6) + (b3 as u32)) as u32) >> 8) << 2) | ((b0
            & 0x03) as u32)) as u8) == b0,
        (((((((b0 & 0x10) as u32) << 12) | ((b1 as u32) << 8) | (b2 as u32)) >> 8) & 0xFF) as u8)
            == b1,
        (((((b0 & 0x10) as u32) << 12) | ((b1 as u32) << 8) | (b2 as u32)) & 0xFF) as u8 == b2,
        (((((((b0 & 0x0C) as u32) << 6) + (b3 as u32)) as u32) & 0xFF) as u8) == b3,
{
}

/// Reading a LiteralRun's length and packing it gives the same byte.
proof fn lemma_run_unpack(b0: u8)
    by (bit_vector)
    requires
        0xE0 <= b0 < 0xFC,
    ensures
        ((0xE0 | ((((b0 & 0x1F) as u32) << 2) >> 2)) as u8) == b0,
{
}

/// Reading a StreamEnd's literal count and packing it gives the same byte.
proof fn lemma_end_unpack(b0: u8)
    by (bit_vector)
    requires
        b0 >= 0xFC,
    ensures
        ((0xFC | ((b0 & 0x03) as u32)) as u8) == b0,
{
}

/// Writing is the inverse of reading: a token that is read is well formed,
/// and its control bytes are exactly the bytes it was read from. Each
/// well-formed token therefore has one encoding and each encoding one token.
pub proof fn lemma_control_bytes_of_parsed(s: Seq<u8>)
    requires
        spec_parse_token(s) is Some,
    ensures
        spec_parse_token(s)->Some_0.well_formed(),
        spec_parse_token(s)->Some_0.spec_control_len() == control_len_of(s[0]),
        spec_parse_token(s)->Some_0.spec_control_bytes() == s.take(control_len_of(s[0]) as int),
{
    let t = spec_parse_token(s)->Some_0;
    let c = t.spec_control_bytes();
    let b0 = s[0];
    if b0 < 0x80 {
        lemma_short_fields(b0, s[1]);
        lemma_short_unpack(b0, s[1]);
        assert(c =~= s.take(2));
    } else if b0 < 0xC0 {
        lemma_medium_fields(b0, s[1], s[2]);
        lemma_medium_unpack(b0, s[1], s[2]);
        assert(c =~= s.take(3));
    } else if b0 < 0xE0 {
        lemma_long_fields(b0, s[1], s[2], s[3]);
        lemma_long_unpack(b0, s[1], s[2], s[3]);
        assert(c =~= s.take(4));
    } else if b0 < 0xFC {
        lemma_run_fields(b0);
        lemma_run_unpack(b0);
        assert(c =~= s.take(1));
    } else {
        lemma_end_fields(b0);
        lemma_end_unpack(b0);
        assert(c =~= s.take(1));
    }
}

} // verus!
