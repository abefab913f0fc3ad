//! The decoder: expands a token stream into bytes, with the output built so
//! far serving as the window that copies read from.

use crate::error::FormatError;
use crate::token::{lemma_parse_control_bytes, spec_parse_token, Token};
use vstd::prelude::*;
use vstd::slice::slice_subrange;

verus! {

/// The output after appending `count` bytes, each read `offset` bytes behind
/// the end of the output as it stands when that byte is appended. With
/// `offset < count` the copy reads bytes that it wrote itself, so a short
/// pattern is repeated.
pub open spec fn copy_back(out: Seq<u8>, offset: int, count: int) -> Seq<u8>
    decreases count,
{
    if count <= 0 {
        out
    } else {
        copy_back(out.push(out[out.len() - offset]), offset, count - 1)
    }
}

/// The output after one token: its literal bytes are appended, and for a
/// copy token the copy follows. A copy that would start before the first
/// byte of the output is refused, and so is one with no distance at all.
pub open spec fn spec_apply_token(t: Token, literals: Seq<u8>, out: Seq<u8>) -> Result<
    Seq<u8>,
    FormatError,
> {
    let grown = out + literals;
    if !t.spec_is_copy() {
        Ok(grown)
    } else if t.spec_copy_offset() < 1 || t.spec_copy_offset() > grown.len() {
        Err(FormatError::OffsetOutOfRange)
    } else {
        Ok(copy_back(grown, t.spec_copy_offset() as int, t.spec_copy_length() as int))
    }
}

/// Number of bytes that the token at the front of a stream occupies, control
/// bytes and literal bytes together.
pub open spec fn token_span(t: Token) -> nat {
    t.spec_control_len() + t.spec_literal_count()
}

/// The literal bytes of the token `t` that stands at the front of `s`.
pub open spec fn token_literals(s: Seq<u8>, t: Token) -> Seq<u8> {
    s.subrange(t.spec_control_len() as int, token_span(t) as int)
}

/// Where the decoder stands: still reading tokens, or behind the terminator.
#[derive(Clone, Copy, Debug, PartialEq, Eq, Structural)]
pub enum DecodeState {
    Running,
    Done,
}

/// One step of the decoder: the token at the front of `s` and the output
/// after applying it to `out`. The step fails with `Truncated` when `s` ends
/// inside the token, and as `spec_apply_token` does.
pub open spec fn spec_decode_step(s: Seq<u8>, out: Seq<u8>) -> Result<
    (Token, Seq<u8>),
    FormatError,
> {
    match spec_parse_token(s) {
        None => Err(FormatError::Truncated),
        Some(t) => {
            if s.len() < token_span(t) {
                Err(FormatError::Truncated)
            } else {
                match spec_apply_token(t, token_literals(s, t), out) {
                    Err(e) => Err(e),
                    Ok(grown) => Ok((t, grown)),
                }
            }
        },
    }
}

/// The state the decoder is in after applying the token `t`.
pub open spec fn state_after(t: Token) -> DecodeState {
    if t is StreamEnd {
        DecodeState::Done
    } else {
        DecodeState::Running
    }
}

/// Decodes the token stream `s` onto the output `out`.
///
/// Steps are taken one after another until the terminator has been applied.
/// The result is the final output together with the number of bytes of `s`
/// that lie behind the terminator and were not read.
pub open spec fn spec_decode_tokens(s: Seq<u8>, out: Seq<u8>) -> Result<
    (Seq<u8>, nat),
    FormatError,
>
    decreases s.len(),
{
    match spec_decode_step(s, out) {
        Err(e) => Err(e),
        Ok((t, grown)) => {
            if state_after(t) is Done {
                Ok((grown, (s.len() - token_span(t)) as nat))
            } else {
                spec_decode_tokens(s.skip(token_span(t) as int), grown)
            }
        },
    }
}

/// Applies one token to the output buffer: appends `literals`, and for a
/// copy token appends the copy, byte by byte from left to right.
///
/// A copy whose offset reaches before the start of the output fails with
/// `OffsetOutOfRange` and leaves the buffer as it was.
pub fn apply_token(token: &Token, literals: &[u8], out: &mut Vec<u8>) -> (res: Result<
    (),
    FormatError,
>)
    ensures
        match spec_apply_token(*token, literals@, old(out)@) {
            Ok(grown) => res is Ok && final(out)@ == grown,
            Err(e) => res == Err::<(), FormatError>(e) && final(out)@ == old(out)@,
        },
{
    let (offset, count): (usize, usize) = match token {
        Token::ShortCopy { copy_length, copy_offset, .. } => (*copy_offset, *copy_length),
        Token::MediumCopy { copy_length, copy_offset, .. } => (*copy_offset, *copy_length),
        Token::LongCopy { copy_length, copy_offset, .. } => (*copy_offset, *copy_length),
        _ => {
            out.extend_from_slice(literals);
            return Ok(());
        },
    };
    if offset < 1 || (offset > out.len() && offset - out.len() > literals.len()) {
        return Err(FormatError::OffsetOutOfRange);
    }
    out.extend_from_slice(literals);
    let ghost grown = out@;
    let mut copied: usize = 0;
    while copied < count
        invariant
            copied <= count,
            1 <= offset <= out@.len(),
            copy_back(out@, offset as int, count - copied) == copy_back(
                grown,
                offset as int,
                count as int,
            ),
        decreases count - copied,
    {
        let byte: u8 = out[out.len() - offset];
        out.push(byte);
        copied = copied + 1;
    }
    assert(grown == old(out)@ + literals@);
    Ok(())
}

/// Takes one step of the decoder: reads the token at the front of `stream`
/// and applies it to the output buffer.
///
/// Returns the number of bytes of `stream` that the token occupies and the
/// state the decoder is in after it. On an error the buffer is left as it
/// was.
pub fn decode_step(stream: &[u8], out: &mut Vec<u8>) -> (res: Result<
    (usize, DecodeState),
    FormatError,
>)
    ensures
        match spec_decode_step(stream@, old(out)@) {
            Ok((t, grown)) => res == Ok::<(usize, DecodeState), FormatError>(
                (token_span(t) as usize, state_after(t)),
            ) && final(out)@ == grown && 1 <= token_span(t) <= stream@.len(),
            Err(e) => res == Err::<(usize, DecodeState), FormatError>(e) && final(out)@ == old(
                out,
            )@,
        },
{
    let token = match Token::parse(stream) {
        Ok(t) => t,
        Err(e) => {
            return Err(e);
        },
    };
    let control: usize = token.control_len();
    let carried: usize = token.literal_count();
    if stream.len() - control < carried {
        return Err(FormatError::Truncated);
    }
    let literals = slice_subrange(stream, control, control + carried);
    match apply_token(&token, literals, out) {
        Ok(()) => {},
        Err(e) => {
            return Err(e);
        },
    }
    match token {
        Token::StreamEnd { .. } => Ok((control + carried, DecodeState::Done)),
        _ => Ok((control + carried, DecodeState::Running)),
    }
}

/// Decodes a token stream.
///
/// Reads tokens from the front of `stream` until the terminator has been
/// applied, and returns the decoded bytes with the number of bytes of
/// `stream` that were read. Bytes behind the terminator are not looked at.
///
/// Fails with `Truncated` when `stream` ends before the terminator and with
/// `OffsetOutOfRange` when a copy reaches before the start of the output.
pub fn decode_tokens(stream: &[u8]) -> (res: Result<(Vec<u8>, usize), FormatError>)
    ensures
        match spec_decode_tokens(stream@, Seq::empty()) {
            Ok((bytes, unread)) => res matches Ok((v, consumed)) && v@ == bytes && consumed
                + unread == stream@.len(),
            Err(e) => res matches Err(err) && err == e,
        },
{
    let mut out: Vec<u8> = Vec::new();
    let mut pos: usize = 0;
    assert(stream@.skip(0) =~= stream@);
    loop
        invariant
            pos <= stream@.len(),
            spec_decode_tokens(stream@.skip(pos as int), out@) == spec_decode_tokens(
                stream@,
                Seq::empty(),
            ),
        decreases stream@.len() - pos,
    {
        let rest = slice_subrange(stream, pos, stream.len());
        assert(rest@ =~= stream@.skip(pos as int));
        match decode_step(rest, &mut out) {
            Err(e) => {
                return Err(e);
            },
            Ok((read, state)) => {
                assert(stream@.skip(pos as int).skip(read as int) =~= stream@.skip(pos + read));
                pos = pos + read;
                match state {
                    DecodeState::Done => {
                        return Ok((out, pos));
                    },
                    DecodeState::Running => {},
                }
            },
        }
    }
}

/// A copy leaves the bytes already in the output alone, appends exactly
/// `count` bytes, and each appended byte equals the byte `offset` places
/// before it.
pub proof fn lemma_copy_back_elements(out: Seq<u8>, offset: int, count: int)
    requires
        1 <= offset <= out.len(),
        0 <= count,
    ensures
        copy_back(out, offset, count).len() == out.len() + count,
        forall|j: int| 0 <= j < out.len() ==> copy_back(out, offset, count)[j] == out[j],
        forall|j: int|
            out.len() <= j < out.len() + count ==> #[trigger] copy_back(out, offset, count)[j]
                == copy_back(out, offset, count)[j - offset],
    decreases count,
{
    if count > 0 {
        let next = out.push(out[out.len() - offset]);
        lemma_copy_back_elements(next, offset, count - 1);
        let r = copy_back(out, offset, count);
        assert(r == copy_back(next, offset, count - 1));
        assert forall|j: int| 0 <= j < out.len() implies r[j] == out[j] by {
            assert(next[j] == out[j]);
        }
        assert forall|j: int| out.len() <= j < out.len() + count implies #[trigger] r[j]
            == r[j - offset] by {
            if j == out.len() {
                assert(r[j] == next[j]);
                assert(r[j - offset] == next[j - offset]);
            }
        }
    }
}

/// Decoding a stream that starts with a written token, its literals behind
/// it, applies that token and goes on with what follows.
pub proof fn lemma_decode_written_token(
    t: Token,
    literals: Seq<u8>,
    later: Seq<u8>,
    out: Seq<u8>,
)
    requires
        t.well_formed(),
        literals.len() == t.spec_literal_count(),
    ensures
        spec_decode_step(t.spec_control_bytes() + literals + later, out) == (match spec_apply_token(
            t,
            literals,
            out,
        ) {
            Err(e) => Err::<(Token, Seq<u8>), FormatError>(e),
            Ok(grown) => Ok::<(Token, Seq<u8>), FormatError>((t, grown)),
        }),
        spec_decode_tokens(t.spec_control_bytes() + literals + later, out) == (match spec_apply_token(
            t,
            literals,
            out,
        ) {
            Err(e) => Err::<(Seq<u8>, nat), FormatError>(e),
            Ok(grown) => if t is StreamEnd {
                Ok::<(Seq<u8>, nat), FormatError>((grown, later.len()))
            } else {
                spec_decode_tokens(later, grown)
            },
        }),
{
    let stream = t.spec_control_bytes() + literals + later;
    assert(stream =~= t.spec_control_bytes() + (literals + later));
    lemma_parse_control_bytes(t, literals + later);
    assert(token_literals(stream, t) =~= literals);
    assert(stream.skip(token_span(t) as int) =~= later);
}

/// Bytes behind the terminator are ignored: appending anything to a stream
/// that decodes changes neither the decoded bytes nor how much of the stream
/// is read, so all of the appended bytes are left unread.
pub proof fn lemma_trailing_bytes_ignored(s: Seq<u8>, extra: Seq<u8>, out: Seq<u8>)
    requires
        spec_decode_tokens(s, out) is Ok,
    ensures
        spec_decode_tokens(s + extra, out) == Ok::<(Seq<u8>, nat), FormatError>(
            (
                spec_decode_tokens(s, out)->Ok_0.0,
                spec_decode_tokens(s, out)->Ok_0.1 + extra.len(),
            ),
        ),
    decreases s.len(),
{
    let t = spec_parse_token(s)->Some_0;
    let w = s + extra;
    assert(w[0] == s[0]);
    assert(spec_parse_token(w) == Some(t)) by {
        if s.len() > 1 {
            assert(w[1] == s[1]);
        }
        if s.len() > 2 {
            assert(w[2] == s[2]);
        }
        if s.len() > 3 {
            assert(w[3] == s[3]);
        }
    }
    assert(token_literals(w, t) =~= token_literals(s, t));
    if !(t is StreamEnd) {
        let grown = spec_apply_token(t, token_literals(s, t), out)->Ok_0;
        assert(w.skip(token_span(t) as int) =~= s.skip(token_span(t) as int) + extra);
        lemma_trailing_bytes_ignored(s.skip(token_span(t) as int), extra, grown);
    }
}

/// The decoder's position after `n` steps: what is left of the stream and
/// the output built so far, or `None` when the decoder has stopped before,
/// at the terminator or at an error.
pub open spec fn spec_decode_progress(s: Seq<u8>, out: Seq<u8>, n: nat) -> Option<
    (Seq<u8>, Seq<u8>),
>
    decreases n,
{
    if n == 0 {
        Some((s, out))
    } else {
        match spec_decode_progress(s, out, (n - 1) as nat) {
            None => None,
            Some((rest, buffer)) => match spec_decode_step(rest, buffer) {
                Err(_) => None,
                Ok((t, grown)) => {
                    if state_after(t) is Done {
                        None
                    } else {
                        Some((rest.skip(token_span(t) as int), grown))
                    }
                },
            },
        }
    }
}

/// Decoding from any position the decoder passes through gives the result
/// of decoding from the start.
pub proof fn lemma_decode_from_progress(s: Seq<u8>, out: Seq<u8>, n: nat)
    requires
        spec_decode_progress(s, out, n) is Some,
    ensures
        spec_decode_tokens(
            spec_decode_progress(s, out, n)->Some_0.0,
            spec_decode_progress(s, out, n)->Some_0.1,
        ) == spec_decode_tokens(s, out),
    decreases n,
{
    if n > 0 {
        lemma_decode_from_progress(s, out, (n - 1) as nat);
    }
}

/// No copy reaches before the start of the output. Wherever the decoder
/// stands in a stream that decodes, the next token is complete, and if it is
/// a copy token, its offset is at most the length of the output at the point
/// of the copy (the literal prefix included). And wherever the decoder
/// stands, a complete copy token with a larger offset makes the whole decode
/// fail with `OffsetOutOfRange`.
pub proof fn lemma_copy_offsets_in_range(s: Seq<u8>, out: Seq<u8>, n: nat)
    requires
        spec_decode_progress(s, out, n) is Some,
    ensures
        ({
            let (rest, buffer) = spec_decode_progress(s, out, n)->Some_0;
            &&& spec_decode_tokens(s, out) is Ok ==> {
                &&& spec_parse_token(rest) matches Some(t)
                &&& rest.len() >= token_span(t)
                &&& t.spec_is_copy() ==> 1 <= t.spec_copy_offset() <= buffer.len()
                    + t.spec_literal_count()
            }
            &&& spec_parse_token(rest) matches Some(t) ==> {
                t.spec_is_copy() && rest.len() >= token_span(t) && t.spec_copy_offset()
                    > buffer.len() + t.spec_literal_count() ==> spec_decode_tokens(s, out) == Err::<
                    (Seq<u8>, nat),
                    FormatError,
                >(FormatError::OffsetOutOfRange)
            }
        }),
{
    lemma_decode_from_progress(s, out, n);
}

} // verus!
