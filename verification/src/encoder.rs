//! The encoder: walks the input once, replaces each repeated stretch by a
//! copy token, and packs the bytes in between as literals.
//!
//! At every position the best match of the encode window is taken if some
//! copy form can express it; otherwise the byte at the position becomes a
//! literal. Up to three pending literals ride along with the next copy
//! token or with the terminator; the rest is written before it as literal
//! runs.

use crate::decoder::{
    copy_back, lemma_copy_offsets_in_range, lemma_decode_written_token, spec_decode_progress,
    spec_decode_tokens, token_span,
};
use crate::error::FormatError;
use crate::token::{spec_parse_token, spec_select_copy, Token, RUN_MAX_LENGTH, RUN_MIN_LENGTH};
use crate::window::{lemma_best_match_sound, spec_best_match, EncodeWindow};
use vstd::prelude::*;
use vstd::slice::slice_subrange;

verus! {

/// Length of the next literal run when `pending` literals, at least
/// `RUN_MIN_LENGTH`, wait to be written: as many as one run can hold, and
/// otherwise all of them but the last `pending % 4`.
pub open spec fn run_chunk(pending: int) -> int {
    if pending >= RUN_MAX_LENGTH {
        RUN_MAX_LENGTH as int
    } else {
        pending - pending % 4
    }
}

/// The literal runs that write out all of `literals` but the last
/// `literals.len() % 4` bytes.
pub open spec fn spec_literal_runs(literals: Seq<u8>) -> Seq<u8>
    decreases literals.len(),
{
    if literals.len() < RUN_MIN_LENGTH {
        Seq::empty()
    } else {
        let chunk = run_chunk(literals.len() as int);
        Token::LiteralRun { length: chunk as usize }.spec_control_bytes() + literals.take(chunk)
            + spec_literal_runs(literals.skip(chunk))
    }
}

/// Number of pending literals that are carried by the next copy token or
/// by the terminator instead of being written as a literal run.
pub open spec fn carry_count(literal_start: int, i: int) -> int {
    (i - literal_start) % 4
}

/// The copy token written at position `i` when the literals since
/// `literal_start` are pending, or `None` when the byte at `i` becomes a
/// literal.
pub open spec fn spec_next_copy(s: Seq<u8>, literal_start: int, i: int) -> Option<Token> {
    match spec_best_match(s, i) {
        Some(m) => spec_select_copy(carry_count(literal_start, i) as usize, m.length, m.offset),
        None => None,
    }
}

/// The token stream for what is left of `s` when the cursor stands at `i`
/// and the bytes from `literal_start` up to `i` are pending literals.
pub open spec fn spec_encode_from(s: Seq<u8>, literal_start: int, i: int) -> Seq<u8>
    decreases s.len() - i,
    via encode_from_decreases
{
    let pending = s.subrange(literal_start, i);
    let carry = carry_count(literal_start, i);
    let carried = s.subrange(i - carry, i);
    if i >= s.len() {
        spec_literal_runs(pending) + Token::StreamEnd {
            trailing_literal_count: carry as usize,
        }.spec_control_bytes() + carried
    } else {
        match spec_next_copy(s, literal_start, i) {
            Some(t) => spec_literal_runs(pending) + t.spec_control_bytes() + carried
                + spec_encode_from(s, i + t.spec_copy_length(), i + t.spec_copy_length()),
            None => spec_encode_from(s, literal_start, i + 1),
        }
    }
}

#[via_fn]
proof fn encode_from_decreases(s: Seq<u8>, literal_start: int, i: int) {
    if i < s.len() && spec_next_copy(s, literal_start, i) is Some {
        if i >= 0 {
            lemma_best_match_sound(s, i);
        }
    }
}

/// The token stream that encodes `s`.
pub open spec fn spec_encode_tokens(s: Seq<u8>) -> Seq<u8> {
    spec_encode_from(s, 0, 0)
}

/// Writes `literals` as literal runs, all but the last
/// `literals.len() % 4` of them.
pub fn write_literal_runs(literals: &[u8], out: &mut Vec<u8>)
    ensures
        final(out)@ == old(out)@ + spec_literal_runs(literals@),
{
    let ghost all = literals@;
    let total: usize = literals.len();
    let mut start: usize = 0;
    assert(all.skip(0) =~= all);
    while total - start >= RUN_MIN_LENGTH
        invariant
            start <= total == all.len(),
            all == literals@,
            out@ + spec_literal_runs(all.skip(start as int)) == old(out)@ + spec_literal_runs(all),
        decreases total - start,
    {
        let pending: usize = total - start;
        let chunk: usize = if pending >= RUN_MAX_LENGTH {
            RUN_MAX_LENGTH
        } else {
            pending - pending % 4
        };
        let token = Token::LiteralRun { length: chunk };
        let ghost before = out@;
        let ghost waiting = all.skip(start as int);
        token.write(slice_subrange(literals, start, start + chunk), out);
        proof {
            assert(waiting.take(chunk as int) =~= all.subrange(start as int, start + chunk));
            assert(waiting.skip(chunk as int) =~= all.skip(start + chunk));
            assert(out@ + spec_literal_runs(waiting.skip(chunk as int)) =~= before
                + spec_literal_runs(waiting));
        }
        start = start + chunk;
    }
}

/// Appends to `out` the token stream that encodes `input`.
pub fn encode_tokens(input: &[u8], out: &mut Vec<u8>)
    ensures
        final(out)@ == old(out)@ + spec_encode_tokens(input@),
{
    let ghost s = input@;
    let total: usize = input.len();
    let mut window = EncodeWindow::new(input);
    let mut literal_start: usize = 0;
    while window.cursor() < total
        invariant
            window.well_formed(),
            window.spec_input() == s,
            s == input@,
            total == s.len(),
            literal_start <= window.spec_cursor() <= total,
            out@ + spec_encode_from(s, literal_start as int, window.spec_cursor()) == old(out)@
                + spec_encode_tokens(s),
        decreases total - window.spec_cursor(),
    {
        let i: usize = window.cursor();
        let carry: usize = (i - literal_start) % 4;
        let found = window.find_match();
        let chosen: Option<Token> = match found {
            Some(m) => Token::select_copy(carry, m.length, m.offset),
            None => None,
        };
        match chosen {
            Some(token) => {
                let length: usize = found.unwrap().length;
                let ghost before = out@;
                proof {
                    lemma_best_match_sound(s, i as int);
                }
                write_literal_runs(slice_subrange(input, literal_start, i), out);
                token.write(slice_subrange(input, i - carry, i), out);
                proof {
                    assert(out@ + spec_encode_from(s, i + length, i + length) =~= before
                        + spec_encode_from(s, literal_start as int, i as int));
                }
                let mut moved: usize = 0;
                while moved < length
                    invariant
                        window.well_formed(),
                        window.spec_input() == s,
                        window.spec_cursor() == i + moved,
                        moved <= length,
                        i + length <= s.len(),
                    decreases length - moved,
                {
                    window.advance();
                    moved = moved + 1;
                }
                literal_start = i + length;
            },
            None => {
                window.advance();
            },
        }
    }
    let carry: usize = (total - literal_start) % 4;
    let ghost before = out@;
    write_literal_runs(slice_subrange(input, literal_start, total), out);
    let end = Token::StreamEnd { trailing_literal_count: carry };
    end.write(slice_subrange(input, total - carry, total), out);
    proof {
        assert(out@ =~= before + spec_encode_from(s, literal_start as int, total as int));
    }
}

/// A copy whose source equals the bytes that follow in `s` extends a prefix
/// of `s` to a longer prefix of `s`.
pub proof fn lemma_copy_back_match(s: Seq<u8>, i: int, offset: int, count: int)
    requires
        1 <= offset <= i,
        0 <= count,
        i + count <= s.len(),
        forall|k: int| 0 <= k < count ==> s[i - offset + k] == #[trigger] s[i + k],
    ensures
        copy_back(s.take(i), offset, count) == s.take(i + count),
    decreases count,
{
    if count > 0 {
        let next = s.take(i).push(s.take(i)[i - offset]);
        assert(s[i - offset + 0] == s[i + 0]);
        assert(next =~= s.take(i + 1));
        assert forall|k: int| 0 <= k < count - 1 implies s[i + 1 - offset + k] == #[trigger] s[i
            + 1 + k] by {
            assert(s[i - offset + (k + 1)] == s[i + (k + 1)]);
        }
        lemma_copy_back_match(s, i + 1, offset, count - 1);
    } else {
        assert(s.take(i + count) =~= s.take(i));
    }
}

/// The first of the literal runs written for `literals`, taken apart: its
/// token, the literals it holds, and the literals left for the later runs.
proof fn lemma_first_literal_run(literals: Seq<u8>, rest: Seq<u8>, out: Seq<u8>)
    requires
        literals.len() >= RUN_MIN_LENGTH,
    ensures
        ({
            let chunk = run_chunk(literals.len() as int);
            let t = Token::LiteralRun { length: chunk as usize };
            let head = literals.take(chunk);
            let later = literals.skip(chunk);
            &&& t.well_formed()
            &&& head.len() == t.spec_literal_count()
            &&& later.len() < literals.len()
            &&& spec_literal_runs(literals) + rest == t.spec_control_bytes() + head + (
            spec_literal_runs(later) + rest)
            &&& (out + head) + later.take(later.len() - later.len() % 4) == out + literals.take(
                literals.len() - literals.len() % 4,
            )
        }),
{
    let chunk = run_chunk(literals.len() as int);
    let t = Token::LiteralRun { length: chunk as usize };
    let head = literals.take(chunk);
    let later = literals.skip(chunk);
    let kept = literals.len() - literals.len() % 4;
    assert(chunk % 4 == 0 && 4 <= chunk <= 112 && chunk <= literals.len());
    assert(later.len() - later.len() % 4 == kept - chunk);
    assert(spec_literal_runs(literals) + rest =~= t.spec_control_bytes() + head + (
    spec_literal_runs(later) + rest));
    assert((out + head) + later.take(kept - chunk) =~= out + literals.take(kept));
}

/// Literal runs decode to the literals they were written from.
pub proof fn lemma_literal_runs_decode(literals: Seq<u8>, rest: Seq<u8>, out: Seq<u8>)
    ensures
        spec_decode_tokens(spec_literal_runs(literals) + rest, out) == spec_decode_tokens(
            rest,
            out + literals.take(literals.len() - literals.len() % 4),
        ),
    decreases literals.len(),
{
    if literals.len() < RUN_MIN_LENGTH {
        assert(spec_literal_runs(literals) + rest =~= rest);
        assert(out + literals.take(literals.len() - literals.len() % 4) =~= out);
    } else {
        let chunk = run_chunk(literals.len() as int);
        let t = Token::LiteralRun { length: chunk as usize };
        let head = literals.take(chunk);
        let later = literals.skip(chunk);
        lemma_first_literal_run(literals, rest, out);
        lemma_decode_written_token(t, head, spec_literal_runs(later) + rest, out);
        lemma_literal_runs_decode(later, rest, out + head);
    }
}

/// The output at a copy token or at the terminator: the literal runs have
/// written all pending literals but the carried ones, which the token adds.
proof fn lemma_pending_split(s: Seq<u8>, literal_start: int, i: int)
    requires
        0 <= literal_start <= i <= s.len(),
    ensures
        ({
            let pending = s.subrange(literal_start, i);
            let carry = carry_count(literal_start, i);
            &&& 0 <= carry <= 3
            &&& carry <= i - literal_start
            &&& s.take(literal_start) + pending.take(pending.len() - pending.len() % 4) == s.take(
                i - carry,
            )
            &&& s.take(i - carry) + s.subrange(i - carry, i) == s.take(i)
        }),
{
    let pending = s.subrange(literal_start, i);
    let carry = carry_count(literal_start, i);
    assert(s.take(literal_start) + pending.take(pending.len() - pending.len() % 4) =~= s.take(
        i - carry,
    ));
    assert(s.take(i - carry) + s.subrange(i - carry, i) =~= s.take(i));
}

/// Regrouping of a stream that ends with a token.
proof fn lemma_regroup_last(runs: Seq<u8>, control: Seq<u8>, carried: Seq<u8>, behind: Seq<u8>)
    ensures
        (runs + control + carried) + behind == runs + (control + carried + behind),
{
    assert((runs + control + carried) + behind =~= runs + (control + carried + behind));
}

/// Regrouping of a stream that goes on behind a token.
proof fn lemma_regroup_next(
    runs: Seq<u8>,
    control: Seq<u8>,
    carried: Seq<u8>,
    later: Seq<u8>,
    behind: Seq<u8>,
)
    ensures
        (runs + control + carried + later) + behind == runs + (control + carried + (later
            + behind)),
{
    assert((runs + control + carried + later) + behind =~= runs + (control + carried + (later
        + behind)));
}

/// What the encoder writes from any of its positions decodes to the whole
/// input, given the input before the pending literals as the output so far;
/// bytes that follow the stream are left unread.
pub proof fn lemma_encode_from_decodes(s: Seq<u8>, literal_start: int, i: int, behind: Seq<u8>)
    requires
        0 <= literal_start <= i <= s.len(),
    ensures
        spec_decode_tokens(
            spec_encode_from(s, literal_start, i) + behind,
            s.take(literal_start),
        ) == Ok::<(Seq<u8>, nat), FormatError>((s, behind.len())),
    decreases s.len() - i,
{
    let pending = s.subrange(literal_start, i);
    let carry = carry_count(literal_start, i);
    let carried = s.subrange(i - carry, i);
    let runs = spec_literal_runs(pending);
    let flushed = s.take(i - carry);
    lemma_pending_split(s, literal_start, i);
    if i >= s.len() {
        let t = Token::StreamEnd { trailing_literal_count: carry as usize };
        let control = t.spec_control_bytes();
        lemma_regroup_last(runs, control, carried, behind);
        lemma_literal_runs_decode(pending, control + carried + behind, s.take(literal_start));
        lemma_decode_written_token(t, carried, behind, flushed);
        assert(s.take(i) =~= s);
    } else {
        match spec_next_copy(s, literal_start, i) {
            Some(t) => {
                lemma_best_match_sound(s, i);
                let m = spec_best_match(s, i)->Some_0;
                let next = i + m.length;
                let control = t.spec_control_bytes();
                let later = spec_encode_from(s, next, next);
                lemma_regroup_next(runs, control, carried, later, behind);
                lemma_literal_runs_decode(
                    pending,
                    control + carried + (later + behind),
                    s.take(literal_start),
                );
                lemma_decode_written_token(t, carried, later + behind, flushed);
                lemma_copy_back_match(s, i, m.offset as int, m.length as int);
                lemma_encode_from_decodes(s, next, next, behind);
            },
            None => {
                lemma_encode_from_decodes(s, literal_start, i + 1, behind);
            },
        }
    }
}

/// The encoder never writes a copy that reaches outside the output already
/// produced: wherever the decoder stands in an encoded stream, the next
/// token is complete, and if it is a copy token, its offset is at most the
/// length of the output at the point of the copy.
pub proof fn lemma_encoded_offsets_in_range(b: Seq<u8>, n: nat)
    requires
        spec_decode_progress(spec_encode_tokens(b), Seq::empty(), n) is Some,
    ensures
        ({
            let (rest, buffer) = spec_decode_progress(
                spec_encode_tokens(b),
                Seq::empty(),
                n,
            )->Some_0;
            &&& spec_parse_token(rest) matches Some(t)
            &&& rest.len() >= token_span(t)
            &&& t.spec_is_copy() ==> 1 <= t.spec_copy_offset() <= buffer.len()
                + t.spec_literal_count()
        }),
{
    lemma_encode_from_decodes(b, 0, 0, Seq::empty());
    assert(spec_encode_tokens(b) + Seq::<u8>::empty() =~= spec_encode_tokens(b));
    assert(b.take(0) =~= Seq::<u8>::empty());
    lemma_copy_offsets_in_range(spec_encode_tokens(b), Seq::empty(), n);
}

/// Literal runs spend one control byte on every 112 literals they hold, or
/// part of 112.
pub proof fn lemma_literal_runs_len(literals: Seq<u8>)
    ensures
        literals.len() < RUN_MIN_LENGTH ==> spec_literal_runs(literals).len() == 0,
        112 * spec_literal_runs(literals).len() <= 113 * (literals.len() - literals.len() % 4)
            + 111,
    decreases literals.len(),
{
    if literals.len() >= RUN_MIN_LENGTH {
        let chunk = run_chunk(literals.len() as int);
        lemma_literal_runs_len(literals.skip(chunk));
        assert(spec_literal_runs(literals).len() == 1 + chunk + spec_literal_runs(
            literals.skip(chunk),
        ).len());
    }
}

/// The token stream is never much longer than the input it encodes: a copy
/// token is shorter than the bytes it copies, and literals cost one control
/// byte per run.
pub proof fn lemma_encode_from_len(s: Seq<u8>, literal_start: int, i: int)
    requires
        0 <= literal_start <= i <= s.len(),
    ensures
        112 * spec_encode_from(s, literal_start, i).len() <= 113 * (s.len() - literal_start)
            + 224,
    decreases s.len() - i,
{
    let pending = s.subrange(literal_start, i);
    lemma_literal_runs_len(pending);
    if i < s.len() {
        match spec_next_copy(s, literal_start, i) {
            Some(t) => {
                lemma_best_match_sound(s, i);
                let next = i + spec_best_match(s, i)->Some_0.length;
                assert(t.spec_control_bytes().len() < t.spec_copy_length());
                lemma_encode_from_len(s, next, next);
            },
            None => {
                lemma_encode_from_len(s, literal_start, i + 1);
            },
        }
    }
}

} // verus!
