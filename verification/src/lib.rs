//! RefPack: a byte-oriented LZ77-family codec for game-asset archives.
//!
//! A stream is a short header carrying the uncompressed length, followed by
//! literal-run and back-copy tokens, and closed by a terminator token. The
//! codec is a pair of pure functions on byte buffers; any outer container
//! framing is left to the caller.

pub mod decoder;
pub mod encoder;
pub mod error;
pub mod header;
pub mod token;
pub mod window;

use crate::decoder::{decode_tokens, lemma_trailing_bytes_ignored, spec_decode_tokens};
use crate::encoder::{
    encode_tokens, lemma_encode_from_decodes, lemma_encode_from_len, spec_encode_tokens,
};
use crate::error::FormatError;
use crate::header::{
    lemma_write_header_narrowest, parse_header, spec_parse_header, spec_write_header, write_header,
};
use vstd::prelude::*;
use vstd::slice::slice_subrange;

verus! {

/// The stream that [`refpack_compress`] produces for the bytes `b`: the
/// header with the length of `b`, then the token stream that encodes `b`.
pub open spec fn spec_compress(b: Seq<u8>) -> Seq<u8> {
    spec_write_header(b.len() as u32) + spec_encode_tokens(b)
}

/// What [`refpack_decompress`] makes of the buffer `s`: the bytes that the
/// stream at the front of `s` decodes to, or the reason it is refused.
pub open spec fn spec_decompress(s: Seq<u8>) -> Result<Seq<u8>, FormatError> {
    match spec_parse_header(s) {
        Err(e) => Err(e),
        Ok((declared, header_len)) => match spec_decode_tokens(
            s.skip(header_len as int),
            Seq::empty(),
        ) {
            Err(e) => Err(e),
            Ok((bytes, _)) => if bytes.len() == declared {
                Ok(bytes)
            } else {
                Err(FormatError::LengthMismatch)
            },
        },
    }
}

/// Compresses `input` into a complete stream: header, tokens, terminator.
///
/// The stream is the one canonical encoding of `input`, and it decodes back
/// to exactly `input`. The buffer is only read and is left as it was. The
/// length field of the header holds at most 32 bits, which bounds the inputs
/// that a stream can describe.
pub fn refpack_compress(input: &mut [u8]) -> (out: Vec<u8>)
    requires
        old(input)@.len() <= u32::MAX,
    ensures
        final(input)@ == old(input)@,
        out@ == spec_compress(old(input)@),
        spec_decompress(out@) == Ok::<Seq<u8>, FormatError>(old(input)@),
        out@.len() <= old(input)@.len() + old(input)@.len() / 112 + 8,
{
    let mut out = write_header(input.len() as u32);
    encode_tokens(input, &mut out);
    proof {
        lemma_round_trip(input@);
        lemma_compressed_len(input@);
    }
    out
}

/// Decompresses the stream at the front of `input`.
///
/// Decoding stops at the terminator; bytes behind it are ignored. Fails
/// with `BadSignature` or `Truncated` on a bad header, with `Truncated` or
/// `OffsetOutOfRange` on a bad token stream, and with `LengthMismatch` when
/// the decoded byte count differs from the length the header declares. The
/// buffer is only read and is left as it was.
pub fn refpack_decompress(input: &mut [u8]) -> (res: Result<Vec<u8>, FormatError>)
    ensures
        final(input)@ == old(input)@,
        match spec_decompress(old(input)@) {
            Ok(bytes) => res matches Ok(v) && v@ == bytes,
            Err(e) => res matches Err(err) && err == e,
        },
{
    let (declared, header_len) = match parse_header(input) {
        Ok(parsed) => parsed,
        Err(e) => {
            return Err(e);
        },
    };
    let stream = slice_subrange(input, header_len, input.len());
    assert(stream@ =~= input@.skip(header_len as int));
    match decode_tokens(stream) {
        Err(e) => Err(e),
        Ok((bytes, _)) => {
            if bytes.len() == declared as usize {
                Ok(bytes)
            } else {
                Err(FormatError::LengthMismatch)
            }
        },
    }
}

/// Round trip: compressing any bytes and decompressing the result gives the
/// bytes back, also when other bytes follow the compressed stream.
pub proof fn lemma_round_trip_framed(b: Seq<u8>, behind: Seq<u8>)
    requires
        b.len() <= u32::MAX,
    ensures
        spec_decompress(spec_compress(b) + behind) == Ok::<Seq<u8>, FormatError>(b),
{
    let header = spec_write_header(b.len() as u32);
    let tokens = spec_encode_tokens(b);
    let whole = spec_compress(b) + behind;
    assert(whole =~= header + (tokens + behind));
    lemma_write_header_narrowest(b.len() as u32, tokens + behind);
    assert(whole.skip(header.len() as int) =~= tokens + behind);
    lemma_encode_from_decodes(b, 0, 0, behind);
    assert(b.take(0) =~= Seq::<u8>::empty());
}

/// Round trip: compressing any bytes and decompressing the result gives the
/// bytes back.
pub proof fn lemma_round_trip(b: Seq<u8>)
    requires
        b.len() <= u32::MAX,
    ensures
        spec_decompress(spec_compress(b)) == Ok::<Seq<u8>, FormatError>(b),
{
    lemma_round_trip_framed(b, Seq::empty());
    assert(spec_compress(b) + Seq::<u8>::empty() =~= spec_compress(b));
}

/// Whatever follows a stream that decompresses is ignored.
pub proof fn lemma_decompress_ignores_trailing(s: Seq<u8>, extra: Seq<u8>)
    requires
        spec_decompress(s) is Ok,
    ensures
        spec_decompress(s + extra) == spec_decompress(s),
{
    let (declared, header_len) = spec_parse_header(s)->Ok_0;
    let w = s + extra;
    assert(w[0] == s[0] && w[1] == s[1] && w[2] == s[2] && w[3] == s[3] && w[4] == s[4]);
    if header_len == 6 {
        assert(w[5] == s[5]);
    }
    assert(spec_parse_header(w) == spec_parse_header(s));
    assert(w.skip(header_len as int) =~= s.skip(header_len as int) + extra);
    lemma_trailing_bytes_ignored(s.skip(header_len as int), extra, Seq::empty());
}

/// Compression never makes the data much longer: beyond the input's own
/// length the stream holds at most one byte for every 112 input bytes, and
/// eight bytes for the header, the terminator and the last literal run.
pub proof fn lemma_compressed_len(b: Seq<u8>)
    ensures
        spec_compress(b).len() <= b.len() + b.len() / 112 + 8,
{
    lemma_encode_from_len(b, 0, 0);
}

} // verus!
