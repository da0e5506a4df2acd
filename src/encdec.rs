//! Whole-buffer encoding, decoding and validation, reporting errors as
//! `ParserError`.
use vstd::prelude::*;

use crate::internal::{
    decode_chunk, decode_chunk_unchecked, decode_tail, decode_tail_unchecked, encode_chunk,
    encode_tail, validate_chunk,
};
use crate::model::{
    check_groups, decode_groups, decode_groups_wrapping, decode_padded_spec,
    decode_padded_wrapping, decode_strict_spec, decode_strict_wrapping, encode_groups,
    encode_padded_spec, encode_strict_spec, error_position_below, has_tail,
    lemma_check_error_persists, lemma_decode_error_persists, lemma_decode_prefix,
    lemma_encode_prefix, lemma_group_error_position, lemma_groups_error_kind, seq_result,
    shift_error, text_group, validate_padded_spec, validate_strict_spec, SENTINEL,
};
use crate::DecodeError;

verus! {

/// Errors of decoding or validating Z85 data.
#[derive(Debug, Clone, Copy, PartialEq, Eq, Structural)]
pub enum ParserError {
    /// The input length is not a multiple of five.
    InvalidInputSize(usize),
    /// A byte outside the alphabet, at its absolute offset.
    InvalidByte(usize, u8),
    /// A group that no encoder emits, at the offset of the group.
    InvalidChunk(usize),
}

/// A decoding error as a `ParserError`; a malformed tail group is reported as
/// an invalid group at `tail_at`.
pub open spec fn parser_error(e: DecodeError, tail_at: int) -> ParserError {
    match e {
        DecodeError::InvalidLength(n) => ParserError::InvalidInputSize(n),
        DecodeError::InvalidByte(p, c) => ParserError::InvalidByte(p, c),
        DecodeError::InvalidChunk(p) => ParserError::InvalidChunk(p),
        DecodeError::InvalidTail => ParserError::InvalidChunk(tail_at as usize),
    }
}

/// A decoding result with its error as a `ParserError`.
pub open spec fn to_parser<T>(r: Result<T, DecodeError>, tail_at: int) -> Result<T, ParserError> {
    match r {
        Ok(v) => Ok(v),
        Err(e) => Err(parser_error(e, tail_at)),
    }
}

/// The error of the group that starts at `start`, at its absolute position.
fn rebase(e: DecodeError, start: usize) -> (r: ParserError)
    requires
        error_position_below(e, 5),
        start + 5 <= usize::MAX,
    ensures
        r == parser_error(shift_error(e, start as int), start as int),
{
    match e {
        DecodeError::InvalidByte(pos, l) => ParserError::InvalidByte(start + pos, l),
        DecodeError::InvalidChunk(pos) => ParserError::InvalidChunk(start + pos),
        DecodeError::InvalidLength(n) => ParserError::InvalidInputSize(n),
        DecodeError::InvalidTail => ParserError::InvalidChunk(start),
    }
}

/// Encodes every 4-byte group of `input` as 5 characters.
pub fn encode_z85_unchecked(input: &[u8]) -> (r: Vec<u8>)
    requires
        input@.len() % 4 == 0,
    ensures
        r@ == encode_strict_spec(input@),
{
    let mut out: Vec<u8> = Vec::new();
    let length = input.len();
    let n = length / 4;
    let mut c: usize = 0;
    while c < n
        invariant
            length == input@.len(),
            n == length / 4,
            n * 4 <= length,
            c <= n,
            out@ == encode_groups(input@, c as int),
        decreases n - c,
    {
        assert(c * 4 + 4 <= length) by (nonlinear_arith)
            requires
                c + 1 <= n,
                n * 4 <= length,
        ;
        let start = c * 4;
        let z85_chunk = encode_chunk(&input[start..start + 4]);
        out.extend_from_slice(z85_chunk.as_slice());
        c += 1;
        assert(out@ =~= encode_groups(input@, c as int));
    }
    out
}

/// Encodes `input` of any length: the aligned groups as in the strict scheme,
/// then the 1 to 3 trailing bytes, if any, as a tail group.
pub fn encode_z85_padded(input: &[u8]) -> (r: Vec<u8>)
    ensures
        r@ == encode_padded_spec(input@),
{
    let length = input.len();
    let tail_size = length % 4;
    let has_tail = tail_size != 0;
    let chunked_size = length - tail_size;
    let mut out = encode_z85_unchecked(&input[0..chunked_size]);
    proof {
        lemma_encode_prefix(input@, chunked_size as int, (length / 4) as int);
        assert(input@.subrange(0, chunked_size as int).len() / 4 == length / 4);
    }
    if has_tail {
        let tail = &input[chunked_size..length];
        let z85_tail = encode_tail(tail);
        out.extend_from_slice(z85_tail.as_slice());
    }
    assert(out@ =~= encode_padded_spec(input@));
    out
}

/// Checks that `input` is strict Z85 data, as `decode_z85` would.
pub fn validate_z85(input: &[u8]) -> (r: Result<(), ParserError>)
    ensures
        r == to_parser(validate_strict_spec(input@), 0),
{
    let length = input.len();
    if length % 5 != 0 {
        return Err(ParserError::InvalidInputSize(length));
    }
    let n = length / 5;
    let mut c: usize = 0;
    while c < n
        invariant
            length == input@.len(),
            length % 5 == 0,
            n == length / 5,
            n * 5 <= length,
            c <= n,
            check_groups(input@, c as int) == Ok::<(), DecodeError>(()),
        decreases n - c,
    {
        assert(c * 5 + 5 <= length) by (nonlinear_arith)
            requires
                c + 1 <= n,
                n * 5 <= length,
        ;
        let start = c * 5;
        let chunk = &input[start..start + 5];
        proof {
            assert(chunk@ == text_group(input@, c as int));
            lemma_group_error_position(chunk@);
        }
        if let Err(e) = validate_chunk(chunk) {
            proof {
                assert(check_groups(input@, c + 1) == Err::<(), DecodeError>(
                    shift_error(e, start as int),
                ));
                lemma_check_error_persists(input@, c + 1, n as int);
            }
            return Err(rebase(e, start));
        }
        c += 1;
    }
    Ok(())
}

/// Checks that `input` is padded Z85 data, as `decode_z85_padded` would.
pub fn validate_z85_padded(input: &[u8]) -> (r: Result<(), ParserError>)
    ensures
        r == to_parser(validate_padded_spec(input@), input@.len() - 5),
{
    let length = input.len();
    if length % 5 != 0 {
        return Err(ParserError::InvalidInputSize(length));
    }
    let has_tail = length >= 5 && input[length - 5] == SENTINEL;
    let chunked_size = if has_tail { length - 5 } else { length };
    let checked = validate_z85(&input[0..chunked_size]);
    proof {
        lemma_decode_prefix(input@, chunked_size as int, (chunked_size / 5) as int);
        lemma_groups_error_kind(input@, (chunked_size / 5) as int);
        assert(input@.subrange(0, chunked_size as int).len() == chunked_size);
    }
    if let Err(e) = checked {
        return Err(e);
    }
    if has_tail {
        let last = &input[chunked_size..length];
        proof {
            assert(last@ == text_group(input@, (chunked_size / 5) as int));
            lemma_group_error_position(last@);
        }
        if let Err(e) = decode_tail(last) {
            return Err(rebase(e, chunked_size));
        }
    }
    Ok(())
}

/// Decodes strict Z85 data, stopping at the first error.
pub fn decode_z85(input: &[u8]) -> (r: Result<Vec<u8>, ParserError>)
    ensures
        seq_result(r) == to_parser(decode_strict_spec(input@), 0),
{
    let length = input.len();
    if length % 5 != 0 {
        return Err(ParserError::InvalidInputSize(length));
    }
    let n = length / 5;
    let mut out: Vec<u8> = Vec::new();
    let mut c: usize = 0;
    while c < n
        invariant
            length == input@.len(),
            length % 5 == 0,
            n == length / 5,
            n * 5 <= length,
            c <= n,
            decode_groups(input@, c as int) == Ok::<Seq<u8>, DecodeError>(out@),
        decreases n - c,
    {
        assert(c * 5 + 5 <= length) by (nonlinear_arith)
            requires
                c + 1 <= n,
                n * 5 <= length,
        ;
        let start = c * 5;
        let chunk = &input[start..start + 5];
        proof {
            assert(chunk@ == text_group(input@, c as int));
            lemma_group_error_position(chunk@);
        }
        match decode_chunk(chunk) {
            Err(e) => {
                proof {
                    assert(decode_groups(input@, c + 1) == Err::<Seq<u8>, DecodeError>(
                        shift_error(e, start as int),
                    ));
                    lemma_decode_error_persists(input@, c + 1, n as int);
                }
                return Err(rebase(e, start));
            },
            Ok(binchunk) => {
                let ghost prefix = out@;
                out.extend_from_slice(binchunk.as_slice());
                assert(out@ =~= prefix + binchunk@);
            },
        }
        c += 1;
    }
    Ok(out)
}

/// Decodes padded Z85 data: a last group that starts with the sentinel is a
/// tail group, the groups before it are decoded as in `decode_z85`.
pub fn decode_z85_padded(input: &[u8]) -> (r: Result<Vec<u8>, ParserError>)
    ensures
        seq_result(r) == to_parser(decode_padded_spec(input@), input@.len() - 5),
{
    let length = input.len();
    if length % 5 != 0 {
        return Err(ParserError::InvalidInputSize(length));
    }
    let has_tail = length >= 5 && input[length - 5] == SENTINEL;
    let chunked_size = if has_tail { length - 5 } else { length };
    let decoded = decode_z85(&input[0..chunked_size]);
    proof {
        lemma_decode_prefix(input@, chunked_size as int, (chunked_size / 5) as int);
        lemma_groups_error_kind(input@, (chunked_size / 5) as int);
        assert(input@.subrange(0, chunked_size as int).len() == chunked_size);
    }
    let mut out: Vec<u8>;
    match decoded {
        Err(e) => {
            return Err(e);
        },
        Ok(v) => {
            out = v;
        },
    }
    if has_tail {
        let last = &input[chunked_size..length];
        proof {
            assert(last@ == text_group(input@, (chunked_size / 5) as int));
            lemma_group_error_position(last@);
        }
        match decode_tail(last) {
            Err(e) => {
                return Err(rebase(e, chunked_size));
            },
            Ok(c) => {
                c.append_to_vec(&mut out);
            },
        }
    }
    Ok(out)
}

/// Decodes every whole group of `input` without checking it. On data that
/// `validate_z85` accepts this is what `decode_z85` returns.
pub fn decode_z85_unchecked(input: &[u8]) -> (r: Vec<u8>)
    ensures
        r@ == decode_strict_wrapping(input@),
{
    let length = input.len();
    let n = length / 5;
    let mut out: Vec<u8> = Vec::new();
    let mut c: usize = 0;
    while c < n
        invariant
            length == input@.len(),
            n == length / 5,
            n * 5 <= length,
            c <= n,
            out@ == decode_groups_wrapping(input@, c as int),
        decreases n - c,
    {
        assert(c * 5 + 5 <= length) by (nonlinear_arith)
            requires
                c + 1 <= n,
                n * 5 <= length,
        ;
        let start = c * 5;
        let chunk = &input[start..start + 5];
        assert(chunk@ == text_group(input@, c as int));
        let binchunk = decode_chunk_unchecked(chunk);
        let ghost prefix = out@;
        out.extend_from_slice(binchunk.as_slice());
        assert(out@ =~= prefix + binchunk@);
        c += 1;
    }
    out
}

/// Decodes padded Z85 data without checking it. On data that
/// `validate_z85_padded` accepts this is what `decode_z85_padded` returns.
pub fn decode_z85_padded_unchecked(input: &[u8]) -> (r: Vec<u8>)
    ensures
        r@ == decode_padded_wrapping(input@),
{
    let length = input.len();
    let has_tail = length >= 5 && input[length - 5] == SENTINEL;
    let chunked_size = if has_tail { length - 5 } else { length };
    let mut out = decode_z85_unchecked(&input[0..chunked_size]);
    proof {
        lemma_decode_prefix(input@, chunked_size as int, (chunked_size / 5) as int);
        assert(input@.subrange(0, chunked_size as int).len() == chunked_size);
    }
    if has_tail {
        let last_chunk = &input[chunked_size..length];
        let bintail = decode_tail_unchecked(last_chunk);
        out.extend_from_slice(bintail.as_slice());
    }
    assert(out@ =~= decode_padded_wrapping(input@));
    out
}

} // verus!
