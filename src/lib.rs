//! Z85: a base-85 binary-to-text codec mapping 4 raw bytes to 5 printable
//! ASCII characters, with an optional padded scheme for unaligned input.
use vstd::prelude::*;

use crate::internal::ascii_str;
use crate::laws::lemma_encodings_printable;
use crate::model::{
    decode_groups, decode_padded_spec, encode_padded_spec, error_position_below,
    lemma_decode_error_persists, lemma_group_error_position, seq_result, shift_error,
    text_group, SENTINEL,
};

pub mod encdec;
pub mod internal;
pub mod laws;
pub mod model;
pub mod padded;
pub mod rfc;

verus! {

/// Errors that can occur while decoding.
#[derive(Debug, Copy, Clone, PartialEq, Eq, Structural)]
pub enum DecodeError {
    /// A byte outside the alphabet, at its absolute offset.
    InvalidByte(usize, u8),
    /// A group of five alphabet characters whose value exceeds 32 bits,
    /// at the offset of the group.
    InvalidChunk(usize),
    /// The input length is not a multiple of five.
    InvalidLength(usize),
    /// A trailing group that starts with the sentinel but no encoder emits.
    InvalidTail,
}

impl DecodeError {
    /// The error of the group with index `chunk_count`, at its absolute
    /// position.
    fn add_offset(&self, chunk_count: usize) -> (r: Self)
        requires
            error_position_below(*self, 5),
            chunk_count * 5 + 5 <= usize::MAX,
        ensures
            r == shift_error(*self, chunk_count * 5),
    {
        let offset = chunk_count * 5;
        match self {
            DecodeError::InvalidByte(index, byte) => {
                DecodeError::InvalidByte(index + offset, *byte)
            },
            DecodeError::InvalidChunk(index) => DecodeError::InvalidChunk(index + offset),
            _ => *self,
        }
    }
}

/// Encodes bytes of any length as padded Z85 text.
pub fn encode(input: &[u8]) -> (r: String)
    ensures
        r@ == encode_padded_spec(input@).map_values(|c: u8| c as char),
{
    let out = encdec::encode_z85_padded(input);
    proof {
        lemma_encodings_printable(input@);
    }
    ascii_str(out.as_slice()).to_owned()
}

/// Decodes padded Z85 text: the groups in order, a last group that starts
/// with the sentinel as a tail group, stopping at the first error.
pub fn decode(input: &[u8]) -> (r: Result<Vec<u8>, DecodeError>)
    ensures
        seq_result(r) == decode_padded_spec(input@),
{
    let length = input.len();
    if length == 0 {
        return Ok(Vec::new());
    }
    if length % 5 != 0 {
        return Err(DecodeError::InvalidLength(length));
    }
    let has_tail = input[length - 5] == SENTINEL;
    let chunked_size = if has_tail { length - 5 } else { length };
    let n = chunked_size / 5;
    let mut out: Vec<u8> = Vec::new();
    let mut chunk_count: usize = 0;
    while chunk_count < n
        invariant
            length == input@.len(),
            length >= 5,
            length % 5 == 0,
            has_tail == (input@[length - 5] == SENTINEL),
            chunked_size == if has_tail { length - 5 } else { length as int },
            n * 5 == chunked_size,
            chunk_count <= n,
            decode_groups(input@, chunk_count as int) == Ok::<Seq<u8>, DecodeError>(out@),
        decreases n - chunk_count,
    {
        assert(chunk_count * 5 + 5 <= chunked_size) by (nonlinear_arith)
            requires
                chunk_count + 1 <= n,
                n * 5 == chunked_size,
        ;
        let start = chunk_count * 5;
        let chunk = &input[start..start + 5];
        proof {
            assert(chunk@ == text_group(input@, chunk_count as int));
            lemma_group_error_position(chunk@);
        }
        match internal::decode_chunk(chunk) {
            Err(decode_error) => {
                proof {
                    assert(decode_groups(input@, chunk_count + 1) == Err::<Seq<u8>, DecodeError>(
                        shift_error(decode_error, start as int),
                    ));
                    lemma_decode_error_persists(input@, chunk_count + 1, n as int);
                }
                return Err(decode_error.add_offset(chunk_count));
            },
            Ok(binchunk) => {
                let ghost prefix = out@;
                out.extend_from_slice(binchunk.as_slice());
                assert(out@ =~= prefix + binchunk@);
            },
        }
        chunk_count += 1;
    }
    if has_tail {
        let last_chunk = &input[chunked_size..length];
        proof {
            assert(last_chunk@ == text_group(input@, n as int));
            lemma_group_error_position(last_chunk@);
        }
        match internal::decode_tail(last_chunk) {
            Err(decode_error) => {
                return Err(decode_error.add_offset(chunk_count));
            },
            Ok(bintail) => {
                bintail.append_to_vec(&mut out);
            },
        }
    }
    Ok(out)
}

} // verus!
