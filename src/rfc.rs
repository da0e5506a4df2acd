//! The strict scheme: input length a multiple of 4, text length a multiple
//! of 5, no tail groups.
use vstd::prelude::*;

pub use crate::encdec::ParserError;

use crate::encdec::{decode_z85_unchecked, encode_z85_unchecked, to_parser, validate_z85};
use crate::internal::ascii_str;
use crate::laws::{
    lemma_strict_round_trip, lemma_strict_validator_agrees, lemma_valid_text_printable,
};
use crate::model::{decode_strict_spec, encode_strict_spec, seq_result, validate_strict_spec};

verus! {

/// Strict Z85 text; valid when built by `encode` or `wrap_bytes`.
#[derive(Debug, Clone, PartialEq, Eq)]
pub struct Z85 {
    payload: Vec<u8>,
}

impl View for Z85 {
    type V = Seq<u8>;

    /// The text.
    closed spec fn view(&self) -> Seq<u8> {
        self.payload@
    }
}

/// The length of input that the strict encoder refuses: not a multiple of 4.
#[derive(Debug, Clone, Copy, PartialEq, Eq, Structural)]
pub struct EncoderError(pub usize);

/// The result of encoding `b` with the strict scheme.
pub open spec fn encode_result(b: Seq<u8>) -> Result<Seq<u8>, EncoderError> {
    if b.len() % 4 != 0 {
        Err(EncoderError(b.len() as usize))
    } else {
        Ok(encode_strict_spec(b))
    }
}

/// Encodes `input` if its length is a multiple of 4.
pub fn encode(input: &[u8]) -> (r: Result<Vec<u8>, EncoderError>)
    ensures
        seq_result(r) == encode_result(input@),
{
    let len = input.len();
    if len % 4 != 0 {
        return Err(EncoderError(len));
    }
    Ok(encode_z85_unchecked(input))
}

/// Decodes strict Z85 text if it is valid: validates it first, then decodes
/// it without checks.
pub fn decode(input: &[u8]) -> (r: Result<Vec<u8>, ParserError>)
    ensures
        seq_result(r) == to_parser(decode_strict_spec(input@), 0),
{
    proof {
        lemma_strict_validator_agrees(input@);
    }
    match validate_z85(input) {
        Err(e) => Err(e),
        Ok(()) => Ok(decode_z85_unchecked(input)),
    }
}

impl Z85 {
    /// The text is valid strict Z85.
    pub open spec fn wf(&self) -> bool {
        validate_strict_spec(self@) is Ok
    }

    /// Encodes `input` if its length is a multiple of 4.
    pub fn encode(input: &[u8]) -> (r: Result<Z85, EncoderError>)
        ensures
            match r {
                Ok(z) => z.wf() && encode_result(input@) == Ok::<Seq<u8>, EncoderError>(z@),
                Err(e) => encode_result(input@) == Err::<Seq<u8>, EncoderError>(e),
            },
    {
        match encode(input) {
            Err(e) => Err(e),
            Ok(payload) => {
                proof {
                    lemma_strict_round_trip(input@);
                    lemma_strict_validator_agrees(payload@);
                }
                Ok(Z85 { payload })
            },
        }
    }

    /// The bytes that the text encodes.
    pub fn decode(&self) -> (r: Vec<u8>)
        requires
            self.wf(),
        ensures
            decode_strict_spec(self@) == Ok::<Seq<u8>, crate::DecodeError>(r@),
    {
        proof {
            lemma_strict_validator_agrees(self.payload@);
        }
        decode_z85_unchecked(self.payload.as_slice())
    }

    /// Takes `input` as strict Z85 text if it is valid.
    pub fn wrap_bytes(input: Vec<u8>) -> (r: Result<Z85, ParserError>)
        ensures
            match r {
                Ok(z) => z.wf() && z@ == input@,
                Err(e) => to_parser(validate_strict_spec(input@), 0) == Err::<(), ParserError>(e),
            },
    {
        match validate_z85(input.as_slice()) {
            Err(e) => Err(e),
            Ok(()) => Ok(Z85 { payload: input }),
        }
    }

    /// Takes `input` as strict Z85 text that the caller has validated.
    pub fn wrap_bytes_unchecked(input: Vec<u8>) -> (r: Self)
        requires
            validate_strict_spec(input@) is Ok,
        ensures
            r.wf(),
            r@ == input@,
    {
        Z85 { payload: input }
    }

    /// The text as a string.
    pub fn as_str(&self) -> (r: &str)
        requires
            self.wf(),
        ensures
            r@ == self@.map_values(|c: u8| c as char),
    {
        proof {
            lemma_valid_text_printable(self.payload@);
        }
        ascii_str(self.payload.as_slice())
    }

    /// The text as bytes.
    pub fn as_bytes(&self) -> (r: &[u8])
        ensures
            r@ == self@,
    {
        self.payload.as_slice()
    }
}

} // verus!
