//! The padded scheme: input of any length, trailing bytes as a tail group.
use vstd::prelude::*;

pub use crate::encdec::ParserError;

use crate::encdec::{decode_z85_padded_unchecked, encode_z85_padded, to_parser, validate_z85_padded};
use crate::internal::ascii_str;
use crate::laws::{
    lemma_padded_round_trip, lemma_padded_validator_agrees, lemma_valid_text_printable,
};
use crate::model::{decode_padded_spec, encode_padded_spec, seq_result, validate_padded_spec};

verus! {

/// Padded Z85 text; valid when built by `encode` or `wrap_bytes`.
#[derive(Debug, Clone, PartialEq, Eq)]
pub struct Z85p {
    payload: Vec<u8>,
}

impl View for Z85p {
    type V = Seq<u8>;

    /// The text.
    closed spec fn view(&self) -> Seq<u8> {
        self.payload@
    }
}

/// Encodes bytes of any length as padded Z85 text.
pub fn encode(input: &[u8]) -> (r: Vec<u8>)
    ensures
        r@ == encode_padded_spec(input@),
{
    encode_z85_padded(input)
}

/// Decodes padded Z85 text if it is valid: validates it first, then decodes
/// it without checks.
pub fn decode(input: &[u8]) -> (r: Result<Vec<u8>, ParserError>)
    ensures
        seq_result(r) == to_parser(decode_padded_spec(input@), input@.len() - 5),
{
    proof {
        lemma_padded_validator_agrees(input@);
    }
    match validate_z85_padded(input) {
        Err(e) => Err(e),
        Ok(()) => Ok(decode_z85_padded_unchecked(input)),
    }
}

impl Z85p {
    /// The text is valid padded Z85.
    pub open spec fn wf(&self) -> bool {
        validate_padded_spec(self@) is Ok
    }

    /// Encodes bytes of any length.
    pub fn encode(input: &[u8]) -> (r: Z85p)
        ensures
            r.wf(),
            r@ == encode_padded_spec(input@),
    {
        let payload = encode(input);
        proof {
            lemma_padded_round_trip(input@);
            lemma_padded_validator_agrees(payload@);
        }
        Z85p { payload }
    }

    /// The bytes that the text encodes.
    pub fn decode(&self) -> (r: Vec<u8>)
        requires
            self.wf(),
        ensures
            decode_padded_spec(self@) == Ok::<Seq<u8>, crate::DecodeError>(r@),
    {
        proof {
            lemma_padded_validator_agrees(self.payload@);
        }
        decode_z85_padded_unchecked(self.payload.as_slice())
    }

    /// Takes `input` as padded Z85 text if it is valid.
    pub fn wrap_bytes(input: Vec<u8>) -> (r: Result<Z85p, ParserError>)
        ensures
            match r {
                Ok(z) => z.wf() && z@ == input@,
                Err(e) => to_parser(validate_padded_spec(input@), input@.len() - 5) == Err::<
                    (),
                    ParserError,
                >(e),
            },
    {
        match validate_z85_padded(input.as_slice()) {
            Err(e) => Err(e),
            Ok(()) => Ok(Z85p { payload: input }),
        }
    }

    /// Takes `input` as padded Z85 text that the caller has validated.
    pub fn wrap_bytes_unchecked(input: Vec<u8>) -> (r: Self)
        requires
            validate_padded_spec(input@) is Ok,
        ensures
            r.wf(),
            r@ == input@,
    {
        Z85p { payload: input }
    }

    /// The text as a string.
    pub fn as_str(&self) -> (r: &str)
        requires
            self.wf(),
        ensures
            r@ == self@.map_values(|c: u8| c as char),
    {
        proof {
            lemma_valid_text_printable(self.payload@);
        }
        ascii_str(self.payload.as_slice())
    }

    /// The text as bytes.
    pub fn as_bytes(&self) -> (r: &[u8])
        ensures
            r@ == self@,
    {
        self.payload.as_slice()
    }
}

} // verus!
