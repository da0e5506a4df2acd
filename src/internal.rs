//! The chunk codec: 4 bytes to 5 characters and back.
use vstd::prelude::*;

use crate::model::{
    be_bytes, be_value, check_chunk, chunk_limit, chunk_text, decode_chunk_spec,
    decode_tail_spec, decode_tail_wrapping, digit_of, div85, fold_digits, fold_digits_wrapping,
    leading_sentinels, lemma_be_value_of_bytes,
    lemma_fold_bounds, lemma_fold_error_persists,
    lemma_leading_sentinels_step, letter, pow85, punctuation,
    tail_text, unpad, SENTINEL, ZERO_DIGIT,
};
use crate::DecodeError;

verus! {

/// The largest value of a chunk.
const U32_MAX: u64 = 0xFFFF_FFFF;

/// The character of digit `d` in the alphabet.
pub fn letter_of(d: u32) -> (r: u8)
    requires
        d < 85,
    ensures
        r == letter(d as int),
{
    if d < 10 {
        0x30 + d as u8
    } else if d < 36 {
        0x61 + (d - 10) as u8
    } else if d < 62 {
        0x41 + (d - 36) as u8
    } else {
        let p: [u8; 23] = [
            0x2E, 0x2D, 0x3A, 0x2B, 0x3D, 0x5E, 0x21, 0x2F, 0x2A, 0x3F, 0x26, 0x3C,
            0x3E, 0x28, 0x29, 0x5B, 0x5D, 0x7B, 0x7D, 0x40, 0x25, 0x24, 0x23,
        ];
        assert(p@ =~= punctuation());
        p[(d - 62) as usize]
    }
}

/// The digit value of character `c`, if it is in the alphabet.
fn digit_value(c: u8) -> (r: Option<u32>)
    ensures
        r matches Some(d) ==> digit_of(c) == Some(d as int),
        r is None ==> digit_of(c) is None,
{
    if 0x30 <= c && c <= 0x39 {
        Some((c - 0x30) as u32)
    } else if 0x61 <= c && c <= 0x7A {
        Some((c - 0x61 + 10) as u32)
    } else if 0x41 <= c && c <= 0x5A {
        Some((c - 0x41 + 36) as u32)
    } else {
        match c {
            0x2E => Some(62),
            0x2D => Some(63),
            0x3A => Some(64),
            0x2B => Some(65),
            0x3D => Some(66),
            0x5E => Some(67),
            0x21 => Some(68),
            0x2F => Some(69),
            0x2A => Some(70),
            0x3F => Some(71),
            0x26 => Some(72),
            0x3C => Some(73),
            0x3E => Some(74),
            0x28 => Some(75),
            0x29 => Some(76),
            0x5B => Some(77),
            0x5D => Some(78),
            0x7B => Some(79),
            0x7D => Some(80),
            0x40 => Some(81),
            0x25 => Some(82),
            0x24 => Some(83),
            0x23 => Some(84),
            _ => None,
        }
    }
}

/// Encodes exactly 4 bytes as the 5 base-85 characters of their big-endian
/// value, most significant digit first.
pub fn encode_chunk(input: &[u8]) -> (r: [u8; 5])
    requires
        input@.len() == 4,
    ensures
        r@ == chunk_text(be_value(input@)),
{
    let mut out = [0u8; 5];
    let mut full_num: u32 = input[0] as u32 * 0x100_0000 + input[1] as u32 * 0x1_0000
        + input[2] as u32 * 0x100 + input[3] as u32;
    let ghost v = be_value(input@);
    let mut i: usize = 5;
    while i > 0
        invariant
            i <= 5,
            full_num == div85(v, (5 - i) as nat),
            forall|j: int| i <= j < 5 ==> out[j] == letter(div85(v, (4 - j) as nat) % 85),
        decreases i,
    {
        i -= 1;
        out[i] = letter_of(full_num % 85);
        assert(div85(v, (5 - i) as nat) == div85(v, (4 - i) as nat) / 85);
        full_num = full_num / 85;
    }
    assert(out@ =~= chunk_text(v));
    out
}

/// Folds the 5 characters of `input` as base-85 digits, failing at the first
/// character outside the alphabet. The value may exceed 32 bits.
fn fold_chunk(input: &[u8]) -> (r: Result<u64, DecodeError>)
    requires
        input@.len() == 5,
    ensures
        r matches Ok(v) ==> fold_digits(input@, 5) == Ok::<int, DecodeError>(v as int),
        r matches Err(e) ==> fold_digits(input@, 5) == Err::<int, DecodeError>(e),
{
    let mut full_num: u64 = 0;
    let mut i: usize = 0;
    while i < 5
        invariant
            i <= 5,
            input@.len() == 5,
            fold_digits(input@, i as int) == Ok::<int, DecodeError>(full_num as int),
            full_num < pow85(i as nat),
        decreases 5 - i,
    {
        let letter = input[i];
        match digit_value(letter) {
            None => {
                proof {
                    lemma_fold_error_persists(input@, i + 1, 5);
                }
                return Err(DecodeError::InvalidByte(i, letter));
            },
            Some(d) => {
                reveal_with_fuel(pow85, 5);
                assert(pow85(i as nat) <= pow85(4)) by {
                    lemma_pow85_monotone(i as nat, 4);
                }
                full_num = full_num * 85 + d as u64;
                i += 1;
            },
        }
    }
    Ok(full_num)
}

/// `85^k` grows with `k`.
proof fn lemma_pow85_monotone(a: nat, b: nat)
    requires
        a <= b,
    ensures
        1 <= pow85(a) <= pow85(b),
    decreases b,
{
    if b > a {
        lemma_pow85_monotone(a, (b - 1) as nat);
    } else if a > 0 {
        lemma_pow85_monotone((a - 1) as nat, (a - 1) as nat);
    }
}

/// The 4 big-endian bytes of `v`.
fn to_be_bytes(v: u32) -> (r: [u8; 4])
    ensures
        r@ == be_bytes(v as int),
{
    let r = [
        (v / 0x100_0000) as u8,
        (v / 0x1_0000 % 0x100) as u8,
        (v / 0x100 % 0x100) as u8,
        (v % 0x100) as u8,
    ];
    assert(r@ =~= be_bytes(v as int));
    r
}

/// Decodes exactly 5 characters into 4 bytes. Fails with `InvalidByte` at the
/// first character outside the alphabet (position within the group), and with
/// `InvalidChunk(0)` when the value exceeds 32 bits.
pub fn decode_chunk(input: &[u8]) -> (r: Result<[u8; 4], DecodeError>)
    requires
        input@.len() == 5,
    ensures
        r matches Ok(b) ==> decode_chunk_spec(input@) == Ok::<Seq<u8>, DecodeError>(b@),
        r matches Err(e) ==> decode_chunk_spec(input@) == Err::<Seq<u8>, DecodeError>(e),
{
    match fold_chunk(input) {
        Err(e) => Err(e),
        Ok(full_num) => {
            if full_num > U32_MAX {
                Err(DecodeError::InvalidChunk(0))
            } else {
                Ok(to_be_bytes(full_num as u32))
            }
        },
    }
}

/// Checks 5 characters as `decode_chunk` does, without producing the bytes.
pub fn validate_chunk(input: &[u8]) -> (r: Result<(), DecodeError>)
    requires
        input@.len() == 5,
    ensures
        r is Ok <==> check_chunk(input@) is Ok,
        r matches Err(e) ==> check_chunk(input@) == Err::<int, DecodeError>(e),
{
    match fold_chunk(input) {
        Err(e) => Err(e),
        Ok(full_num) => {
            if full_num > U32_MAX {
                Err(DecodeError::InvalidChunk(0))
            } else {
                Ok(())
            }
        },
    }
}

/// Decodes 5 characters without checking them: a character outside the
/// alphabet counts as digit zero and the value wraps around at `2^32`.
pub fn decode_chunk_unchecked(input: &[u8]) -> (r: [u8; 4])
    requires
        input@.len() == 5,
    ensures
        r@ == be_bytes(fold_digits_wrapping(input@, 5)),
{
    let mut full_num: u64 = 0;
    let mut i: usize = 0;
    while i < 5
        invariant
            i <= 5,
            input@.len() == 5,
            fold_digits_wrapping(input@, i as int) == full_num as int,
            full_num < chunk_limit(),
        decreases 5 - i,
    {
        let d: u64 = match digit_value(input[i]) {
            Some(d) => d as u64,
            None => 0,
        };
        full_num = (full_num * 85 + d) % 0x1_0000_0000;
        i += 1;
    }
    to_be_bytes(full_num as u32)
}

/// The bytes of a decoded tail, kept as a padded chunk whose first byte
/// records how many leading bytes are padding.
#[derive(Debug, Copy, Clone)]
pub struct BinTail([u8; 4]);

impl View for BinTail {
    type V = Seq<u8>;

    /// The tail bytes: the chunk without its padding.
    closed spec fn view(&self) -> Seq<u8> {
        self.0@.subrange(self.0[0] as int, 4)
    }
}

impl BinTail {
    /// Between 1 and 3 leading bytes are padding.
    pub closed spec fn wf(&self) -> bool {
        1 <= self.0[0] <= 3
    }

    fn new(mut binchunk: [u8; 4], diff: usize) -> (r: Self)
        requires
            1 <= diff <= 3,
        ensures
            r.wf(),
            r@ == binchunk@.subrange(diff as int, 4),
    {
        let ghost old_chunk = binchunk@;
        binchunk[0] = diff as u8;
        let r = BinTail(binchunk);
        assert(r@ =~= old_chunk.subrange(diff as int, 4));
        r
    }

    /// Appends the tail bytes to `target`.
    pub fn append_to_vec(self, target: &mut Vec<u8>)
        requires
            self.wf(),
        ensures
            final(target)@ == old(target)@ + self@,
    {
        let binchunk = self.0;
        let diff = binchunk[0] as usize;
        let slice = &binchunk.as_slice()[diff..4];
        target.extend_from_slice(slice);
        assert(final(target)@ =~= old(target)@ + self@);
    }
}

/// The number of sentinels that `input` starts with.
fn count_sentinels(input: &[u8]) -> (r: usize)
    ensures
        r == leading_sentinels(input@),
{
    let mut i: usize = 0;
    assert(input@.subrange(0, input@.len() as int) =~= input@);
    while i < input.len() && input[i] == SENTINEL
        invariant
            i <= input@.len(),
            leading_sentinels(input@) == i + leading_sentinels(
                input@.subrange(i as int, input@.len() as int),
            ),
        decreases input@.len() - i,
    {
        proof {
            lemma_leading_sentinels_step(input@, i as int);
        }
        i += 1;
    }
    proof {
        if i < input@.len() {
            lemma_leading_sentinels_step(input@, i as int);
        }
    }
    i
}

/// `input` with its first `diff` characters replaced by the zero digit.
fn unpad_group(input: &[u8], diff: usize) -> (r: [u8; 5])
    requires
        input@.len() == 5,
    ensures
        r@ == unpad(input@, diff as int),
{
    let mut group = [0u8; 5];
    let mut i: usize = 0;
    while i < 5
        invariant
            i <= 5,
            input@.len() == 5,
            forall|j: int| 0 <= j < i ==> group[j] == unpad(input@, diff as int)[j],
        decreases 5 - i,
    {
        group[i] = if i < diff { ZERO_DIGIT } else { input[i] };
        i += 1;
    }
    assert(group@ =~= unpad(input@, diff as int));
    group
}

/// The big-endian value of 4 bytes.
fn from_be_bytes(b: &[u8; 4]) -> (r: u32)
    ensures
        r == be_value(b@),
{
    b[0] as u32 * 0x100_0000 + b[1] as u32 * 0x1_0000 + b[2] as u32 * 0x100 + b[3] as u32
}

/// Encodes at most 4 bytes as a tail group: left-padded with zero bytes,
/// encoded as a chunk, and one leading sentinel per padding byte.
pub fn encode_tail(input: &[u8]) -> (r: [u8; 5])
    requires
        input@.len() <= 4,
    ensures
        r@ == tail_text(input@),
{
    let mut input_padded = [0u8; 4];
    let diff = 4 - input.len();
    let mut j: usize = 0;
    while j < input.len()
        invariant
            diff == 4 - input@.len(),
            j <= input@.len(),
            forall|i: int| 0 <= i < diff ==> input_padded[i] == 0,
            forall|i: int| 0 <= i < j ==> input_padded[diff + i] == input@[i],
        decreases input@.len() - j,
    {
        input_padded[diff + j] = input[j];
        j += 1;
    }
    assert(input_padded@ =~= Seq::new(diff as nat, |i: int| 0u8) + input@);
    let mut out = encode_chunk(&input_padded);
    let ghost encoded = out@;
    let mut i: usize = 0;
    while i < diff
        invariant
            diff <= 4,
            i <= diff,
            forall|k: int| 0 <= k < i ==> out[k] == SENTINEL,
            forall|k: int| i <= k < 5 ==> out[k] == encoded[k],
        decreases diff - i,
    {
        out[i] = SENTINEL;
        i += 1;
    }
    assert(out@ =~= tail_text(input@));
    out
}

/// Decodes a tail group of 5 characters: 1 to 3 leading sentinels, the rest
/// decoded as a chunk with the sentinels read as zero digits, and a value that
/// fits in the bytes that remain. Byte positions are relative to the group.
pub fn decode_tail(input: &[u8]) -> (r: Result<BinTail, DecodeError>)
    requires
        input@.len() == 5,
    ensures
        r matches Ok(t) ==> t.wf() && decode_tail_spec(input@) == Ok::<Seq<u8>, DecodeError>(t@),
        r matches Err(e) ==> decode_tail_spec(input@) == Err::<Seq<u8>, DecodeError>(e),
{
    let diff = count_sentinels(input);
    if diff == 0 || diff > 3 {
        return Err(DecodeError::InvalidTail);
    }
    let group = unpad_group(input, diff);
    let binchunk = match decode_chunk(&group) {
        Err(e) => {
            return Err(e);
        },
        Ok(b) => b,
    };
    proof {
        lemma_fold_bounds(group@, 5);
        if let Ok(v) = check_chunk(group@) {
            lemma_be_value_of_bytes(v);
        }
    }
    let max_full_num: u32 = if diff == 1 {
        0xFF_FFFF
    } else if diff == 2 {
        0xFFFF
    } else {
        0xFF
    };
    if from_be_bytes(&binchunk) > max_full_num {
        return Err(DecodeError::InvalidTail);
    }
    Ok(BinTail::new(binchunk, diff))
}

/// Decodes a tail group without checks, as `decode_chunk_unchecked` does;
/// empty unless it starts with 1 to 3 sentinels.
pub fn decode_tail_unchecked(input: &[u8]) -> (r: Vec<u8>)
    requires
        input@.len() == 5,
    ensures
        r@ == decode_tail_wrapping(input@),
{
    let diff = count_sentinels(input);
    let mut out: Vec<u8> = Vec::new();
    if 1 <= diff && diff <= 3 {
        let group = unpad_group(input, diff);
        let binchunk = decode_chunk_unchecked(&group);
        out.extend_from_slice(&binchunk.as_slice()[diff..4]);
    }
    assert(out@ =~= decode_tail_wrapping(input@));
    out
}

/// Relies on `std::str::from_utf8`: it accepts valid UTF-8, which a sequence of
/// ASCII bytes is, and each ASCII byte reads as the character with that code.
#[verifier::external_body]
pub(crate) fn ascii_str(b: &[u8]) -> (r: &str)
    requires
        forall|i: int| 0 <= i < b@.len() ==> b@[i] < 0x80,
    ensures
        r@ == b@.map_values(|c: u8| c as char),
{
    std::str::from_utf8(b).unwrap()
}

} // verus!
