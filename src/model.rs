//! Mathematical model of the Z85 wire format.
use vstd::prelude::*;

use vstd::arithmetic::div_mod::{
    lemma_div_denominator, lemma_fundamental_div_mod, lemma_fundamental_div_mod_converse,
};

use crate::DecodeError;

verus! {

/// The padding sentinel `'#'`.
pub const SENTINEL: u8 = 0x23;

/// The zero digit `'0'`.
pub const ZERO_DIGIT: u8 = 0x30;

/// The 23 punctuation symbols that follow the letters, in digit order.
pub open spec fn punctuation() -> Seq<u8> {
    seq![
        0x2Eu8, 0x2D, 0x3A, 0x2B, 0x3D, 0x5E, 0x21, 0x2F, 0x2A, 0x3F, 0x26, 0x3C,
        0x3E, 0x28, 0x29, 0x5B, 0x5D, 0x7B, 0x7D, 0x40, 0x25, 0x24, 0x23,
    ]
}

/// The character of digit `d` (0 <= d < 85): digits, lowercase, uppercase,
/// then 23 punctuation symbols.
pub open spec fn letter(d: int) -> u8 {
    if d < 10 {
        (0x30 + d) as u8
    } else if d < 36 {
        (0x61 + (d - 10)) as u8
    } else if d < 62 {
        (0x41 + (d - 36)) as u8
    } else {
        punctuation()[d - 62]
    }
}

/// The digit value of character `c`, or `None` when `c` is not in the alphabet.
pub open spec fn digit_of(c: u8) -> Option<int> {
    if 0x30 <= c <= 0x39 {
        Some(c - 0x30)
    } else if 0x61 <= c <= 0x7A {
        Some(c - 0x61 + 10)
    } else if 0x41 <= c <= 0x5A {
        Some(c - 0x41 + 36)
    } else {
        match c {
            0x2E => Some(62),
            0x2D => Some(63),
            0x3A => Some(64),
            0x2B => Some(65),
            0x3D => Some(66),
            0x5E => Some(67),
            0x21 => Some(68),
            0x2F => Some(69),
            0x2A => Some(70),
            0x3F => Some(71),
            0x26 => Some(72),
            0x3C => Some(73),
            0x3E => Some(74),
            0x28 => Some(75),
            0x29 => Some(76),
            0x5B => Some(77),
            0x5D => Some(78),
            0x7B => Some(79),
            0x7D => Some(80),
            0x40 => Some(81),
            0x25 => Some(82),
            0x24 => Some(83),
            0x23 => Some(84),
            _ => None,
        }
    }
}

/// A byte that an encoder may emit: printable ASCII, `'!'` through `'}'`.
pub open spec fn is_printable(c: u8) -> bool {
    0x21 <= c <= 0x7D
}

/// Every digit has a printable character, and reading it back gives the digit.
pub proof fn lemma_letter_digit(d: int)
    requires
        0 <= d < 85,
    ensures
        digit_of(letter(d)) == Some(d),
        is_printable(letter(d)),
{
}

/// A character that has a digit value is the character of that digit.
pub proof fn lemma_digit_letter(c: u8)
    ensures
        digit_of(c) matches Some(d) ==> 0 <= d < 85 && letter(d) == c && is_printable(c),
{
}

/// `2^32`: one more than the largest value of a chunk.
pub open spec fn chunk_limit() -> int {
    0x1_0000_0000
}

/// The big-endian value of 4 bytes.
pub open spec fn be_value(b: Seq<u8>) -> int {
    b[0] * 0x100_0000 + b[1] * 0x1_0000 + b[2] * 0x100 + b[3]
}

/// The 4 big-endian bytes of a value below `2^32`.
pub open spec fn be_bytes(v: int) -> Seq<u8> {
    seq![
        (v / 0x100_0000) as u8,
        (v / 0x1_0000 % 0x100) as u8,
        (v / 0x100 % 0x100) as u8,
        (v % 0x100) as u8,
    ]
}

/// `v` divided by 85, `k` times over.
pub open spec fn div85(v: int, k: nat) -> int
    decreases k,
{
    if k == 0 {
        v
    } else {
        div85(v, (k - 1) as nat) / 85
    }
}

/// `85^k`.
pub open spec fn pow85(k: nat) -> int
    decreases k,
{
    if k == 0 {
        1
    } else {
        85 * pow85((k - 1) as nat)
    }
}

/// The five characters of a chunk value: its base-85 digits, most
/// significant first.
pub open spec fn chunk_text(v: int) -> Seq<u8> {
    Seq::new(5, |i: int| letter(div85(v, (4 - i) as nat) % 85))
}

/// Folding the first `k` characters of `g` as base-85 digits, left to right;
/// fails at the first character outside the alphabet.
pub open spec fn fold_digits(g: Seq<u8>, k: int) -> Result<int, DecodeError>
    decreases k,
{
    if k <= 0 {
        Ok(0)
    } else {
        match fold_digits(g, k - 1) {
            Err(e) => Err(e),
            Ok(v) => match digit_of(g[k - 1]) {
                None => Err(DecodeError::InvalidByte((k - 1) as usize, g[k - 1])),
                Some(d) => Ok(v * 85 + d),
            },
        }
    }
}

/// Checking one group of five characters: every character in the alphabet,
/// then the value within 32 bits. Positions are relative to the group.
pub open spec fn check_chunk(g: Seq<u8>) -> Result<int, DecodeError> {
    match fold_digits(g, 5) {
        Err(e) => Err(e),
        Ok(v) => if v >= chunk_limit() {
            Err(DecodeError::InvalidChunk(0))
        } else {
            Ok(v)
        },
    }
}

/// Decoding one group of five characters into four bytes.
pub open spec fn decode_chunk_spec(g: Seq<u8>) -> Result<Seq<u8>, DecodeError> {
    match check_chunk(g) {
        Err(e) => Err(e),
        Ok(v) => Ok(be_bytes(v)),
    }
}

/// Folding the first `k` characters with 32-bit wrap-around, reading a
/// character outside the alphabet as digit zero.
pub open spec fn fold_digits_wrapping(g: Seq<u8>, k: int) -> int
    decreases k,
{
    if k <= 0 {
        0
    } else {
        let d = match digit_of(g[k - 1]) {
            Some(d) => d,
            None => 0,
        };
        (fold_digits_wrapping(g, k - 1) * 85 + d) % chunk_limit()
    }
}

/// Once folding fails, folding further characters gives the same error.
pub proof fn lemma_fold_error_persists(g: Seq<u8>, j: int, k: int)
    requires
        0 <= j <= k,
        fold_digits(g, j) is Err,
    ensures
        fold_digits(g, k) == fold_digits(g, j),
    decreases k - j,
{
    if k > j {
        lemma_fold_error_persists(g, j, k - 1);
    }
}

/// The 4 big-endian bytes of a value below `2^32` read back as that value.
pub proof fn lemma_be_value_of_bytes(v: int)
    requires
        0 <= v < chunk_limit(),
    ensures
        be_bytes(v).len() == 4,
        be_value(be_bytes(v)) == v,
{
    let q1 = v / 0x100;
    let q2 = v / 0x1_0000;
    let q3 = v / 0x100_0000;
    lemma_div_denominator(v, 0x100, 0x100);
    lemma_div_denominator(v, 0x1_0000, 0x100);
    lemma_fundamental_div_mod(v, 0x100);
    lemma_fundamental_div_mod(q1, 0x100);
    lemma_fundamental_div_mod(q2, 0x100);
    assert(q3 < 0x100);
}

/// Four bytes have a value below `2^32`, and writing it back gives the bytes.
pub proof fn lemma_be_bytes_of_value(b: Seq<u8>)
    requires
        b.len() == 4,
    ensures
        0 <= be_value(b) < chunk_limit(),
        be_bytes(be_value(b)) =~= b,
{
    let (b0, b1, b2, b3) = (b[0] as int, b[1] as int, b[2] as int, b[3] as int);
    let v = be_value(b);
    lemma_fundamental_div_mod_converse(v, 0x100_0000, b0, b1 * 0x1_0000 + b2 * 0x100 + b3);
    lemma_fundamental_div_mod_converse(v, 0x1_0000, b0 * 0x100 + b1, b2 * 0x100 + b3);
    lemma_fundamental_div_mod_converse(b0 * 0x100 + b1, 0x100, b0, b1);
    lemma_fundamental_div_mod_converse(v, 0x100, b0 * 0x1_0000 + b1 * 0x100 + b2, b3);
    lemma_fundamental_div_mod_converse(b0 * 0x1_0000 + b1 * 0x100 + b2, 0x100, b0 * 0x100 + b1, b2);
}

/// The number of sentinels that `g` starts with.
pub open spec fn leading_sentinels(g: Seq<u8>) -> nat
    decreases g.len(),
{
    if g.len() > 0 && g[0] == SENTINEL {
        1 + leading_sentinels(g.drop_first())
    } else {
        0
    }
}

/// `g` with its first `n` characters replaced by the zero digit.
pub open spec fn unpad(g: Seq<u8>, n: int) -> Seq<u8> {
    Seq::new(g.len(), |i: int| if i < n { ZERO_DIGIT } else { g[i] })
}

/// `256^(4 - diff)`: the bound on the value of a tail of `4 - diff` bytes.
pub open spec fn tail_limit(diff: int) -> int {
    if diff == 1 {
        0x100_0000
    } else if diff == 2 {
        0x1_0000
    } else {
        0x100
    }
}

/// The tail group of `b` (at most 4 bytes): `b` left-padded with
/// `diff = 4 - len(b)` zero bytes, encoded as a chunk, with its first `diff`
/// characters replaced by the sentinel.
pub open spec fn tail_text(b: Seq<u8>) -> Seq<u8> {
    let diff = 4 - b.len();
    let v = be_value(Seq::new(diff as nat, |i: int| 0u8) + b);
    Seq::new(5, |i: int| if i < diff { SENTINEL } else { chunk_text(v)[i] })
}

/// Decoding a tail group: 1 to 3 leading sentinels, then a value that fits in
/// the remaining bytes. Byte positions are relative to the group.
pub open spec fn decode_tail_spec(g: Seq<u8>) -> Result<Seq<u8>, DecodeError> {
    let diff = leading_sentinels(g) as int;
    if diff == 0 || diff > 3 {
        Err(DecodeError::InvalidTail)
    } else {
        match check_chunk(unpad(g, diff)) {
            Err(e) => Err(e),
            Ok(v) => if v >= tail_limit(diff) {
                Err(DecodeError::InvalidTail)
            } else {
                Ok(be_bytes(v).subrange(diff, 4))
            },
        }
    }
}

/// Decoding a tail group without checks; empty unless it has 1 to 3 leading
/// sentinels.
pub open spec fn decode_tail_wrapping(g: Seq<u8>) -> Seq<u8> {
    let diff = leading_sentinels(g) as int;
    if 1 <= diff <= 3 {
        be_bytes(fold_digits_wrapping(unpad(g, diff), 5)).subrange(diff, 4)
    } else {
        Seq::empty()
    }
}

/// Counting the sentinels from position `i` on.
pub proof fn lemma_leading_sentinels_step(g: Seq<u8>, i: int)
    requires
        0 <= i < g.len(),
    ensures
        g[i] == SENTINEL ==> leading_sentinels(g.subrange(i, g.len() as int)) == 1
            + leading_sentinels(g.subrange(i + 1, g.len() as int)),
        g[i] != SENTINEL ==> leading_sentinels(g.subrange(i, g.len() as int)) == 0,
{
    assert(g.subrange(i, g.len() as int).drop_first() =~= g.subrange(i + 1, g.len() as int));
}

/// The value of `k` folded digits is below `85^k`.
pub proof fn lemma_fold_bounds(g: Seq<u8>, k: int)
    requires
        0 <= k,
    ensures
        fold_digits(g, k) matches Ok(v) ==> 0 <= v < pow85(k as nat),
    decreases k,
{
    if k > 0 {
        lemma_fold_bounds(g, k - 1);
    }
}

/// The strict encoding of the first `n` 4-byte groups of `b`.
pub open spec fn encode_groups(b: Seq<u8>, n: int) -> Seq<u8>
    decreases n,
{
    if n <= 0 {
        Seq::empty()
    } else {
        encode_groups(b, n - 1) + chunk_text(be_value(b.subrange(4 * (n - 1), 4 * n)))
    }
}

/// The strict encoding: every 4-byte group as 5 characters.
pub open spec fn encode_strict_spec(b: Seq<u8>) -> Seq<u8> {
    encode_groups(b, (b.len() / 4) as int)
}

/// The padded encoding: the aligned groups as in the strict encoding, then the
/// 1 to 3 trailing bytes, if any, as a tail group.
pub open spec fn encode_padded_spec(b: Seq<u8>) -> Seq<u8> {
    let n = (b.len() / 4) as int;
    if b.len() % 4 == 0 {
        encode_groups(b, n)
    } else {
        encode_groups(b, n) + tail_text(b.subrange(4 * n, b.len() as int))
    }
}

/// An error with its position moved on by `offset`.
pub open spec fn shift_error(e: DecodeError, offset: int) -> DecodeError {
    match e {
        DecodeError::InvalidByte(p, c) => DecodeError::InvalidByte((p + offset) as usize, c),
        DecodeError::InvalidChunk(p) => DecodeError::InvalidChunk((p + offset) as usize),
        _ => e,
    }
}

/// The 5-character group `k` of `t`.
pub open spec fn text_group(t: Seq<u8>, k: int) -> Seq<u8> {
    t.subrange(5 * k, 5 * k + 5)
}

/// Decoding the first `n` groups of `t`, stopping at the first error, with
/// positions counted from the start of `t`.
pub open spec fn decode_groups(t: Seq<u8>, n: int) -> Result<Seq<u8>, DecodeError>
    decreases n,
{
    if n <= 0 {
        Ok(Seq::empty())
    } else {
        match decode_groups(t, n - 1) {
            Err(e) => Err(e),
            Ok(p) => match decode_chunk_spec(text_group(t, n - 1)) {
                Err(e) => Err(shift_error(e, 5 * (n - 1))),
                Ok(b) => Ok(p + b),
            },
        }
    }
}

/// Checking the first `n` groups of `t` as `decode_groups` does.
pub open spec fn check_groups(t: Seq<u8>, n: int) -> Result<(), DecodeError>
    decreases n,
{
    if n <= 0 {
        Ok(())
    } else {
        match check_groups(t, n - 1) {
            Err(e) => Err(e),
            Ok(_) => match check_chunk(text_group(t, n - 1)) {
                Err(e) => Err(shift_error(e, 5 * (n - 1))),
                Ok(_) => Ok(()),
            },
        }
    }
}

/// Decoding the first `n` groups of `t` without checks.
pub open spec fn decode_groups_wrapping(t: Seq<u8>, n: int) -> Seq<u8>
    decreases n,
{
    if n <= 0 {
        Seq::empty()
    } else {
        decode_groups_wrapping(t, n - 1) + be_bytes(fold_digits_wrapping(text_group(t, n - 1), 5))
    }
}

/// The strict decoding: a length that is a multiple of 5, then every group.
pub open spec fn decode_strict_spec(t: Seq<u8>) -> Result<Seq<u8>, DecodeError> {
    if t.len() % 5 != 0 {
        Err(DecodeError::InvalidLength(t.len() as usize))
    } else {
        decode_groups(t, (t.len() / 5) as int)
    }
}

/// Strict validation: what `decode_strict_spec` checks, without the bytes.
pub open spec fn validate_strict_spec(t: Seq<u8>) -> Result<(), DecodeError> {
    if t.len() % 5 != 0 {
        Err(DecodeError::InvalidLength(t.len() as usize))
    } else {
        check_groups(t, (t.len() / 5) as int)
    }
}

/// The last group of `t` starts with the sentinel, so it is read as a tail.
pub open spec fn has_tail(t: Seq<u8>) -> bool {
    t.len() >= 5 && t[t.len() - 5] == SENTINEL
}

/// The padded decoding: a length that is a multiple of 5; a last group that
/// starts with the sentinel is a tail group, the others are decoded strictly.
pub open spec fn decode_padded_spec(t: Seq<u8>) -> Result<Seq<u8>, DecodeError> {
    if t.len() % 5 != 0 {
        Err(DecodeError::InvalidLength(t.len() as usize))
    } else if has_tail(t) {
        let n = t.len() / 5 - 1;
        match decode_groups(t, n) {
            Err(e) => Err(e),
            Ok(p) => match decode_tail_spec(text_group(t, n)) {
                Err(e) => Err(shift_error(e, 5 * n)),
                Ok(b) => Ok(p + b),
            },
        }
    } else {
        decode_groups(t, (t.len() / 5) as int)
    }
}

/// Padded validation: what `decode_padded_spec` checks, without the bytes.
pub open spec fn validate_padded_spec(t: Seq<u8>) -> Result<(), DecodeError> {
    if t.len() % 5 != 0 {
        Err(DecodeError::InvalidLength(t.len() as usize))
    } else if has_tail(t) {
        let n = t.len() / 5 - 1;
        match check_groups(t, n) {
            Err(e) => Err(e),
            Ok(_) => match decode_tail_spec(text_group(t, n)) {
                Err(e) => Err(shift_error(e, 5 * n)),
                Ok(_) => Ok(()),
            },
        }
    } else {
        check_groups(t, (t.len() / 5) as int)
    }
}

/// The strict decoding without checks: every whole group, wrapping.
pub open spec fn decode_strict_wrapping(t: Seq<u8>) -> Seq<u8> {
    decode_groups_wrapping(t, (t.len() / 5) as int)
}

/// The padded decoding without checks: a last group that starts with the
/// sentinel is decoded as a tail, the whole groups before it as in the strict
/// scheme.
pub open spec fn decode_padded_wrapping(t: Seq<u8>) -> Seq<u8> {
    if has_tail(t) {
        let n = (t.len() - 5) / 5;
        decode_groups_wrapping(t, n) + decode_tail_wrapping(t.subrange(t.len() - 5, t.len() as int))
    } else {
        decode_groups_wrapping(t, (t.len() / 5) as int)
    }
}

/// Once decoding groups fails, decoding more groups gives the same error.
pub proof fn lemma_decode_error_persists(t: Seq<u8>, j: int, k: int)
    requires
        0 <= j <= k,
        decode_groups(t, j) is Err,
    ensures
        decode_groups(t, k) == decode_groups(t, j),
    decreases k - j,
{
    if k > j {
        lemma_decode_error_persists(t, j, k - 1);
    }
}

/// Once checking groups fails, checking more groups gives the same error.
pub proof fn lemma_check_error_persists(t: Seq<u8>, j: int, k: int)
    requires
        0 <= j <= k,
        check_groups(t, j) is Err,
    ensures
        check_groups(t, k) == check_groups(t, j),
    decreases k - j,
{
    if k > j {
        lemma_check_error_persists(t, j, k - 1);
    }
}

/// Decoding the first `n` groups reads only the first `5 * n` characters.
pub proof fn lemma_decode_prefix(t: Seq<u8>, m: int, n: int)
    requires
        0 <= n,
        5 * n <= m <= t.len(),
    ensures
        decode_groups(t.subrange(0, m), n) == decode_groups(t, n),
        check_groups(t.subrange(0, m), n) == check_groups(t, n),
        decode_groups_wrapping(t.subrange(0, m), n) == decode_groups_wrapping(t, n),
    decreases n,
{
    if n > 0 {
        lemma_decode_prefix(t, m, n - 1);
        assert(text_group(t.subrange(0, m), n - 1) =~= text_group(t, n - 1));
    }
}

/// Encoding the first `n` groups reads only the first `4 * n` bytes.
pub proof fn lemma_encode_prefix(b: Seq<u8>, m: int, n: int)
    requires
        0 <= n,
        4 * n <= m <= b.len(),
    ensures
        encode_groups(b.subrange(0, m), n) == encode_groups(b, n),
    decreases n,
{
    if n > 0 {
        lemma_encode_prefix(b, m, n - 1);
        assert(b.subrange(0, m).subrange(4 * (n - 1), 4 * n) =~= b.subrange(4 * (n - 1), 4 * n));
    }
}

/// The position that an error reports, if any, is below `bound`.
pub open spec fn error_position_below(e: DecodeError, bound: int) -> bool {
    match e {
        DecodeError::InvalidByte(p, _) => p < bound,
        DecodeError::InvalidChunk(p) => p < bound,
        _ => true,
    }
}

/// Folding fails only on a character outside the alphabet, at its position.
pub proof fn lemma_fold_error_position(g: Seq<u8>, k: int)
    requires
        0 <= k <= g.len(),
        k <= usize::MAX,
    ensures
        fold_digits(g, k) matches Err(e) ==> (e matches DecodeError::InvalidByte(p, c) && p < k
            && c == g[p as int] && digit_of(c) is None),
    decreases k,
{
    if k > 0 {
        lemma_fold_error_position(g, k - 1);
    }
}

/// Errors of a group, or of a tail group, lie within the group.
pub proof fn lemma_group_error_position(g: Seq<u8>)
    requires
        g.len() == 5,
    ensures
        check_chunk(g) matches Err(e) ==> error_position_below(e, 5) && (e is InvalidByte
            || e is InvalidChunk),
        decode_tail_spec(g) matches Err(e) ==> error_position_below(e, 5),
{
    lemma_fold_error_position(g, 5);
    lemma_fold_error_position(unpad(g, leading_sentinels(g) as int), 5);
}

/// A `Vec` result seen through the view of its bytes.
pub open spec fn seq_result<E>(r: Result<Vec<u8>, E>) -> Result<Seq<u8>, E> {
    match r {
        Ok(v) => Ok(v@),
        Err(e) => Err(e),
    }
}

/// Errors of whole groups are byte errors or group errors, within the groups.
pub proof fn lemma_groups_error_kind(t: Seq<u8>, n: int)
    requires
        0 <= n,
        5 * n <= t.len(),
    ensures
        decode_groups(t, n) matches Err(e) ==> (e is InvalidByte || e is InvalidChunk),
        check_groups(t, n) matches Err(e) ==> (e is InvalidByte || e is InvalidChunk),
    decreases n,
{
    if n > 0 {
        lemma_groups_error_kind(t, n - 1);
        lemma_group_error_position(text_group(t, n - 1));
    }
}

} // verus!
