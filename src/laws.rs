//! Laws that relate the encoders, decoders and validators.
use vstd::prelude::*;

use vstd::arithmetic::div_mod::{
    lemma_div_denominator, lemma_fundamental_div_mod, lemma_fundamental_div_mod_converse,
};

use crate::model::{
    be_bytes, be_value, check_chunk, check_groups, chunk_limit, chunk_text, decode_groups,
    decode_groups_wrapping, decode_padded_spec, decode_padded_wrapping, decode_strict_spec,
    decode_strict_wrapping, decode_tail_spec, decode_tail_wrapping, div85,
    encode_groups, encode_padded_spec, encode_strict_spec, fold_digits, fold_digits_wrapping,
    has_tail, is_printable, leading_sentinels, lemma_be_bytes_of_value, lemma_decode_prefix,
    lemma_digit_letter, lemma_fold_bounds, lemma_letter_digit, pow85, tail_limit, tail_text,
    text_group, unpad, validate_padded_spec, validate_strict_spec, SENTINEL,
};
use crate::DecodeError;

verus! {

/// Every character of a chunk's text is printable ASCII.
proof fn lemma_chunk_text_printable(v: int)
    ensures
        forall|i: int| 0 <= i < 5 ==> is_printable(#[trigger] chunk_text(v)[i]),
{
    assert forall|i: int| 0 <= i < 5 implies is_printable(#[trigger] chunk_text(v)[i]) by {
        lemma_letter_digit(div85(v, (4 - i) as nat) % 85);
    }
}

/// Every character of the first `n` encoded groups is printable ASCII.
proof fn lemma_groups_printable(b: Seq<u8>, n: int)
    ensures
        forall|i: int|
            0 <= i < encode_groups(b, n).len() ==> is_printable(#[trigger] encode_groups(b, n)[i]),
    decreases n,
{
    if n > 0 {
        let prev = encode_groups(b, n - 1);
        let text = chunk_text(be_value(b.subrange(4 * (n - 1), 4 * n)));
        lemma_groups_printable(b, n - 1);
        lemma_chunk_text_printable(be_value(b.subrange(4 * (n - 1), 4 * n)));
        assert forall|i: int| 0 <= i < encode_groups(b, n).len() implies is_printable(
            #[trigger] encode_groups(b, n)[i],
        ) by {
            if i >= prev.len() {
                assert(encode_groups(b, n)[i] == text[i - prev.len()]);
            }
        }
    }
}

/// Both encoders emit only printable ASCII, `'!'` through `'}'`: each byte is
/// a one-byte UTF-8 sequence.
pub proof fn lemma_encodings_printable(b: Seq<u8>)
    ensures
        forall|i: int|
            0 <= i < encode_strict_spec(b).len() ==> is_printable(
                #[trigger] encode_strict_spec(b)[i],
            ),
        forall|i: int|
            0 <= i < encode_padded_spec(b).len() ==> is_printable(
                #[trigger] encode_padded_spec(b)[i],
            ),
{
    let n = (b.len() / 4) as int;
    lemma_groups_printable(b, n);
    if b.len() % 4 != 0 {
        let t = tail_text(b.subrange(4 * n, b.len() as int));
        let tb = b.subrange(4 * n, b.len() as int);
        let v = be_value(Seq::new((4 - tb.len()) as nat, |i: int| 0u8) + tb);
        lemma_chunk_text_printable(v);
        assert(forall|i: int| 0 <= i < 5 ==> is_printable(#[trigger] t[i]));
    }
}

/// Dividing by 85 `k` times is dividing by `85^k`.
proof fn lemma_div85_is_division(v: int, k: nat)
    requires
        0 <= v,
    ensures
        div85(v, k) == v / pow85(k),
        0 <= div85(v, k),
    decreases k,
{
    if k > 0 {
        lemma_div85_is_division(v, (k - 1) as nat);
        lemma_pow85_positive((k - 1) as nat);
        lemma_div_denominator(v, pow85((k - 1) as nat), 85);
        assert(pow85((k - 1) as nat) * 85 == pow85(k));
    }
}

/// `85^k` is positive.
proof fn lemma_pow85_positive(k: nat)
    ensures
        pow85(k) > 0,
    decreases k,
{
    if k > 0 {
        lemma_pow85_positive((k - 1) as nat);
    }
}

/// The first `k` characters of a chunk's text fold to the value divided by
/// `85^(5 - k)`.
proof fn lemma_fold_chunk_text(v: int, k: int)
    requires
        0 <= v < chunk_limit(),
        0 <= k <= 5,
    ensures
        fold_digits(chunk_text(v), k) == Ok::<int, DecodeError>(div85(v, (5 - k) as nat)),
    decreases k,
{
    lemma_div85_is_division(v, (5 - k) as nat);
    if k == 0 {
        reveal_with_fuel(pow85, 6);
        assert(pow85(5) == 4437053125);
        lemma_fundamental_div_mod_converse(v, 4437053125, 0, v);
    } else {
        lemma_fold_chunk_text(v, k - 1);
        let x = div85(v, (5 - k) as nat);
        assert(div85(v, (6 - k) as nat) == x / 85);
        lemma_fundamental_div_mod(x, 85);
        lemma_letter_digit(x % 85);
    }
}

/// A chunk's text checks as a group, with the chunk's value.
pub proof fn lemma_chunk_round_trip(v: int)
    requires
        0 <= v < chunk_limit(),
    ensures
        check_chunk(chunk_text(v)) == Ok::<int, DecodeError>(v),
{
    lemma_fold_chunk_text(v, 5);
}

/// The text of a chunk value never starts with the sentinel: its leading
/// digit is at most 82, and the sentinel is digit 84. So a group that the
/// strict encoder emits is never read as a tail group.
pub proof fn lemma_chunk_text_no_sentinel(v: int)
    requires
        0 <= v < chunk_limit(),
    ensures
        chunk_text(v)[0] != SENTINEL,
{
    lemma_div85_is_division(v, 4);
    reveal_with_fuel(pow85, 5);
    let d = div85(v, 4);
    lemma_fundamental_div_mod(v, 52200625);
    assert(d <= 82);
    lemma_letter_digit(d % 85);
    lemma_letter_digit(84);
}

/// A group that starts with exactly `n` sentinels.
proof fn lemma_leading_sentinels_exact(g: Seq<u8>, n: int)
    requires
        0 <= n < g.len(),
        forall|j: int| 0 <= j < n ==> g[j] == SENTINEL,
        g[n] != SENTINEL,
    ensures
        leading_sentinels(g) == n,
    decreases n,
{
    if n > 0 {
        lemma_leading_sentinels_exact(g.drop_first(), n - 1);
    }
}

/// A tail group decodes to the 1 to 3 bytes it was made from.
proof fn lemma_tail_round_trip(tb: Seq<u8>)
    requires
        1 <= tb.len() <= 3,
    ensures
        decode_tail_spec(tail_text(tb)) == Ok::<Seq<u8>, DecodeError>(tb),
{
    let r = tb.len() as int;
    let diff = 4 - r;
    let padded = Seq::new(diff as nat, |i: int| 0u8) + tb;
    let v = be_value(padded);
    let t = tail_text(tb);
    lemma_be_bytes_of_value(padded);
    assert(v < tail_limit(diff));
    reveal_with_fuel(pow85, 5);
    lemma_div85_is_division(v, 1);
    lemma_div85_is_division(v, 2);
    lemma_div85_is_division(v, 3);
    lemma_div85_is_division(v, 4);
    lemma_fundamental_div_mod(v, 85);
    lemma_fundamental_div_mod(v, 7225);
    lemma_fundamental_div_mod(v, 614125);
    lemma_fundamental_div_mod(v, 52200625);
    let d = div85(v, r as nat);
    assert(d <= 27);
    lemma_letter_digit(d % 85);
    lemma_letter_digit(84);
    lemma_letter_digit(0);
    lemma_leading_sentinels_exact(t, diff);
    assert(unpad(t, diff) =~= chunk_text(v));
    lemma_chunk_round_trip(v);
    assert(be_bytes(v).subrange(diff, 4) =~= tb);
}

/// `n` encoded groups hold `5 * n` characters.
proof fn lemma_encode_groups_len(b: Seq<u8>, n: int)
    requires
        0 <= n,
    ensures
        encode_groups(b, n).len() == 5 * n,
    decreases n,
{
    if n > 0 {
        lemma_encode_groups_len(b, n - 1);
    }
}

/// The first `n` encoded groups decode to the first `4 * n` bytes.
proof fn lemma_groups_round_trip(b: Seq<u8>, n: int)
    requires
        0 <= n,
        4 * n <= b.len(),
    ensures
        decode_groups(encode_groups(b, n), n) == Ok::<Seq<u8>, DecodeError>(b.subrange(0, 4 * n)),
    decreases n,
{
    if n > 0 {
        let e = encode_groups(b, n);
        let prev = encode_groups(b, n - 1);
        let v = be_value(b.subrange(4 * (n - 1), 4 * n));
        lemma_groups_round_trip(b, n - 1);
        lemma_encode_groups_len(b, n - 1);
        lemma_encode_groups_len(b, n);
        assert(e.subrange(0, 5 * (n - 1)) =~= prev);
        lemma_decode_prefix(e, 5 * (n - 1), n - 1);
        assert(text_group(e, n - 1) =~= chunk_text(v));
        lemma_be_bytes_of_value(b.subrange(4 * (n - 1), 4 * n));
        lemma_chunk_round_trip(v);
        assert(b.subrange(0, 4 * (n - 1)) + b.subrange(4 * (n - 1), 4 * n) =~= b.subrange(
            0,
            4 * n,
        ));
    } else {
        assert(b.subrange(0, 0) =~= Seq::<u8>::empty());
    }
}

/// The length of each encoding: 5 characters for every 4 bytes in the strict
/// scheme, and for every 4 bytes or fewer in the padded scheme.
pub proof fn lemma_encoded_lengths(b: Seq<u8>)
    ensures
        encode_strict_spec(b).len() == b.len() / 4 * 5,
        encode_padded_spec(b).len() == (b.len() + 3) / 4 * 5,
{
    lemma_encode_groups_len(b, (b.len() / 4) as int);
}

/// Strict round trip: decoding the strict encoding of bytes whose length is a
/// multiple of 4 gives the bytes back.
pub proof fn lemma_strict_round_trip(b: Seq<u8>)
    requires
        b.len() % 4 == 0,
    ensures
        decode_strict_spec(encode_strict_spec(b)) == Ok::<Seq<u8>, DecodeError>(b),
{
    let n = (b.len() / 4) as int;
    lemma_encode_groups_len(b, n);
    lemma_groups_round_trip(b, n);
    assert(b.subrange(0, 4 * n) =~= b);
}

/// Padded round trip: decoding the padded encoding of any bytes gives the
/// bytes back.
pub proof fn lemma_padded_round_trip(b: Seq<u8>)
    ensures
        decode_padded_spec(encode_padded_spec(b)) == Ok::<Seq<u8>, DecodeError>(b),
{
    let n = (b.len() / 4) as int;
    let e = encode_groups(b, n);
    let t = encode_padded_spec(b);
    lemma_encode_groups_len(b, n);
    lemma_groups_round_trip(b, n);
    if b.len() % 4 == 0 {
        assert(t == e);
        assert(b.subrange(0, 4 * n) =~= b);
        if n > 0 {
            let v = be_value(b.subrange(4 * (n - 1), 4 * n));
            lemma_be_bytes_of_value(b.subrange(4 * (n - 1), 4 * n));
            lemma_chunk_text_no_sentinel(v);
            assert(e[e.len() - 5] == chunk_text(v)[0]);
        }
        assert(!has_tail(t));
        assert(t.len() / 5 == n);
    } else {
        let tb = b.subrange(4 * n, b.len() as int);
        let tail = tail_text(tb);
        assert(t == e + tail);
        assert(t.len() == 5 * n + 5);
        assert(t.subrange(0, 5 * n) =~= e);
        lemma_decode_prefix(t, 5 * n, n);
        assert(decode_groups(t, n) == Ok::<Seq<u8>, DecodeError>(b.subrange(0, 4 * n)));
        assert(text_group(t, n) =~= tail);
        assert(t[t.len() - 5] == tail[0]);
        assert(has_tail(t));
        lemma_tail_round_trip(tb);
        assert(b.subrange(0, 4 * n) + tb =~= b);
    }
}

/// Where folding succeeds within 32 bits, folding with wrap-around gives the
/// same value.
proof fn lemma_fold_wrapping_agrees(g: Seq<u8>, k: int)
    requires
        0 <= k,
    ensures
        fold_digits(g, k) matches Ok(w) ==> (w < chunk_limit() ==> fold_digits_wrapping(g, k) == w),
    decreases k,
{
    if k > 0 {
        lemma_fold_wrapping_agrees(g, k - 1);
        lemma_fold_bounds(g, k - 1);
        lemma_digit_letter(g[k - 1]);
    }
}

/// Checking groups fails exactly where decoding them does, with the same
/// error; where decoding succeeds, decoding without checks agrees.
proof fn lemma_groups_agree(t: Seq<u8>, n: int)
    requires
        0 <= n,
    ensures
        check_groups(t, n) is Ok <==> decode_groups(t, n) is Ok,
        check_groups(t, n) matches Err(e) ==> decode_groups(t, n) == Err::<Seq<u8>, DecodeError>(e),
        decode_groups(t, n) matches Ok(p) ==> decode_groups_wrapping(t, n) == p,
    decreases n,
{
    if n > 0 {
        lemma_groups_agree(t, n - 1);
        lemma_fold_wrapping_agrees(text_group(t, n - 1), 5);
    }
}

/// Where a tail group decodes, decoding it without checks agrees.
proof fn lemma_tail_agrees(g: Seq<u8>)
    ensures
        decode_tail_spec(g) matches Ok(b) ==> decode_tail_wrapping(g) == b,
{
    lemma_fold_wrapping_agrees(unpad(g, leading_sentinels(g) as int), 5);
}

/// Strict validation accepts exactly what strict decoding accepts and
/// otherwise reports the same error; on accepted text, decoding without
/// checks gives what the checked decoding gives.
pub proof fn lemma_strict_validator_agrees(t: Seq<u8>)
    ensures
        validate_strict_spec(t) is Ok <==> decode_strict_spec(t) is Ok,
        validate_strict_spec(t) matches Err(e) ==> decode_strict_spec(t) == Err::<Seq<u8>, DecodeError>(
            e,
        ),
        decode_strict_spec(t) matches Ok(p) ==> decode_strict_wrapping(t) == p,
{
    lemma_groups_agree(t, (t.len() / 5) as int);
}

/// Padded validation accepts exactly what padded decoding accepts and
/// otherwise reports the same error; on accepted text, decoding without
/// checks gives what the checked decoding gives.
pub proof fn lemma_padded_validator_agrees(t: Seq<u8>)
    ensures
        validate_padded_spec(t) is Ok <==> decode_padded_spec(t) is Ok,
        validate_padded_spec(t) matches Err(e) ==> decode_padded_spec(t) == Err::<Seq<u8>, DecodeError>(
            e,
        ),
        decode_padded_spec(t) matches Ok(p) ==> decode_padded_wrapping(t) == p,
{
    if t.len() % 5 == 0 && has_tail(t) {
        let n = t.len() / 5 - 1;
        lemma_groups_agree(t, n);
        assert(t.subrange(t.len() - 5, t.len() as int) == text_group(t, n));
        assert((t.len() - 5) / 5 == n);
        lemma_tail_agrees(text_group(t, n));
    } else {
        lemma_groups_agree(t, (t.len() / 5) as int);
    }
}

/// Cutting any text to a length that is not a multiple of 5 makes every
/// decoder and validator reject it for its length.
pub proof fn lemma_truncation_rejected(t: Seq<u8>, k: int)
    requires
        0 <= k <= t.len(),
        k % 5 != 0,
    ensures
        decode_strict_spec(t.subrange(0, k)) == Err::<Seq<u8>, DecodeError>(
            DecodeError::InvalidLength(k as usize),
        ),
        decode_padded_spec(t.subrange(0, k)) == Err::<Seq<u8>, DecodeError>(
            DecodeError::InvalidLength(k as usize),
        ),
        validate_strict_spec(t.subrange(0, k)) == Err::<(), DecodeError>(
            DecodeError::InvalidLength(k as usize),
        ),
        validate_padded_spec(t.subrange(0, k)) == Err::<(), DecodeError>(
            DecodeError::InvalidLength(k as usize),
        ),
{
}

/// Folding that succeeds read only alphabet characters.
proof fn lemma_fold_ok_digits(g: Seq<u8>, k: int)
    requires
        0 <= k <= g.len(),
        fold_digits(g, k) is Ok,
    ensures
        forall|j: int| 0 <= j < k ==> is_printable(#[trigger] g[j]),
    decreases k,
{
    if k > 0 {
        lemma_fold_ok_digits(g, k - 1);
        lemma_digit_letter(g[k - 1]);
    }
}

/// Groups that check read only alphabet characters.
proof fn lemma_check_groups_printable(t: Seq<u8>, n: int)
    requires
        0 <= n,
        5 * n <= t.len(),
        check_groups(t, n) is Ok,
    ensures
        forall|i: int| 0 <= i < 5 * n ==> is_printable(#[trigger] t[i]),
    decreases n,
{
    if n > 0 {
        let g = text_group(t, n - 1);
        lemma_check_groups_printable(t, n - 1);
        lemma_fold_ok_digits(g, 5);
        assert forall|i: int| 0 <= i < 5 * n implies is_printable(#[trigger] t[i]) by {
            if i >= 5 * (n - 1) {
                assert(t[i] == g[i - 5 * (n - 1)]);
            }
        }
    }
}

/// A group that starts with `n` sentinels has the sentinel at each of them.
proof fn lemma_leading_sentinels_all(g: Seq<u8>)
    ensures
        leading_sentinels(g) <= g.len(),
        forall|j: int| 0 <= j < leading_sentinels(g) ==> #[trigger] g[j] == SENTINEL,
    decreases g.len(),
{
    if g.len() > 0 && g[0] == SENTINEL {
        lemma_leading_sentinels_all(g.drop_first());
        assert forall|j: int| 0 <= j < leading_sentinels(g) implies #[trigger] g[j] == SENTINEL by {
            if j > 0 {
                assert(g[j] == g.drop_first()[j - 1]);
            }
        }
    }
}

/// Text that either validator accepts is printable ASCII, `'!'` through
/// `'}'`.
pub proof fn lemma_valid_text_printable(t: Seq<u8>)
    ensures
        validate_strict_spec(t) is Ok ==> forall|i: int|
            0 <= i < t.len() ==> is_printable(#[trigger] t[i]),
        validate_padded_spec(t) is Ok ==> forall|i: int|
            0 <= i < t.len() ==> is_printable(#[trigger] t[i]),
{
    if t.len() % 5 == 0 {
        if has_tail(t) && validate_padded_spec(t) is Ok {
            let n = t.len() / 5 - 1;
            let g = text_group(t, n);
            let diff = leading_sentinels(g) as int;
            lemma_check_groups_printable(t, n);
            lemma_leading_sentinels_all(g);
            lemma_fold_ok_digits(unpad(g, diff), 5);
            assert forall|i: int| 0 <= i < t.len() implies is_printable(#[trigger] t[i]) by {
                if i >= 5 * n {
                    assert(t[i] == g[i - 5 * n]);
                    if i - 5 * n >= diff {
                        assert(unpad(g, diff)[i - 5 * n] == g[i - 5 * n]);
                    }
                }
            }
        }
        if check_groups(t, (t.len() / 5) as int) is Ok {
            lemma_check_groups_printable(t, (t.len() / 5) as int);
        }
    }
}

} // verus!
