//! Unsigned decimal notation in ASCII, most significant digit first.

use vstd::prelude::*;

verus! {

/// The character `0`.
pub const ASCII_ZERO: u8 = 0x30;

/// The character `9`.
pub const ASCII_NINE: u8 = 0x39;

/// Whether `b` is one of the ASCII characters `0` to `9`.
pub open spec fn is_digit(b: u8) -> bool {
    ASCII_ZERO <= b <= ASCII_NINE
}

/// Whether every byte of `s` is a digit.
pub open spec fn all_digits(s: Seq<u8>) -> bool {
    forall|i: int| 0 <= i < s.len() ==> is_digit(#[trigger] s[i])
}

/// The number that the digits `s` denote; leading zeros do not count, and
/// the empty sequence denotes zero.
pub open spec fn decimal_value(s: Seq<u8>) -> nat
    decreases s.len(),
{
    if s.len() == 0 {
        0
    } else {
        10 * decimal_value(s.drop_last()) + (s.last() - ASCII_ZERO) as nat
    }
}

/// Whether `s` is a way to write `n`: one digit or more, with as many
/// leading zeros as one likes.
pub open spec fn is_numeral(s: Seq<u8>, n: nat) -> bool {
    s.len() > 0 && all_digits(s) && decimal_value(s) == n
}

/// The canonical notation of `n`: at least one digit, and no leading zero
/// unless `n` is zero.
pub open spec fn decimal_digits(n: nat) -> Seq<u8>
    decreases n,
{
    if n < 10 {
        seq![(ASCII_ZERO + n) as u8]
    } else {
        decimal_digits(n / 10).push((ASCII_ZERO + n % 10) as u8)
    }
}

/// How many digits stand at the front of `s` before its first byte that is
/// not a digit, or before its end.
pub open spec fn digit_prefix_len(s: Seq<u8>) -> nat
    decreases s.len(),
{
    if s.len() > 0 && is_digit(s[0]) {
        1 + digit_prefix_len(s.drop_first())
    } else {
        0
    }
}

/// The canonical notation is made of digits, is never empty, and starts
/// with `0` only for zero itself.
pub proof fn lemma_decimal_digits_canonical(n: nat)
    ensures
        all_digits(decimal_digits(n)),
        decimal_digits(n).len() >= 1,
        n > 0 ==> decimal_digits(n)[0] != ASCII_ZERO,
        n == 0 ==> decimal_digits(n) == seq![ASCII_ZERO],
    decreases n,
{
    if n >= 10 {
        lemma_decimal_digits_canonical(n / 10);
    }
}

/// Reading the canonical notation of `n` gives `n` back.
pub proof fn lemma_decimal_value_of_digits(n: nat)
    ensures
        decimal_value(decimal_digits(n)) == n,
    decreases n,
{
    let s = decimal_digits(n);
    if n < 10 {
        assert(s.drop_last() =~= Seq::<u8>::empty());
        assert(decimal_value(s.drop_last()) == 0);
    } else {
        lemma_decimal_value_of_digits(n / 10);
        assert(s.drop_last() =~= decimal_digits(n / 10));
    }
}

/// The canonical notation of `n` is a way to write `n`.
pub proof fn lemma_decimal_digits_numeral(n: nat)
    ensures
        is_numeral(decimal_digits(n), n),
{
    lemma_decimal_digits_canonical(n);
    lemma_decimal_value_of_digits(n);
}

/// One more digit at the end multiplies by ten and adds the digit.
pub proof fn lemma_decimal_value_push(s: Seq<u8>, b: u8)
    ensures
        decimal_value(s.push(b)) == 10 * decimal_value(s) + (b - ASCII_ZERO) as nat,
{
    assert(s.push(b).drop_last() =~= s);
}

/// In front of the place that `digit_prefix_len` gives stand digits only,
/// and no digit stands at it.
pub proof fn lemma_digit_prefix(s: Seq<u8>)
    ensures
        digit_prefix_len(s) <= s.len(),
        all_digits(s.take(digit_prefix_len(s) as int)),
        digit_prefix_len(s) < s.len() ==> !is_digit(s[digit_prefix_len(s) as int]),
    decreases s.len(),
{
    if s.len() > 0 && is_digit(s[0]) {
        let t = s.drop_first();
        lemma_digit_prefix(t);
        let n = digit_prefix_len(s) as int;
        assert forall|i: int| 0 <= i < n implies is_digit(#[trigger] s.take(n)[i]) by {
            if i > 0 {
                assert(s.take(n)[i] == t.take(n - 1)[i - 1]);
            }
        }
    }
}

/// `digit_prefix_len` is the one length `n` at which the digits of `s` stop.
pub proof fn lemma_digit_prefix_len(s: Seq<u8>, n: int)
    requires
        0 <= n <= s.len(),
        forall|i: int| 0 <= i < n ==> is_digit(#[trigger] s[i]),
        n < s.len() ==> !is_digit(s[n]),
    ensures
        digit_prefix_len(s) == n,
    decreases n,
{
    if n > 0 {
        let t = s.drop_first();
        assert forall|i: int| 0 <= i < n - 1 implies is_digit(#[trigger] t[i]) by {
            assert(t[i] == s[i + 1]);
        }
        lemma_digit_prefix_len(t, n - 1);
    }
}

/// Appends the canonical decimal notation of `n` to `out`.
pub fn push_decimal(out: &mut Vec<u8>, n: u64)
    ensures
        final(out)@ == old(out)@ + decimal_digits(n as nat),
    decreases n,
{
    if n >= 10 {
        push_decimal(out, n / 10);
    }
    out.push(ASCII_ZERO + (n % 10) as u8);
}

} // verus!
