//! A frame that is cut short.

use crate::decimal::{decimal_digits, lemma_decimal_digits_canonical, lemma_decimal_digits_numeral};
use crate::error::Error;
use crate::laws::{lemma_parse_with_tail, with_tail};
use crate::sentinelizer::LmcpSentinelizer;
use crate::wire::{
    checksum, frame, lemma_expect_sentinel_cut, lemma_expect_sentinel_present,
    lemma_numeric_field, parse,
};
use vstd::prelude::*;

verus! {

/// A cut inside the first sentinel.
proof fn lemma_cut_in_first_sentinel(payload: Seq<u8>, k: int)
    requires
        0 <= k < 8,
    ensures
        parse(frame(payload).take(k)) == Err::<Seq<u8>, Error>(Error::MalformedFrame),
{
    let s1 = LmcpSentinelizer::BEFORE_PAYLOAD_SIZE@;
    assert(frame(payload).take(k) =~= s1.take(k));
    lemma_expect_sentinel_cut(s1, k);
}

/// A cut inside the length field, or in front of it: the digits that are
/// left, if any, run up to the end of the buffer, where the second sentinel
/// is missing.
proof fn lemma_cut_in_length_field(payload: Seq<u8>, k: int)
    requires
        0 <= k < decimal_digits(payload.len()).len(),
    ensures
        parse(frame(payload).take(8 + k)) == Err::<Seq<u8>, Error>(Error::MalformedFrame),
{
    let s1 = LmcpSentinelizer::BEFORE_PAYLOAD_SIZE@;
    let s2 = LmcpSentinelizer::AFTER_PAYLOAD_SIZE@;
    let empty = Seq::<u8>::empty();
    let token = decimal_digits(payload.len()).take(k);
    assert(frame(payload).take(8 + k) =~= s1 + (token + empty));
    lemma_decimal_digits_canonical(payload.len());
    lemma_expect_sentinel_present(s1, token + empty);
    lemma_numeric_field(token, empty);
    assert(s2.take(0) =~= empty);
    lemma_expect_sentinel_cut(s2, 0);
}

/// A cut inside the second sentinel, or in front of it.
proof fn lemma_cut_in_second_sentinel(payload: Seq<u8>, k: int)
    requires
        payload.len() <= u32::MAX,
        0 <= k < 8,
    ensures
        parse(frame(payload).take(8 + decimal_digits(payload.len()).len() + k)) == Err::<
            Seq<u8>,
            Error,
        >(Error::MalformedFrame),
{
    let s1 = LmcpSentinelizer::BEFORE_PAYLOAD_SIZE@;
    let s2 = LmcpSentinelizer::AFTER_PAYLOAD_SIZE@;
    let length_digits = decimal_digits(payload.len());
    let t2 = s2.take(k);
    assert(frame(payload).take(8 + length_digits.len() + k) =~= s1 + (length_digits + t2));
    lemma_decimal_digits_numeral(payload.len());
    lemma_expect_sentinel_present(s1, length_digits + t2);
    lemma_numeric_field(length_digits, t2);
    lemma_expect_sentinel_cut(s2, k);
}

/// A cut inside the payload, or in front of it: fewer bytes are left than
/// the length field says.
proof fn lemma_cut_in_payload(payload: Seq<u8>, k: int)
    requires
        payload.len() <= u32::MAX,
        0 <= k < payload.len(),
    ensures
        parse(frame(payload).take(16 + decimal_digits(payload.len()).len() + k)) == Err::<
            Seq<u8>,
            Error,
        >(Error::MalformedFrame),
{
    let s1 = LmcpSentinelizer::BEFORE_PAYLOAD_SIZE@;
    let s2 = LmcpSentinelizer::AFTER_PAYLOAD_SIZE@;
    let length_digits = decimal_digits(payload.len());
    let t3 = payload.take(k);
    let t2 = s2 + t3;
    assert(frame(payload).take(16 + length_digits.len() + k) =~= s1 + (length_digits + t2));
    lemma_decimal_digits_numeral(payload.len());
    lemma_expect_sentinel_present(s1, length_digits + t2);
    assert(t2[0] == s2[0]);
    lemma_numeric_field(length_digits, t2);
    lemma_expect_sentinel_present(s2, t3);
}

/// A cut inside the third sentinel, or in front of it.
proof fn lemma_cut_in_third_sentinel(payload: Seq<u8>, k: int)
    requires
        payload.len() <= u32::MAX,
        0 <= k < 8,
    ensures
        parse(frame(payload).take(16 + decimal_digits(payload.len()).len() + payload.len() + k))
            == Err::<Seq<u8>, Error>(Error::MalformedFrame),
{
    let s3 = LmcpSentinelizer::BEFORE_CHECKSUM@;
    let length_digits = decimal_digits(payload.len());
    let tail = s3.take(k);
    assert(frame(payload).take(16 + length_digits.len() + payload.len() + k) =~= with_tail(
        length_digits,
        payload,
        tail,
    ));
    lemma_decimal_digits_numeral(payload.len());
    lemma_parse_with_tail(length_digits, payload, tail);
    lemma_expect_sentinel_cut(s3, k);
}

/// A cut inside the checksum field, or in front of it: whatever the digits
/// that are left say, the last sentinel is missing.
proof fn lemma_cut_in_checksum_field(payload: Seq<u8>, k: int)
    requires
        payload.len() <= u32::MAX,
        0 <= k < decimal_digits(checksum(payload) as nat).len(),
    ensures
        parse(frame(payload).take(24 + decimal_digits(payload.len()).len() + payload.len() + k))
            == Err::<Seq<u8>, Error>(Error::MalformedFrame),
{
    let s3 = LmcpSentinelizer::BEFORE_CHECKSUM@;
    let s4 = LmcpSentinelizer::AFTER_CHECKSUM@;
    let empty = Seq::<u8>::empty();
    let length_digits = decimal_digits(payload.len());
    let token = decimal_digits(checksum(payload) as nat).take(k);
    let tail = s3 + (token + empty);
    assert(frame(payload).take(24 + length_digits.len() + payload.len() + k) =~= with_tail(
        length_digits,
        payload,
        tail,
    ));
    lemma_decimal_digits_numeral(payload.len());
    lemma_parse_with_tail(length_digits, payload, tail);
    lemma_decimal_digits_canonical(checksum(payload) as nat);
    lemma_expect_sentinel_present(s3, token + empty);
    lemma_numeric_field(token, empty);
    assert(s4.take(0) =~= empty);
    lemma_expect_sentinel_cut(s4, 0);
}

/// A cut inside the last sentinel, or in front of it.
proof fn lemma_cut_in_fourth_sentinel(payload: Seq<u8>, k: int)
    requires
        payload.len() <= u32::MAX,
        0 <= k < 8,
    ensures
        parse(
            frame(payload).take(
                24 + decimal_digits(payload.len()).len() + payload.len() + decimal_digits(
                    checksum(payload) as nat,
                ).len() + k,
            ),
        ) == Err::<Seq<u8>, Error>(Error::MalformedFrame),
{
    let s3 = LmcpSentinelizer::BEFORE_CHECKSUM@;
    let s4 = LmcpSentinelizer::AFTER_CHECKSUM@;
    let length_digits = decimal_digits(payload.len());
    let sum_digits = decimal_digits(checksum(payload) as nat);
    let t6 = s4.take(k);
    let tail = s3 + (sum_digits + t6);
    assert(frame(payload).take(24 + length_digits.len() + payload.len() + sum_digits.len() + k)
        =~= with_tail(length_digits, payload, tail));
    lemma_decimal_digits_numeral(payload.len());
    lemma_parse_with_tail(length_digits, payload, tail);
    lemma_decimal_digits_numeral(checksum(payload) as nat);
    lemma_expect_sentinel_present(s3, sum_digits + t6);
    lemma_numeric_field(sum_digits, t6);
    lemma_expect_sentinel_cut(s4, k);
}

/// A frame that is cut short anywhere is refused with `MalformedFrame`.
pub proof fn lemma_truncated_frame(payload: Seq<u8>, n: int)
    requires
        payload.len() <= u32::MAX,
        0 <= n < frame(payload).len(),
    ensures
        parse(frame(payload).take(n)) == Err::<Seq<u8>, Error>(Error::MalformedFrame),
{
    let second = 8 + decimal_digits(payload.len()).len();
    let third = second + 8 + payload.len();
    let fourth = third + 8 + decimal_digits(checksum(payload) as nat).len();
    if n < 8 {
        lemma_cut_in_first_sentinel(payload, n);
    } else if n < second {
        lemma_cut_in_length_field(payload, n - 8);
    } else if n < second + 8 {
        lemma_cut_in_second_sentinel(payload, n - second);
    } else if n < third {
        lemma_cut_in_payload(payload, n - second - 8);
    } else if n < third + 8 {
        lemma_cut_in_third_sentinel(payload, n - third);
    } else if n < fourth {
        lemma_cut_in_checksum_field(payload, n - third - 8);
    } else {
        lemma_cut_in_fourth_sentinel(payload, n - fourth);
    }
}

} // verus!
