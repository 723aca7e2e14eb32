//! One changed byte in a sentinel of a frame.

use crate::decimal::{
    decimal_digits, is_digit, lemma_decimal_digits_numeral, lemma_decimal_value_push, ASCII_ZERO,
};
use crate::error::Error;
use crate::laws::{lemma_parse_with_tail, with_tail};
use crate::sentinelizer::LmcpSentinelizer;
use crate::wire::{
    checksum, frame, lemma_expect_sentinel_differs, lemma_expect_sentinel_present,
    lemma_numeric_field, parse,
};
use vstd::prelude::*;

verus! {

/// Whether `i` is the place of a sentinel's byte in `frame(payload)`.
pub open spec fn is_sentinel_place(payload: Seq<u8>, i: int) -> bool {
    let second = 8 + decimal_digits(payload.len()).len();
    let third = second + 8 + payload.len();
    let fourth = third + 8 + decimal_digits(checksum(payload) as nat).len();
    ||| 0 <= i < 8
    ||| second <= i < second + 8
    ||| third <= i < third + 8
    ||| fourth <= i < fourth + 8
}

/// Whether `b`, written at place `i` of `frame(payload)`, is a digit that
/// takes the place of the first byte behind a decimal field and so makes
/// that field one digit longer than 32 bits can hold.
pub open spec fn outgrows_field(payload: Seq<u8>, i: int, b: u8) -> bool {
    let second = 8 + decimal_digits(payload.len()).len();
    let third = second + 8 + payload.len();
    let fourth = third + 8 + decimal_digits(checksum(payload) as nat).len();
    is_digit(b) && {
        ||| i == second && 10 * payload.len() + (b - ASCII_ZERO) > u32::MAX
        ||| i == fourth && 10 * checksum(payload) + (b - ASCII_ZERO) > u32::MAX
    }
}

/// The sentinels of a frame stand where `is_sentinel_place` says.
proof fn lemma_sentinel_places(payload: Seq<u8>, j: int)
    requires
        0 <= j < 8,
    ensures
        ({
            let second = 8 + decimal_digits(payload.len()).len();
            let third = second + 8 + payload.len();
            let fourth = third + 8 + decimal_digits(checksum(payload) as nat).len();
            &&& frame(payload).len() == fourth + 8
            &&& frame(payload)[j] == LmcpSentinelizer::BEFORE_PAYLOAD_SIZE@[j]
            &&& frame(payload)[second + j] == LmcpSentinelizer::AFTER_PAYLOAD_SIZE@[j]
            &&& frame(payload)[third + j] == LmcpSentinelizer::BEFORE_CHECKSUM@[j]
            &&& frame(payload)[fourth + j] == LmcpSentinelizer::AFTER_CHECKSUM@[j]
        }),
{
}

/// A changed byte in the first sentinel is met at once.
proof fn lemma_first_sentinel_changed(payload: Seq<u8>, j: int, b: u8)
    requires
        0 <= j < 8,
        b != LmcpSentinelizer::BEFORE_PAYLOAD_SIZE@[j],
    ensures
        parse(frame(payload).update(j, b)) == Err::<Seq<u8>, Error>(Error::SentinelNotFound),
{
    lemma_expect_sentinel_differs(
        frame(payload).update(j, b),
        LmcpSentinelizer::BEFORE_PAYLOAD_SIZE@,
        j,
    );
}

/// A digit in the place of the first byte of the second sentinel is read
/// as one more digit of the length field.
proof fn lemma_second_sentinel_turned_digit(payload: Seq<u8>, b: u8)
    requires
        payload.len() <= u32::MAX,
        is_digit(b),
    ensures
        parse(frame(payload).update(8 + decimal_digits(payload.len()).len() as int, b)) == if 10
            * payload.len() + (b - ASCII_ZERO) > u32::MAX {
            Err::<Seq<u8>, Error>(Error::MalformedFrame)
        } else {
            Err(Error::SentinelNotFound)
        },
{
    let s2 = LmcpSentinelizer::AFTER_PAYLOAD_SIZE@;
    let length_digits = decimal_digits(payload.len());
    let token = length_digits.push(b);
    let rest = s2.skip(1) + (payload + (LmcpSentinelizer::BEFORE_CHECKSUM@ + (decimal_digits(
        checksum(payload) as nat,
    ) + LmcpSentinelizer::AFTER_CHECKSUM@)));
    assert(frame(payload).update(8 + length_digits.len() as int, b)
        =~= LmcpSentinelizer::BEFORE_PAYLOAD_SIZE@ + (token + rest));

    lemma_decimal_digits_numeral(payload.len());
    lemma_decimal_value_push(length_digits, b);
    lemma_expect_sentinel_present(LmcpSentinelizer::BEFORE_PAYLOAD_SIZE@, token + rest);
    assert(rest[0] == s2[1]);
    lemma_numeric_field(token, rest);
    lemma_expect_sentinel_differs(rest, s2, 0);
}

/// Any other change in the second sentinel leaves the length field as it
/// was, and the sentinel behind it is not found.
proof fn lemma_second_sentinel_changed(payload: Seq<u8>, j: int, b: u8)
    requires
        payload.len() <= u32::MAX,
        0 <= j < 8,
        b != LmcpSentinelizer::AFTER_PAYLOAD_SIZE@[j],
        !(j == 0 && is_digit(b)),
    ensures
        parse(frame(payload).update(8 + decimal_digits(payload.len()).len() + j, b)) == Err::<
            Seq<u8>,
            Error,
        >(Error::SentinelNotFound),
{
    let s2 = LmcpSentinelizer::AFTER_PAYLOAD_SIZE@;
    let length_digits = decimal_digits(payload.len());
    let changed = s2.update(j, b);
    let rest = changed + (payload + (LmcpSentinelizer::BEFORE_CHECKSUM@ + (decimal_digits(
        checksum(payload) as nat,
    ) + LmcpSentinelizer::AFTER_CHECKSUM@)));
    assert(frame(payload).update(8 + length_digits.len() + j, b)
        =~= LmcpSentinelizer::BEFORE_PAYLOAD_SIZE@ + (length_digits + rest));

    lemma_decimal_digits_numeral(payload.len());
    lemma_expect_sentinel_present(LmcpSentinelizer::BEFORE_PAYLOAD_SIZE@, length_digits + rest);
    assert(rest[0] == changed[0]);
    assert(rest[j] == changed[j]);
    lemma_numeric_field(length_digits, rest);
    lemma_expect_sentinel_differs(rest, s2, j);
}

/// A changed byte in the third sentinel is met once the payload has been
/// read.
proof fn lemma_third_sentinel_changed(payload: Seq<u8>, j: int, b: u8)
    requires
        payload.len() <= u32::MAX,
        0 <= j < 8,
        b != LmcpSentinelizer::BEFORE_CHECKSUM@[j],
    ensures
        parse(
            frame(payload).update(16 + decimal_digits(payload.len()).len() + payload.len() + j, b),
        ) == Err::<Seq<u8>, Error>(Error::SentinelNotFound),
{
    let s3 = LmcpSentinelizer::BEFORE_CHECKSUM@;
    let length_digits = decimal_digits(payload.len());
    let changed = s3.update(j, b);
    let tail = changed + (decimal_digits(checksum(payload) as nat)
        + LmcpSentinelizer::AFTER_CHECKSUM@);
    assert(frame(payload).update(16 + length_digits.len() + payload.len() + j, b) =~= with_tail(
        length_digits,
        payload,
        tail,
    ));
    lemma_decimal_digits_numeral(payload.len());
    lemma_parse_with_tail(length_digits, payload, tail);
    assert(tail[j] == changed[j]);
    lemma_expect_sentinel_differs(tail, s3, j);
}

/// A digit in the place of the first byte of the last sentinel is read as
/// one more digit of the checksum field, and the seven bytes that are left
/// start with the sentinel's second byte.
proof fn lemma_fourth_sentinel_turned_digit(payload: Seq<u8>, b: u8)
    requires
        payload.len() <= u32::MAX,
        is_digit(b),
    ensures
        parse(
            frame(payload).update(
                24 + decimal_digits(payload.len()).len() + payload.len() + decimal_digits(
                    checksum(payload) as nat,
                ).len() as int,
                b,
            ),
        ) == if 10 * checksum(payload) + (b - ASCII_ZERO) > u32::MAX {
            Err::<Seq<u8>, Error>(Error::MalformedFrame)
        } else {
            Err(Error::SentinelNotFound)
        },
{
    let s3 = LmcpSentinelizer::BEFORE_CHECKSUM@;
    let s4 = LmcpSentinelizer::AFTER_CHECKSUM@;
    let length_digits = decimal_digits(payload.len());
    let sum_digits = decimal_digits(checksum(payload) as nat);
    let token = sum_digits.push(b);
    let rest = s4.skip(1);
    let tail = s3 + (token + rest);
    assert(frame(payload).update(
        24 + length_digits.len() + payload.len() + sum_digits.len() as int,
        b,
    ) =~= with_tail(length_digits, payload, tail));
    lemma_decimal_digits_numeral(payload.len());
    lemma_parse_with_tail(length_digits, payload, tail);

    lemma_decimal_digits_numeral(checksum(payload) as nat);
    lemma_decimal_value_push(sum_digits, b);
    lemma_expect_sentinel_present(s3, token + rest);
    lemma_numeric_field(token, rest);
    lemma_expect_sentinel_differs(rest, s4, 0);
}

/// Any other change in the last sentinel leaves the checksum field as it
/// was, and the sentinel behind it is not found.
proof fn lemma_fourth_sentinel_changed(payload: Seq<u8>, j: int, b: u8)
    requires
        payload.len() <= u32::MAX,
        0 <= j < 8,
        b != LmcpSentinelizer::AFTER_CHECKSUM@[j],
        !(j == 0 && is_digit(b)),
    ensures
        parse(
            frame(payload).update(
                24 + decimal_digits(payload.len()).len() + payload.len() + decimal_digits(
                    checksum(payload) as nat,
                ).len() + j,
                b,
            ),
        ) == Err::<Seq<u8>, Error>(Error::SentinelNotFound),
{
    let s3 = LmcpSentinelizer::BEFORE_CHECKSUM@;
    let s4 = LmcpSentinelizer::AFTER_CHECKSUM@;
    let length_digits = decimal_digits(payload.len());
    let sum_digits = decimal_digits(checksum(payload) as nat);
    let changed = s4.update(j, b);
    let tail = s3 + (sum_digits + changed);
    assert(frame(payload).update(
        24 + length_digits.len() + payload.len() + sum_digits.len() + j,
        b,
    ) =~= with_tail(length_digits, payload, tail));
    lemma_decimal_digits_numeral(payload.len());
    lemma_parse_with_tail(length_digits, payload, tail);

    lemma_decimal_digits_numeral(checksum(payload) as nat);
    lemma_expect_sentinel_present(s3, sum_digits + changed);
    lemma_numeric_field(sum_digits, changed);
    lemma_expect_sentinel_differs(changed, s4, j);
}

/// Sentinel integrity: another byte in the place of any byte of any of the
/// four sentinels of a frame has the frame refused with `SentinelNotFound`.
///
/// Left out is one kind of change: a digit in the place of the first byte of
/// the sentinel behind a decimal field, which lengthens that field beyond 32
/// bits. See `lemma_sentinel_turned_digit`.
pub proof fn lemma_sentinel_integrity(payload: Seq<u8>, i: int, b: u8)
    requires
        payload.len() <= u32::MAX,
        is_sentinel_place(payload, i),
        b != frame(payload)[i],
        !outgrows_field(payload, i, b),
    ensures
        parse(frame(payload).update(i, b)) == Err::<Seq<u8>, Error>(Error::SentinelNotFound),
{
    let second = 8 + decimal_digits(payload.len()).len();
    let third = second + 8 + payload.len();
    let fourth = third + 8 + decimal_digits(checksum(payload) as nat).len();
    if i < 8 {
        lemma_sentinel_places(payload, i);
        lemma_first_sentinel_changed(payload, i, b);
    } else if i < second + 8 {
        lemma_sentinel_places(payload, i - second);
        if i == second && is_digit(b) {
            lemma_second_sentinel_turned_digit(payload, b);
        } else {
            lemma_second_sentinel_changed(payload, i - second, b);
        }
    } else if i < third + 8 {
        lemma_sentinel_places(payload, i - third);
        lemma_third_sentinel_changed(payload, i - third, b);
    } else {
        lemma_sentinel_places(payload, i - fourth);
        if i == fourth && is_digit(b) {
            lemma_fourth_sentinel_turned_digit(payload, b);
        } else {
            lemma_fourth_sentinel_changed(payload, i - fourth, b);
        }
    }
}

/// The change that `lemma_sentinel_integrity` leaves out is refused too, as
/// a decimal field that does not fit: `MalformedFrame`.
pub proof fn lemma_sentinel_turned_digit(payload: Seq<u8>, i: int, b: u8)
    requires
        payload.len() <= u32::MAX,
        outgrows_field(payload, i, b),
    ensures
        parse(frame(payload).update(i, b)) == Err::<Seq<u8>, Error>(Error::MalformedFrame),
{
    if i == 8 + decimal_digits(payload.len()).len() {
        lemma_second_sentinel_turned_digit(payload, b);
    } else {
        lemma_fourth_sentinel_turned_digit(payload, b);
    }
}

} // verus!
