//! What holds between building a frame and reading it.
//!
//! Here stand the laws on whole frames. What one changed sentinel byte does
//! is in [`integrity`], what a cut does in [`truncation`].

pub mod integrity;
pub mod truncation;

use crate::decimal::{
    all_digits, decimal_digits, decimal_value, digit_prefix_len, is_digit, is_numeral,
    lemma_decimal_digits_numeral, lemma_digit_prefix_len,
};
use crate::error::Error;
use crate::sentinelizer::LmcpSentinelizer;
use crate::wire::{
    checksum, frame, layout, lemma_expect_sentinel_differs, lemma_expect_sentinel_found,
    lemma_expect_sentinel_present, lemma_numeric_field, lemma_numeric_field_found,
    lemma_payload_field, lemma_payload_field_found, length_field, parse, parse_trailer,
};
use vstd::prelude::*;

verus! {

/// A buffer that holds the first sentinel, `length_digits`, the second
/// sentinel, `payload` and then `tail`.
pub(crate) open spec fn with_tail(
    length_digits: Seq<u8>,
    payload: Seq<u8>,
    tail: Seq<u8>,
) -> Seq<u8> {
    LmcpSentinelizer::BEFORE_PAYLOAD_SIZE@ + (length_digits + (
    LmcpSentinelizer::AFTER_PAYLOAD_SIZE@ + (payload + tail)))
}

/// Where the length field says how long the payload is, such a buffer is
/// read without error up to the end of the payload, and `tail` is what the
/// trailer is read from.
pub(crate) proof fn lemma_parse_with_tail(length_digits: Seq<u8>, payload: Seq<u8>, tail: Seq<u8>)
    requires
        is_numeral(length_digits, payload.len()),
        payload.len() <= u32::MAX,
    ensures
        parse(with_tail(length_digits, payload, tail)) == parse_trailer(payload, tail),
{
    let t3 = payload + tail;
    let t2 = LmcpSentinelizer::AFTER_PAYLOAD_SIZE@ + t3;
    let t1 = length_digits + t2;
    lemma_expect_sentinel_present(LmcpSentinelizer::BEFORE_PAYLOAD_SIZE@, t1);
    assert(t2[0] == LmcpSentinelizer::AFTER_PAYLOAD_SIZE@[0]);
    lemma_numeric_field(length_digits, t2);
    lemma_expect_sentinel_present(LmcpSentinelizer::AFTER_PAYLOAD_SIZE@, t3);
    lemma_payload_field(payload, tail);
}

/// Reading a buffer that starts with a layout whose length field says how
/// long the payload is: the checksum field decides. What follows the layout
/// plays no part.
pub proof fn lemma_parse_layout(
    length_digits: Seq<u8>,
    payload: Seq<u8>,
    sum_digits: Seq<u8>,
    trailing: Seq<u8>,
)
    requires
        is_numeral(length_digits, payload.len()),
        payload.len() <= u32::MAX,
        all_digits(sum_digits),
        sum_digits.len() > 0,
    ensures
        parse(layout(length_digits, payload, sum_digits) + trailing) == if decimal_value(
            sum_digits,
        ) > u32::MAX {
            Err::<Seq<u8>, Error>(Error::MalformedFrame)
        } else if decimal_value(sum_digits) == checksum(payload) {
            Ok(payload)
        } else {
            Err(Error::ChecksumVerifyError)
        },
{
    let t6 = LmcpSentinelizer::AFTER_CHECKSUM@ + trailing;
    let t5 = sum_digits + t6;
    let tail = LmcpSentinelizer::BEFORE_CHECKSUM@ + t5;
    assert(layout(length_digits, payload, sum_digits) + trailing =~= with_tail(
        length_digits,
        payload,
        tail,
    ));
    lemma_parse_with_tail(length_digits, payload, tail);
    lemma_expect_sentinel_present(LmcpSentinelizer::BEFORE_CHECKSUM@, t5);
    assert(t6[0] == LmcpSentinelizer::AFTER_CHECKSUM@[0]);
    lemma_numeric_field(sum_digits, t6);
    lemma_expect_sentinel_present(LmcpSentinelizer::AFTER_CHECKSUM@, trailing);
}

/// Whether `data` starts with a frame around `payload`: the four sentinels
/// in their places, a length field that is a way to write the payload's
/// length, and a checksum field that is a way to write its checksum.
pub open spec fn starts_with_frame(data: Seq<u8>, payload: Seq<u8>) -> bool {
    exists|length_digits: Seq<u8>, sum_digits: Seq<u8>|
        #![trigger layout(length_digits, payload, sum_digits)]
        {
            &&& is_numeral(length_digits, payload.len())
            &&& is_numeral(sum_digits, checksum(payload) as nat)
            &&& layout(length_digits, payload, sum_digits).is_prefix_of(data)
        }
}

/// What a buffer holds up to the end of the payload that is read from it:
/// its length field, the payload and what follows the payload.
proof fn lemma_header_found(data: Seq<u8>) -> (found: (Seq<u8>, Seq<u8>, Seq<u8>))
    requires
        parse(data) is Ok,
    ensures
        data == with_tail(found.0, found.1, found.2),
        is_numeral(found.0, found.1.len()),
        found.1.len() <= u32::MAX,
        parse(data) == parse_trailer(found.1, found.2),
{
    let s1 = LmcpSentinelizer::BEFORE_PAYLOAD_SIZE@;
    let s2 = LmcpSentinelizer::AFTER_PAYLOAD_SIZE@;
    lemma_expect_sentinel_found(data, s1);
    let r1 = data.skip(s1.len() as int);
    lemma_numeric_field_found(r1);
    let length_digits = r1.take(digit_prefix_len(r1) as int);
    let r2 = r1.skip(digit_prefix_len(r1) as int);
    lemma_expect_sentinel_found(r2, s2);
    let r3 = r2.skip(s2.len() as int);
    lemma_payload_field_found(r3, decimal_value(length_digits));
    let payload = r3.take(decimal_value(length_digits) as int);
    let tail = r3.skip(decimal_value(length_digits) as int);
    (length_digits, payload, tail)
}

/// What a buffer holds behind the payload that is read from it: a checksum
/// field that is a way to write the payload's checksum, between the last
/// two sentinels.
proof fn lemma_trailer_found(payload: Seq<u8>, tail: Seq<u8>) -> (sum_digits: Seq<u8>)
    requires
        parse_trailer(payload, tail) is Ok,
    ensures
        parse_trailer(payload, tail) == Ok::<Seq<u8>, Error>(payload),
        is_numeral(sum_digits, checksum(payload) as nat),
        (LmcpSentinelizer::BEFORE_CHECKSUM@ + (sum_digits + LmcpSentinelizer::AFTER_CHECKSUM@))
            .is_prefix_of(tail),
{
    let s3 = LmcpSentinelizer::BEFORE_CHECKSUM@;
    let s4 = LmcpSentinelizer::AFTER_CHECKSUM@;
    lemma_expect_sentinel_found(tail, s3);
    let r5 = tail.skip(s3.len() as int);
    lemma_numeric_field_found(r5);
    let sum_digits = r5.take(digit_prefix_len(r5) as int);
    let r6 = r5.skip(digit_prefix_len(r5) as int);
    lemma_expect_sentinel_found(r6, s4);
    let r7 = r6.skip(s4.len() as int);
    let found = s3 + (sum_digits + s4);
    assert(tail =~= found + r7);
    assert(found =~= tail.subrange(0, found.len() as int));
    sum_digits
}

/// A payload is read from exactly those buffers that start with a frame
/// around it. Its length must fit in 32 bits.
pub proof fn lemma_parse_accepts(data: Seq<u8>, payload: Seq<u8>)
    ensures
        parse(data) == Ok::<Seq<u8>, Error>(payload) <==> payload.len() <= u32::MAX
            && starts_with_frame(data, payload),
{
    if parse(data) == Ok::<Seq<u8>, Error>(payload) {
        let (length_digits, read, tail) = lemma_header_found(data);
        let sum_digits = lemma_trailer_found(read, tail);
        let trailer = LmcpSentinelizer::BEFORE_CHECKSUM@ + (sum_digits
            + LmcpSentinelizer::AFTER_CHECKSUM@);
        let found = layout(length_digits, payload, sum_digits);
        assert(found =~= with_tail(length_digits, payload, trailer));
        assert(found =~= data.subrange(0, found.len() as int));
        assert(found.is_prefix_of(data));
    }
    if payload.len() <= u32::MAX && starts_with_frame(data, payload) {
        let (length_digits, sum_digits) = choose|length_digits: Seq<u8>, sum_digits: Seq<u8>|
            #![trigger layout(length_digits, payload, sum_digits)]
            {
                &&& is_numeral(length_digits, payload.len())
                &&& is_numeral(sum_digits, checksum(payload) as nat)
                &&& layout(length_digits, payload, sum_digits).is_prefix_of(data)
            };
        let found = layout(length_digits, payload, sum_digits);
        let trailing = data.skip(found.len() as int);
        assert(data =~= found + trailing);
        lemma_parse_layout(length_digits, payload, sum_digits, trailing);
    }
}

/// Round trip: reading the frame that was built from a payload gives that
/// payload back. The length field is read as a 32-bit number, so the
/// payload must not be longer than such a number can say.
pub proof fn lemma_round_trip(payload: Seq<u8>)
    requires
        payload.len() <= u32::MAX,
    ensures
        parse(frame(payload)) == Ok::<Seq<u8>, Error>(payload),
{
    lemma_trailing_bytes_ignored(payload, Seq::empty());
    assert(frame(payload) + Seq::<u8>::empty() =~= frame(payload));
}

/// A payload longer than 32 bits can say has a frame that is not read back:
/// its length field does not fit.
pub proof fn lemma_oversized_payload(payload: Seq<u8>)
    requires
        payload.len() > u32::MAX,
    ensures
        parse(frame(payload)) == Err::<Seq<u8>, Error>(Error::MalformedFrame),
{
    let length_digits = decimal_digits(payload.len());
    let t2 = LmcpSentinelizer::AFTER_PAYLOAD_SIZE@ + (payload + (
    LmcpSentinelizer::BEFORE_CHECKSUM@ + (decimal_digits(checksum(payload) as nat)
        + LmcpSentinelizer::AFTER_CHECKSUM@)));
    assert(frame(payload) =~= LmcpSentinelizer::BEFORE_PAYLOAD_SIZE@ + (length_digits + t2));
    lemma_decimal_digits_numeral(payload.len());
    lemma_expect_sentinel_present(LmcpSentinelizer::BEFORE_PAYLOAD_SIZE@, length_digits + t2);
    assert(t2[0] == LmcpSentinelizer::AFTER_PAYLOAD_SIZE@[0]);
    lemma_numeric_field(length_digits, t2);
}

/// Bytes that follow a frame in the buffer do not change what is read.
pub proof fn lemma_trailing_bytes_ignored(payload: Seq<u8>, trailing: Seq<u8>)
    requires
        payload.len() <= u32::MAX,
    ensures
        parse(frame(payload) + trailing) == Ok::<Seq<u8>, Error>(payload),
{
    lemma_decimal_digits_numeral(payload.len());
    lemma_decimal_digits_numeral(checksum(payload) as nat);
    lemma_parse_layout(
        decimal_digits(payload.len()),
        payload,
        decimal_digits(checksum(payload) as nat),
        trailing,
    );
}

/// Checksum sensitivity: a frame that carries the length and the checksum of
/// `payload` around the bytes of `other`, which are as many but add up to
/// another checksum, is refused with `ChecksumVerifyError`.
pub proof fn lemma_checksum_sensitivity(payload: Seq<u8>, other: Seq<u8>)
    requires
        payload.len() > 0,
        payload.len() <= u32::MAX,
        other != payload,
        other.len() == payload.len(),
        checksum(other) != checksum(payload),
    ensures
        parse(
            layout(
                decimal_digits(payload.len()),
                other,
                decimal_digits(checksum(payload) as nat),
            ),
        ) == Err::<Seq<u8>, Error>(Error::ChecksumVerifyError),
{
    let length_digits = decimal_digits(payload.len());
    let sum_digits = decimal_digits(checksum(payload) as nat);
    lemma_decimal_digits_numeral(payload.len());
    lemma_decimal_digits_numeral(checksum(payload) as nat);
    lemma_parse_layout(length_digits, other, sum_digits, Seq::empty());
    let data = layout(length_digits, other, sum_digits);
    assert(data + Seq::<u8>::empty() =~= data);
}

/// A buffer of eight bytes or more that does not start with the first
/// sentinel is refused with `SentinelNotFound`, whatever follows.
pub proof fn lemma_first_sentinel_missing(data: Seq<u8>)
    requires
        data.len() >= 8,
        data.take(8) != LmcpSentinelizer::BEFORE_PAYLOAD_SIZE@,
    ensures
        parse(data) == Err::<Seq<u8>, Error>(Error::SentinelNotFound),
{
    let sentinel = LmcpSentinelizer::BEFORE_PAYLOAD_SIZE@;
    if forall|k: int| 0 <= k < 8 ==> data[k] == sentinel[k] {
        assert(data.take(8) =~= sentinel);
    }
    let k = choose|k: int| 0 <= k < 8 && data[k] != sentinel[k];
    lemma_expect_sentinel_differs(data, sentinel, k);
}

/// Length fidelity on reading: a payload that is read is as long as its
/// frame's length field says.
pub proof fn lemma_length_fidelity(data: Seq<u8>)
    ensures
        parse(data) matches Ok(payload) ==> payload.len() == decimal_value(length_field(data)),
{
}

/// Length fidelity on building: the length field of a frame is the payload's
/// length in canonical notation.
pub proof fn lemma_frame_length_field(payload: Seq<u8>)
    ensures
        length_field(frame(payload)) == decimal_digits(payload.len()),
        decimal_value(length_field(frame(payload))) == payload.len(),
{
    let length_digits = decimal_digits(payload.len());
    let rest = LmcpSentinelizer::AFTER_PAYLOAD_SIZE@ + payload
        + LmcpSentinelizer::BEFORE_CHECKSUM@ + decimal_digits(checksum(payload) as nat)
        + LmcpSentinelizer::AFTER_CHECKSUM@;
    let body = length_digits + rest;
    assert(frame(payload).skip(LmcpSentinelizer::BEFORE_PAYLOAD_SIZE@.len() as int) =~= body);
    lemma_decimal_digits_numeral(payload.len());
    assert forall|i: int| 0 <= i < length_digits.len() implies is_digit(#[trigger] body[i]) by {
        assert(body[i] == length_digits[i]);
    }
    assert(body[length_digits.len() as int] == LmcpSentinelizer::AFTER_PAYLOAD_SIZE@[0]);
    lemma_digit_prefix_len(body, length_digits.len() as int);
    assert(body.take(length_digits.len() as int) =~= length_digits);
}

} // verus!
