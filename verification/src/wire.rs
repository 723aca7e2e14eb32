//! The wire format, as functions on byte sequences.
//!
//! A frame is read from left to right, one field after the other. Each step
//! here takes the bytes that are left and gives what it read together with
//! the bytes behind it, or the error at which reading stops.

use crate::decimal::{
    all_digits, decimal_digits, decimal_value, digit_prefix_len, is_digit, is_numeral,
    lemma_digit_prefix, lemma_digit_prefix_len,
};
use crate::error::Error;
use crate::sentinelizer::LmcpSentinelizer;
use vstd::prelude::*;

verus! {

/// The sum of the bytes of `s`, as a number without bound.
pub open spec fn byte_sum(s: Seq<u8>) -> nat
    decreases s.len(),
{
    if s.len() == 0 {
        0
    } else {
        byte_sum(s.drop_last()) + s.last() as nat
    }
}

/// The checksum of a payload: the sum of its bytes modulo 2^32.
pub open spec fn checksum(payload: Seq<u8>) -> u32 {
    (byte_sum(payload) % 0x1_0000_0000) as u32
}

/// The bytes of a frame with `length_digits` as its length field and
/// `sum_digits` as its checksum field, whatever `payload` holds.
pub open spec fn layout(length_digits: Seq<u8>, payload: Seq<u8>, sum_digits: Seq<u8>) -> Seq<u8> {
    LmcpSentinelizer::BEFORE_PAYLOAD_SIZE@ + length_digits + LmcpSentinelizer::AFTER_PAYLOAD_SIZE@
        + payload + LmcpSentinelizer::BEFORE_CHECKSUM@ + sum_digits
        + LmcpSentinelizer::AFTER_CHECKSUM@
}

/// The frame that carries `payload`: its length and its checksum stand in
/// canonical decimal notation.
pub open spec fn frame(payload: Seq<u8>) -> Seq<u8> {
    layout(
        decimal_digits(payload.len()),
        payload,
        decimal_digits(checksum(payload) as nat),
    )
}

/// Reads `sentinel` off the front of `data`.
///
/// A byte of `data` that differs from the sentinel's byte at its place is
/// `SentinelNotFound`. Where no byte differs but `data` ends before the
/// sentinel does, the buffer is cut short: `MalformedFrame`.
pub open spec fn expect_sentinel(data: Seq<u8>, sentinel: Seq<u8>) -> Result<Seq<u8>, Error> {
    if sentinel.is_prefix_of(data) {
        Ok(data.skip(sentinel.len() as int))
    } else if data.is_prefix_of(sentinel) {
        Err(Error::MalformedFrame)
    } else {
        Err(Error::SentinelNotFound)
    }
}

/// Reads a decimal field off the front of `data`: all the digits that stand
/// there. The field must hold a digit, and its value must fit in 32 bits.
pub open spec fn numeric_field(data: Seq<u8>) -> Result<(u32, Seq<u8>), Error> {
    let n = digit_prefix_len(data) as int;
    let value = decimal_value(data.take(n));
    if n == 0 || value > u32::MAX {
        Err(Error::MalformedFrame)
    } else {
        Ok((value as u32, data.skip(n)))
    }
}

/// Reads `len` bytes of payload off the front of `data`.
pub open spec fn payload_field(data: Seq<u8>, len: nat) -> Result<(Seq<u8>, Seq<u8>), Error> {
    if data.len() < len {
        Err(Error::MalformedFrame)
    } else {
        Ok((data.take(len as int), data.skip(len as int)))
    }
}

/// Holds the transmitted checksum against the payload.
pub open spec fn checksum_verdict(payload: Seq<u8>, chksum: u32) -> Result<(), Error> {
    if chksum == checksum(payload) {
        Ok(())
    } else {
        Err(Error::ChecksumVerifyError)
    }
}

/// Reads what stands behind the payload: the third sentinel, the checksum
/// field and the last sentinel. Then, and only then, the checksum is held
/// against `payload`. Bytes behind the last sentinel are not looked at.
pub open spec fn parse_trailer(payload: Seq<u8>, data: Seq<u8>) -> Result<Seq<u8>, Error> {
    match expect_sentinel(data, LmcpSentinelizer::BEFORE_CHECKSUM@) {
        Err(e) => Err(e),
        Ok(data) => match numeric_field(data) {
            Err(e) => Err(e),
            Ok((chksum, data)) => match expect_sentinel(data, LmcpSentinelizer::AFTER_CHECKSUM@) {
                Err(e) => Err(e),
                Ok(_) => match checksum_verdict(payload, chksum) {
                    Err(e) => Err(e),
                    Ok(_) => Ok(payload),
                },
            },
        },
    }
}

/// Reads the one frame at the front of `data` and gives its payload.
///
/// The fields are read in their order, and the first step that fails decides
/// the error: the first sentinel, the length field, the second sentinel, as
/// many bytes of payload as the length field says, and then the trailer.
pub open spec fn parse(data: Seq<u8>) -> Result<Seq<u8>, Error> {
    match expect_sentinel(data, LmcpSentinelizer::BEFORE_PAYLOAD_SIZE@) {
        Err(e) => Err(e),
        Ok(data) => match numeric_field(data) {
            Err(e) => Err(e),
            Ok((len, data)) => match expect_sentinel(data, LmcpSentinelizer::AFTER_PAYLOAD_SIZE@) {
                Err(e) => Err(e),
                Ok(data) => match payload_field(data, len as nat) {
                    Err(e) => Err(e),
                    Ok((payload, data)) => parse_trailer(payload, data),
                },
            },
        },
    }
}

/// The digits of the length field of `data`, where `data` starts with the
/// first sentinel.
pub open spec fn length_field(data: Seq<u8>) -> Seq<u8> {
    let body = data.skip(LmcpSentinelizer::BEFORE_PAYLOAD_SIZE@.len() as int);
    body.take(digit_prefix_len(body) as int)
}

/// A sentinel that stands at the front is read, and what follows it is left.
pub proof fn lemma_expect_sentinel_present(sentinel: Seq<u8>, rest: Seq<u8>)
    ensures
        expect_sentinel(sentinel + rest, sentinel) == Ok::<Seq<u8>, Error>(rest),
{
    let data = sentinel + rest;
    assert(data.subrange(0, sentinel.len() as int) =~= sentinel);
    assert(data.skip(sentinel.len() as int) =~= rest);
}

/// A buffer from which a sentinel is read starts with that sentinel.
pub proof fn lemma_expect_sentinel_found(data: Seq<u8>, sentinel: Seq<u8>)
    ensures
        expect_sentinel(data, sentinel) matches Ok(rest) ==> data == sentinel + rest,
{
    if sentinel.is_prefix_of(data) {
        assert(data =~= sentinel + data.skip(sentinel.len() as int));
    }
}

/// A buffer that ends inside the sentinel, with every byte right so far, is
/// cut short.
pub proof fn lemma_expect_sentinel_cut(sentinel: Seq<u8>, n: int)
    requires
        0 <= n < sentinel.len(),
    ensures
        expect_sentinel(sentinel.take(n), sentinel) == Err::<Seq<u8>, Error>(
            Error::MalformedFrame,
        ),
{
    assert(sentinel.take(n) =~= sentinel.subrange(0, sentinel.take(n).len() as int));
}

/// One byte that differs from the sentinel's is enough for
/// `SentinelNotFound`, however short the buffer.
pub proof fn lemma_expect_sentinel_differs(data: Seq<u8>, sentinel: Seq<u8>, k: int)
    requires
        0 <= k < data.len(),
        k < sentinel.len(),
        data[k] != sentinel[k],
    ensures
        expect_sentinel(data, sentinel) == Err::<Seq<u8>, Error>(Error::SentinelNotFound),
{
    if sentinel.len() <= data.len() {
        assert(data.subrange(0, sentinel.len() as int)[k] == data[k]);
    }
    if data.len() <= sentinel.len() {
        assert(sentinel.subrange(0, data.len() as int)[k] == sentinel[k]);
    }
}

/// A decimal field ends where the digits end: in front of a byte that is no
/// digit, or at the end of the buffer.
pub proof fn lemma_numeric_field(token: Seq<u8>, rest: Seq<u8>)
    requires
        all_digits(token),
        rest.len() > 0 ==> !is_digit(rest[0]),
    ensures
        numeric_field(token + rest) == if token.len() == 0 || decimal_value(token) > u32::MAX {
            Err::<(u32, Seq<u8>), Error>(Error::MalformedFrame)
        } else {
            Ok((decimal_value(token) as u32, rest))
        },
{
    let data = token + rest;
    assert forall|i: int| 0 <= i < token.len() implies is_digit(#[trigger] data[i]) by {
        assert(data[i] == token[i]);
    }
    if rest.len() > 0 {
        assert(data[token.len() as int] == rest[0]);
    }
    lemma_digit_prefix_len(data, token.len() as int);
    assert(data.take(token.len() as int) =~= token);
    assert(data.skip(token.len() as int) =~= rest);
}

/// A buffer from which a decimal field is read starts with a way to write
/// the value that was read.
pub proof fn lemma_numeric_field_found(data: Seq<u8>)
    ensures
        numeric_field(data) matches Ok((value, rest)) ==> {
            let digits = data.take(digit_prefix_len(data) as int);
            is_numeral(digits, value as nat) && data == digits + rest
        },
{
    lemma_digit_prefix(data);
    let n = digit_prefix_len(data) as int;
    assert(data =~= data.take(n) + data.skip(n));
}

/// A buffer from which a payload is read starts with that payload, which is
/// as long as was asked for.
pub proof fn lemma_payload_field_found(data: Seq<u8>, len: nat)
    ensures
        payload_field(data, len) matches Ok((payload, rest)) ==> payload.len() == len && data
            == payload + rest,
{
    if data.len() >= len {
        assert(data =~= data.take(len as int) + data.skip(len as int));
    }
}

/// A payload is read by its length alone, whatever bytes it holds.
pub proof fn lemma_payload_field(payload: Seq<u8>, rest: Seq<u8>)
    ensures
        payload_field(payload + rest, payload.len()) == Ok::<(Seq<u8>, Seq<u8>), Error>(
            (payload, rest),
        ),
{
    let data = payload + rest;
    assert(data.take(payload.len() as int) =~= payload);
    assert(data.skip(payload.len() as int) =~= rest);
}

} // verus!
