//! Building and reading frames.
//!
//! Each function here computes, on vectors and slices, what a function of
//! [`crate::wire`] defines on sequences: its contract names that function.

use crate::decimal::{
    decimal_value, is_digit, lemma_digit_prefix_len, push_decimal, ASCII_NINE, ASCII_ZERO,
};
use crate::error::Error;
use crate::laws::lemma_round_trip;
use crate::wire;
use vstd::prelude::*;

verus! {

/// What `r` says in terms of sequences: a value is seen by its view, an
/// error stays as it is.
pub open spec fn result_view<T: View>(r: Result<T, Error>) -> Result<T::V, Error> {
    match r {
        Ok(value) => Ok(value@),
        Err(e) => Err(e),
    }
}

/// Wraps a serialized LMCP message in sentinels for a byte stream, and
/// takes such a frame apart again.
///
/// The sentinelizer keeps no state: it only names the protocol's constants
/// and functions.
pub struct LmcpSentinelizer;

impl LmcpSentinelizer {
    /// Stands before the length field: `+=+=+=+=`.
    pub const BEFORE_PAYLOAD_SIZE: [u8; 8] = [43, 61, 43, 61, 43, 61, 43, 61];

    /// Stands between the length field and the payload: `#@#@#@#@`.
    pub const AFTER_PAYLOAD_SIZE: [u8; 8] = [35, 64, 35, 64, 35, 64, 35, 64];

    /// Stands between the payload and the checksum field: `!%!%!%!%`.
    pub const BEFORE_CHECKSUM: [u8; 8] = [33, 37, 33, 37, 33, 37, 33, 37];

    /// Stands behind the checksum field and ends the frame: `?^?^?^?^`.
    pub const AFTER_CHECKSUM: [u8; 8] = [63, 94, 63, 94, 63, 94, 63, 94];

    /// Every sentinel is this long.
    pub const SENTINEL_LEN: usize = 8;

    /// The digits that a length or a checksum usually takes.
    pub const NUM_AS_STRING_LEN: usize = 5;

    /// What a frame usually adds to its payload: four sentinels and the two
    /// decimal fields.
    pub const SENTINEL_OVERHEAD: usize = 4 * Self::SENTINEL_LEN + 2 * Self::NUM_AS_STRING_LEN;

    /// Calculate checksum over data: the sum of its bytes, wrapping at 32
    /// bits.
    pub fn calculate_checksum(data: &[u8]) -> (sum: u32)
        ensures
            sum == wire::checksum(data@),
    {
        let mut sum: u32 = 0;
        let mut i: usize = 0;
        while i < data.len()
            invariant
                i <= data@.len(),
                sum as nat == wire::byte_sum(data@.take(i as int)) % 0x1_0000_0000,
            decreases data@.len() - i,
        {
            assert(data@.take(i + 1).drop_last() =~= data@.take(i as int));
            sum = sum.wrapping_add(data[i] as u32);
            i += 1;
        }
        assert(data@.take(i as int) =~= data@);
        sum
    }

    /// Add sentinel strings to the payload.
    ///
    /// The frame holds, in this order: `BEFORE_PAYLOAD_SIZE`, the length of
    /// `data` in decimal, `AFTER_PAYLOAD_SIZE`, `data` itself,
    /// `BEFORE_CHECKSUM`, the checksum of `data` in decimal, and
    /// `AFTER_CHECKSUM`. A payload whose length fits in 32 bits is read back
    /// from its frame by `parse_sentinelized_stream`.
    pub fn create_sentinelized_stream(data: &[u8]) -> (msg: Vec<u8>)
        ensures
            msg@ == wire::frame(data@),
            data@.len() <= u32::MAX ==> wire::parse(msg@) == Ok::<Seq<u8>, Error>(data@),
    {
        proof {
            if data@.len() <= u32::MAX {
                lemma_round_trip(data@);
            }
        }
        let mut msg: Vec<u8> = match data.len().checked_add(Self::SENTINEL_OVERHEAD) {
            Some(capacity) => Vec::with_capacity(capacity),
            None => Vec::new(),
        };
        let checksum = Self::calculate_checksum(data);

        msg.extend_from_slice(&Self::BEFORE_PAYLOAD_SIZE);
        push_decimal(&mut msg, data.len() as u64);
        msg.extend_from_slice(&Self::AFTER_PAYLOAD_SIZE);
        msg.extend_from_slice(data);
        msg.extend_from_slice(&Self::BEFORE_CHECKSUM);
        push_decimal(&mut msg, checksum as u64);
        msg.extend_from_slice(&Self::AFTER_CHECKSUM);

        assert(msg@ =~= wire::frame(data@));
        msg
    }

    /// Compare the transmitted checksum with the payload's own:
    /// `ChecksumVerifyError` where they differ.
    pub fn verify_checksum(payload: &[u8], chksum: u32) -> (r: Result<(), Error>)
        ensures
            r == wire::checksum_verdict(payload@, chksum),
    {
        if chksum == Self::calculate_checksum(payload) {
            Ok(())
        } else {
            Err(Error::ChecksumVerifyError)
        }
    }

    /// Check if the sentinel is at the beginning of the data, and return the
    /// rest of the buffer.
    ///
    /// The first byte that differs from the sentinel's gives
    /// `SentinelNotFound`. A buffer that ends before any byte differs and
    /// before the sentinel is complete gives `MalformedFrame`.
    pub fn check_sentinel(data: Vec<u8>, sentinel: &[u8]) -> (r: Result<Vec<u8>, Error>)
        ensures
            result_view(r) == wire::expect_sentinel(data@, sentinel@),
    {
        let mut i: usize = 0;
        while i < sentinel.len()
            invariant
                i <= sentinel@.len(),
                i <= data@.len(),
                data@.take(i as int) == sentinel@.take(i as int),
            decreases sentinel@.len() - i,
        {
            if i >= data.len() {
                assert(data@ =~= data@.take(i as int));
                return Err(Error::MalformedFrame);
            }
            if data[i] != sentinel[i] {
                proof {
                    wire::lemma_expect_sentinel_differs(data@, sentinel@, i as int);
                }
                return Err(Error::SentinelNotFound);
            }
            assert(data@.take(i + 1) =~= data@.take(i as int).push(data@[i as int]));
            assert(sentinel@.take(i + 1) =~= sentinel@.take(i as int).push(sentinel@[i as int]));
            i += 1;
        }
        assert(sentinel@ =~= sentinel@.take(i as int));
        let mut data = data;
        let rest = data.split_off(sentinel.len());
        Ok(rest)
    }

    /// Return payload bytes and the rest of the buffer, or `MalformedFrame`
    /// where the buffer holds fewer than `len` bytes.
    pub fn get_payload(data: Vec<u8>, len: usize) -> (r: Result<(Vec<u8>, Vec<u8>), Error>)
        ensures
            result_view(r) == wire::payload_field(data@, len as nat),
    {
        let mut data = data;
        if data.len() < len {
            return Err(Error::MalformedFrame);
        }
        let rest = data.split_off(len);
        Ok((data, rest))
    }

    /// Find numeric value, encoded between sentinel bytes, and return it with
    /// the rest of the buffer.
    ///
    /// The value is made of all the ASCII digits at the front of the buffer.
    /// No digit there, or a value above `u32::MAX`, gives `MalformedFrame`.
    pub fn get_numeric_val(data: Vec<u8>) -> (r: Result<(u32, Vec<u8>), Error>)
        ensures
            result_view(r) == wire::numeric_field(data@),
    {
        let mut val: u64 = 0;
        let mut fits = true;
        let mut i: usize = 0;
        while i < data.len() && ASCII_ZERO <= data[i] && data[i] <= ASCII_NINE
            invariant
                i <= data@.len(),
                forall|k: int| 0 <= k < i ==> is_digit(#[trigger] data@[k]),
                fits ==> val == decimal_value(data@.take(i as int)) && val <= u32::MAX,
                !fits ==> decimal_value(data@.take(i as int)) > u32::MAX,
            decreases data@.len() - i,
        {
            assert(data@.take(i + 1).drop_last() =~= data@.take(i as int));
            // a value that has left the range never comes back into it, but
            // the digits behind it still belong to the field
            if fits {
                val = val * 10 + (data[i] - ASCII_ZERO) as u64;
                if val > u32::MAX as u64 {
                    fits = false;
                }
            }
            i += 1;
        }
        proof {
            lemma_digit_prefix_len(data@, i as int);
        }
        if i == 0 || !fits {
            return Err(Error::MalformedFrame);
        }
        let mut data = data;
        let rest = data.split_off(i);
        Ok((val as u32, rest))
    }

    /// Process sentinelized data and return payload.
    ///
    /// One frame is read from the front of `data`, field by field, and the
    /// first field that is not as it must be decides the error:
    /// `SentinelNotFound` for a sentinel with a wrong byte, `MalformedFrame`
    /// for a buffer that ends too early and for a decimal field that is
    /// empty or above `u32::MAX`. `ChecksumVerifyError` comes last, for a
    /// frame that is complete but whose checksum field is not the checksum
    /// of its payload. Bytes behind the frame are ignored.
    pub fn parse_sentinelized_stream(data: Vec<u8>) -> (r: Result<Vec<u8>, Error>)
        ensures
            result_view(r) == wire::parse(data@),
            r matches Ok(payload) ==> payload@.len() == decimal_value(wire::length_field(data@)),
    {
        let data = match Self::check_sentinel(data, &Self::BEFORE_PAYLOAD_SIZE) {
            Ok(rest) => rest,
            Err(e) => return Err(e),
        };
        let (len, data) = match Self::get_numeric_val(data) {
            Ok(found) => found,
            Err(e) => return Err(e),
        };
        let data = match Self::check_sentinel(data, &Self::AFTER_PAYLOAD_SIZE) {
            Ok(rest) => rest,
            Err(e) => return Err(e),
        };
        let (payload, data) = match Self::get_payload(data, len as usize) {
            Ok(found) => found,
            Err(e) => return Err(e),
        };
        let data = match Self::check_sentinel(data, &Self::BEFORE_CHECKSUM) {
            Ok(rest) => rest,
            Err(e) => return Err(e),
        };
        let (checksum, data) = match Self::get_numeric_val(data) {
            Ok(found) => found,
            Err(e) => return Err(e),
        };
        match Self::check_sentinel(data, &Self::AFTER_CHECKSUM) {
            Ok(_) => {},
            Err(e) => return Err(e),
        }
        match Self::verify_checksum(&payload, checksum) {
            Ok(_) => Ok(payload),
            Err(e) => Err(e),
        }
    }
}

} // verus!
