use vstd::prelude::*;
use bytes::BytesMut;
use crate::buffer::{buffer_advance, buffer_bytes, buffer_slice};
use crate::decode::{
    decode_frame, expect_frame_length, spec_decode, spec_expect_length, suffix, usize_result,
    ARRAY_PREFIX, BOOLEAN_PREFIX, BULK_STRING_PREFIX, INTEGER_PREFIX, MAP_PREFIX, NULL_PREFIX,
    SET_PREFIX, SIMPLE_ERROR_PREFIX, SIMPLE_STRING_PREFIX,
};
use crate::frame::{
    frame_view, BulkString, FrameV, RespArray, RespError, RespFrame, RespMap, RespNull, RespSet,
    SimpleError, SimpleString,
};

verus! {

/// A decoder restricted to frames that start with `prefix`, if one is given:
/// any other leading byte is `InvalidFrameType`.
pub open spec fn gate<T>(s: Seq<u8>, prefix: Option<u8>, r: Result<T, RespError>) -> Result<
    T,
    RespError,
> {
    match prefix {
        Some(p) => if s.len() > 0 && s[0] != p {
            Err(RespError::InvalidFrameType)
        } else {
            r
        },
        None => r,
    }
}

/// Reading one value from the front of a growing buffer.
pub trait RespDecode: Sized {
    /// The leading byte this type accepts; `None` for any frame.
    spec fn spec_prefix() -> Option<u8>;

    /// The frame value this value stands for.
    spec fn spec_frame(&self) -> FrameV;

    /// Decodes one value from the front of `buf`. On success exactly the bytes
    /// it took are removed; on any error, `NotComplete` included, the buffer
    /// is left as it was.
    fn decode(buf: &mut BytesMut) -> (r: Result<Self, RespError>)
        ensures
            match gate(buffer_bytes(*old(buf)), Self::spec_prefix(), spec_decode(buffer_bytes(*old(buf)))) {
                Ok((f, k)) => r matches Ok(v) && v.spec_frame() == f && buffer_bytes(*final(buf))
                    == suffix(buffer_bytes(*old(buf)), k as int),
                Err(x) => r == Err::<Self, RespError>(x) && buffer_bytes(*final(buf))
                    == buffer_bytes(*old(buf)),
            },
    ;

    /// How many bytes the value at the front of `buf` takes; reads only.
    fn expect_length(buf: &[u8]) -> (r: Result<usize, RespError>)
        ensures
            usize_result(r) == gate(buf@, Self::spec_prefix(), spec_expect_length(buf@)),
    ;
}

/// The length probe behind every `expect_length`, with the prefix gate.
fn gated_length(buf: &[u8], prefix: u8) -> (r: Result<usize, RespError>)
    ensures
        usize_result(r) == gate(buf@, Some(prefix), spec_expect_length(buf@)),
{
    if buf.len() > 0 && buf[0] != prefix {
        return Err(RespError::InvalidFrameType);
    }
    expect_frame_length(buf)
}

/// Decodes a frame at the front of `buf` that starts with `prefix` (any, if
/// `None`) and removes its bytes; the buffer is untouched on error.
fn take_frame(buf: &mut BytesMut, prefix: Option<u8>) -> (r: Result<RespFrame, RespError>)
    ensures
        match gate(buffer_bytes(*old(buf)), prefix, spec_decode(buffer_bytes(*old(buf)))) {
            Ok((f, k)) => r matches Ok(v) && v@ == f && buffer_bytes(*final(buf)) == suffix(
                buffer_bytes(*old(buf)),
                k as int,
            ),
            Err(x) => r == Err::<RespFrame, RespError>(x) && buffer_bytes(*final(buf))
                == buffer_bytes(*old(buf)),
        },
{
    let s = buffer_slice(buf);
    match prefix {
        Some(p) => if s.len() > 0 && s[0] != p {
            return Err(RespError::InvalidFrameType);
        },
        None => {},
    }
    match decode_frame(s) {
        Err(x) => Err(x),
        Ok((f, k)) => {
            buffer_advance(buf, k);
            Ok(f)
        },
    }
}

impl RespDecode for RespFrame {
    open spec fn spec_prefix() -> Option<u8> {
        None
    }

    open spec fn spec_frame(&self) -> FrameV {
        self@
    }

    fn decode(buf: &mut BytesMut) -> (r: Result<Self, RespError>) {
        take_frame(buf, None)
    }

    fn expect_length(buf: &[u8]) -> (r: Result<usize, RespError>) {
        expect_frame_length(buf)
    }
}

impl RespDecode for SimpleString {
    open spec fn spec_prefix() -> Option<u8> {
        Some(SIMPLE_STRING_PREFIX)
    }

    open spec fn spec_frame(&self) -> FrameV {
        FrameV::SimpleString(self.0@)
    }

    fn decode(buf: &mut BytesMut) -> (r: Result<Self, RespError>) {
        match take_frame(buf, Some(SIMPLE_STRING_PREFIX)) {
            Ok(RespFrame::SimpleString(v)) => Ok(v),
            Ok(_) => Err(RespError::InvalidFrameType),
            Err(x) => Err(x),
        }
    }

    fn expect_length(buf: &[u8]) -> (r: Result<usize, RespError>) {
        gated_length(buf, SIMPLE_STRING_PREFIX)
    }
}

impl RespDecode for SimpleError {
    open spec fn spec_prefix() -> Option<u8> {
        Some(SIMPLE_ERROR_PREFIX)
    }

    open spec fn spec_frame(&self) -> FrameV {
        FrameV::Error(self.0@)
    }

    fn decode(buf: &mut BytesMut) -> (r: Result<Self, RespError>) {
        match take_frame(buf, Some(SIMPLE_ERROR_PREFIX)) {
            Ok(RespFrame::Error(v)) => Ok(v),
            Ok(_) => Err(RespError::InvalidFrameType),
            Err(x) => Err(x),
        }
    }

    fn expect_length(buf: &[u8]) -> (r: Result<usize, RespError>) {
        gated_length(buf, SIMPLE_ERROR_PREFIX)
    }
}

impl RespDecode for i64 {
    open spec fn spec_prefix() -> Option<u8> {
        Some(INTEGER_PREFIX)
    }

    open spec fn spec_frame(&self) -> FrameV {
        FrameV::Integer(*self as int)
    }

    fn decode(buf: &mut BytesMut) -> (r: Result<Self, RespError>) {
        match take_frame(buf, Some(INTEGER_PREFIX)) {
            Ok(RespFrame::Integer(v)) => Ok(v),
            Ok(_) => Err(RespError::InvalidFrameType),
            Err(x) => Err(x),
        }
    }

    fn expect_length(buf: &[u8]) -> (r: Result<usize, RespError>) {
        gated_length(buf, INTEGER_PREFIX)
    }
}

impl RespDecode for bool {
    open spec fn spec_prefix() -> Option<u8> {
        Some(BOOLEAN_PREFIX)
    }

    open spec fn spec_frame(&self) -> FrameV {
        FrameV::Boolean(*self)
    }

    fn decode(buf: &mut BytesMut) -> (r: Result<Self, RespError>) {
        match take_frame(buf, Some(BOOLEAN_PREFIX)) {
            Ok(RespFrame::Boolean(v)) => Ok(v),
            Ok(_) => Err(RespError::InvalidFrameType),
            Err(x) => Err(x),
        }
    }

    fn expect_length(buf: &[u8]) -> (r: Result<usize, RespError>) {
        gated_length(buf, BOOLEAN_PREFIX)
    }
}

impl RespDecode for BulkString {
    open spec fn spec_prefix() -> Option<u8> {
        Some(BULK_STRING_PREFIX)
    }

    open spec fn spec_frame(&self) -> FrameV {
        frame_view(RespFrame::BulkString(*self))
    }

    fn decode(buf: &mut BytesMut) -> (r: Result<Self, RespError>) {
        match take_frame(buf, Some(BULK_STRING_PREFIX)) {
            Ok(RespFrame::BulkString(v)) => Ok(v),
            Ok(_) => Err(RespError::InvalidFrameType),
            Err(x) => Err(x),
        }
    }

    fn expect_length(buf: &[u8]) -> (r: Result<usize, RespError>) {
        gated_length(buf, BULK_STRING_PREFIX)
    }
}

impl RespDecode for RespArray {
    open spec fn spec_prefix() -> Option<u8> {
        Some(ARRAY_PREFIX)
    }

    open spec fn spec_frame(&self) -> FrameV {
        frame_view(RespFrame::Array(*self))
    }

    fn decode(buf: &mut BytesMut) -> (r: Result<Self, RespError>) {
        match take_frame(buf, Some(ARRAY_PREFIX)) {
            Ok(RespFrame::Array(v)) => Ok(v),
            Ok(_) => Err(RespError::InvalidFrameType),
            Err(x) => Err(x),
        }
    }

    fn expect_length(buf: &[u8]) -> (r: Result<usize, RespError>) {
        gated_length(buf, ARRAY_PREFIX)
    }
}

impl RespDecode for RespNull {
    open spec fn spec_prefix() -> Option<u8> {
        Some(NULL_PREFIX)
    }

    open spec fn spec_frame(&self) -> FrameV {
        FrameV::Null
    }

    fn decode(buf: &mut BytesMut) -> (r: Result<Self, RespError>) {
        match take_frame(buf, Some(NULL_PREFIX)) {
            Ok(RespFrame::Null(v)) => Ok(v),
            Ok(_) => Err(RespError::InvalidFrameType),
            Err(x) => Err(x),
        }
    }

    fn expect_length(buf: &[u8]) -> (r: Result<usize, RespError>) {
        gated_length(buf, NULL_PREFIX)
    }
}

impl RespDecode for RespMap {
    open spec fn spec_prefix() -> Option<u8> {
        Some(MAP_PREFIX)
    }

    open spec fn spec_frame(&self) -> FrameV {
        frame_view(RespFrame::RespMap(*self))
    }

    fn decode(buf: &mut BytesMut) -> (r: Result<Self, RespError>) {
        match take_frame(buf, Some(MAP_PREFIX)) {
            Ok(RespFrame::RespMap(v)) => Ok(v),
            Ok(_) => Err(RespError::InvalidFrameType),
            Err(x) => Err(x),
        }
    }

    fn expect_length(buf: &[u8]) -> (r: Result<usize, RespError>) {
        gated_length(buf, MAP_PREFIX)
    }
}

impl RespDecode for RespSet {
    open spec fn spec_prefix() -> Option<u8> {
        Some(SET_PREFIX)
    }

    open spec fn spec_frame(&self) -> FrameV {
        frame_view(RespFrame::RespSet(*self))
    }

    fn decode(buf: &mut BytesMut) -> (r: Result<Self, RespError>) {
        match take_frame(buf, Some(SET_PREFIX)) {
            Ok(RespFrame::RespSet(v)) => Ok(v),
            Ok(_) => Err(RespError::InvalidFrameType),
            Err(x) => Err(x),
        }
    }

    fn expect_length(buf: &[u8]) -> (r: Result<usize, RespError>) {
        gated_length(buf, SET_PREFIX)
    }
}

} // verus!
