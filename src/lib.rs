//! A server-side implementation of the RESP wire protocol: frame model,
//! streaming decoder, encoder, command grammar and command execution.
pub mod backend;
pub mod buffer;
pub mod cmd;
pub mod codec;
pub mod decode;
pub mod encode;
pub mod frame;
pub mod laws;
pub mod scan;
mod wrappers;

pub use codec::RespDecode;
pub use encode::RespEncode;
pub use frame::{
    BulkString, FrameV, MapEntry, RespArray, RespError, RespFrame, RespMap, RespNull,
    RespNullArray, RespNullBulkString, RespSet, SimpleError, SimpleString,
};
