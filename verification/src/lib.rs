//! A RESP (Redis serialization protocol) frame codec and a small command
//! layer on top of it: decoding of bulk strings and arrays from a byte
//! stream with exact handling of incomplete input, byte-identical
//! re-encoding, and validated commands executed against a key/field store.
use vstd::prelude::*;

pub mod backend;
pub mod cmd;
pub mod codec;
pub mod frame;
pub mod laws;
pub mod model;

pub use backend::Backend;
pub use cmd::{CommandError, Echo, SAdd, Sismember};
pub use frame::{BulkString, RespArray, RespFrame};

verus! {

/// The outcome of a failed decode attempt.
///
/// `NotComplete` is the one transient case: the caller must keep the buffer
/// and retry once more bytes have arrived. The other cases mean the stream
/// is malformed and cannot be resynchronised. `InvalidUtf8` is reserved for
/// frame variants whose decoding demands text; neither bulk strings nor
/// arrays do, so the codec here never reports it.
#[derive(Debug, Clone, Copy, PartialEq, Eq)]
pub enum RespError {
    NotComplete,
    InvalidFrameType,
    InvalidFrameLength,
    InvalidUtf8,
}

} // verus!
