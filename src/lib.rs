//! A miniature key-value server core speaking the RESP wire format: frame
//! model, streaming decoder, encoder, command parser and executor, and the
//! shared store they act on.
//!
//! `grammar` states what a buffer's front frame is; `decode` reads it and is
//! proved to agree; `encode` writes frames. `stream` proves that decoding is
//! incremental, `roundtrip` that decoding an encoding gives the frame back,
//! and `invariants` that maps keep their keys ordered and sets their members
//! distinct. `cmd` reads commands from frames and runs them on the `backend`
//! store; `connection` takes one request off a client's buffer and answers it.

pub mod backend;
pub mod buffer;
pub mod cmd;
pub mod connection;
pub mod decode;
pub mod encode;
pub mod error;
pub mod frame;
pub mod grammar;
pub mod invariants;
pub mod roundtrip;
pub mod stream;

pub use backend::Backend;
pub use cmd::{
    respond, Command, CommandExcetor, Echo, Get, HGet, HGetAll, HMget, HSet, Sadd, SetCommand,
    Sismember, Unrecognized,
};
pub use connection::{serve_one, Step};
pub use decode::{
    calc_total_length, decode_slice, extract_simple_frame_data, find_crlf, parse_int, parse_length,
    RespDecoder,
};
pub use encode::RespEncoder;
pub use error::{CommandError, RespError};
pub use frame::{
    BulkString, RespArray, RespDouble, RespFrame, RespMap, RespNull, RespNullArray,
    RespNullBulkString, RespSet, SimpleError, SimpleString, Value,
};
