use vstd::prelude::*;

use crate::grammar::Fault;

verus! {

/// Why a frame could not be taken from a buffer.
#[derive(Debug, PartialEq, Eq)]
pub enum RespError {
    InvalidFrame(String),
    InvalidFrameType(String),
    InvalidFrameLength(i64),
    /// The buffer holds a strict prefix of a frame; more bytes are needed.
    NotComplete,
    ParseIntError,
    ParseFloatError,
    InvalidCommand(String),
}

/// `n`, saturated to the range of `i64`.
pub open spec fn clamp64(n: int) -> i64 {
    if n < i64::MIN {
        i64::MIN
    } else if n > i64::MAX {
        i64::MAX
    } else {
        n as i64
    }
}

/// Whether an error reports the given fault; an out-of-range length is
/// reported saturated.
pub open spec fn reports(e: RespError, f: Fault) -> bool {
    match f {
        Fault::Incomplete => e is NotComplete,
        Fault::FrameType => e is InvalidFrameType,
        Fault::FrameLength(n) => e == RespError::InvalidFrameLength(clamp64(n)),
        Fault::Int => e is ParseIntError,
        Fault::Real => e is ParseFloatError,
    }
}

/// Why an array could not be read as a command.
#[derive(Debug, PartialEq, Eq)]
pub enum CommandError {
    InvalidCommand(String),
    InvalidArgument(String),
    RespError(RespError),
}

} // verus!
