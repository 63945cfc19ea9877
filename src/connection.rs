use bytes::BytesMut;
use vstd::prelude::*;

use crate::backend::Backend;
use crate::buffer::buffered;
use crate::cmd::{respond, responds};
use crate::decode::RespDecoder;
use crate::encode::{wire, RespEncoder};
use crate::error::{reports, RespError};
use crate::frame::{RespFrame, Value};
use crate::grammar::{parse, Fault};

verus! {

/// What a connection does next.
#[derive(Debug)]
pub enum Step {
    /// Send these bytes, then look at the buffer again.
    Reply(Vec<u8>),
    /// The buffer holds part of a request: read more bytes.
    NeedMore,
    /// The buffer holds no request: close the connection.
    Close(RespError),
}

/// Takes one request off the front of a connection's buffer and answers it.
/// Requests are answered one at a time, in order.
pub fn serve_one(buf: &mut BytesMut, backend: &mut Backend) -> (r: Step)
    ensures
        match parse(buffered(*old(buf))) {
            Ok((v, n)) => {
                &&& buffered(*final(buf)) == buffered(*old(buf)).subrange(
                    n as int,
                    buffered(*old(buf)).len() as int,
                )
                &&& r matches Step::Reply(bytes) && exists|reply: Value|
                    bytes@ == wire(reply) && responds(v, *old(backend), *final(backend), reply)
            },
            Err(Fault::Incomplete) => r is NeedMore && buffered(*final(buf)) == buffered(*old(buf))
                && *final(backend) == *old(backend),
            Err(f) => r matches Step::Close(e) && reports(e, f) && buffered(*final(buf)) == buffered(
                *old(buf),
            ) && *final(backend) == *old(backend),
        },
        old(backend).wf() ==> final(backend).wf(),
{
    match RespFrame::decode(buf) {
        Ok(frame) => {
            let reply = respond(frame, backend);
            Step::Reply(reply.encode())
        },
        Err(RespError::NotComplete) => Step::NeedMore,
        Err(e) => Step::Close(e),
    }
}

} // verus!
