use bytes::Buf;
use bytes::BytesMut;
use vstd::prelude::*;

verus! {

#[verifier::external_type_specification]
#[verifier::external_body]
pub struct ExBytesMut(BytesMut);

/// The bytes that a buffer holds, front first.
pub uninterp spec fn buffered(b: BytesMut) -> Seq<u8>;

/// Relies on `<BytesMut as Deref>::deref`: a slice of exactly the bytes held.
#[verifier::external_body]
pub(crate) fn held(b: &BytesMut) -> (r: &[u8])
    ensures
        r@ == buffered(*b),
{
    &b[..]
}

/// Relies on `<BytesMut as Buf>::advance`: drops the first `n` bytes, and
/// panics when fewer are held.
#[verifier::external_body]
pub(crate) fn advance(b: &mut BytesMut, n: usize)
    requires
        n <= buffered(*old(b)).len(),
    ensures
        buffered(*final(b)) == buffered(*old(b)).subrange(n as int, buffered(*old(b)).len() as int),
{
    b.advance(n)
}

} // verus!
