//! The growable byte buffer of the `bytes` crate, as the encoders use it.

use vstd::prelude::*;
use bytes::BufMut;
use bytes::BytesMut;

verus! {

#[verifier::external_type_specification]
#[verifier::external_body]
pub struct ExBytesMut(BytesMut);

/// The bytes that a `BytesMut` holds, first to last.
pub uninterp spec fn bytes_mut_contents(buf: BytesMut) -> Seq<u8>;

/// `BytesMut::new`: a buffer that holds no bytes.
#[verifier::external_body]
pub(crate) fn bytes_mut_new() -> (buf: BytesMut)
    ensures
        bytes_mut_contents(buf) == Seq::<u8>::empty(),
{
    BytesMut::new()
}

/// `BufMut::put_u8` on a `BytesMut`: appends one byte. It grows the buffer
/// through `reserve`, which panics once the capacity would pass
/// `isize::MAX`; `requires` keeps the length below that.
#[verifier::external_body]
pub(crate) fn bytes_mut_put_u8(buf: &mut BytesMut, b: u8)
    requires
        bytes_mut_contents(*old(buf)).len() + 1 <= isize::MAX,
    ensures
        bytes_mut_contents(*final(buf)) == bytes_mut_contents(*old(buf)).push(b),
{
    buf.put_u8(b)
}

/// `BufMut::put_slice` on a `BytesMut`: appends the bytes of `src` in order,
/// with the same bound on the length as `bytes_mut_put_u8`.
#[verifier::external_body]
pub(crate) fn bytes_mut_put_slice(buf: &mut BytesMut, src: &[u8])
    requires
        bytes_mut_contents(*old(buf)).len() + src@.len() <= isize::MAX,
    ensures
        bytes_mut_contents(*final(buf)) == bytes_mut_contents(*old(buf)) + src@,
{
    buf.put_slice(src)
}

/// The bytes of a `BytesMut` (its `Deref` to `[u8]`) copied into a `Vec`.
#[verifier::external_body]
pub(crate) fn bytes_mut_to_vec(buf: &BytesMut) -> (v: Vec<u8>)
    ensures
        v@ == bytes_mut_contents(*buf),
{
    buf.to_vec()
}

} // verus!
