//! Byte buffers between the channel and the codec, stored in `bytes::BytesMut`.

use vstd::prelude::*;

verus! {

/// `bytes::BytesMut`, of which the verifier knows only what
/// [`buffer_bytes`] says.
#[verifier::external_type_specification]
#[verifier::external_body]
pub struct ExBytesMut(bytes::BytesMut);

/// The bytes that a buffer holds, oldest first.
pub uninterp spec fn buffer_bytes(buffer: bytes::BytesMut) -> Seq<u8>;

/// `BytesMut::with_capacity`: an empty buffer.
#[verifier::external_body]
pub(crate) fn buffer_with_capacity(capacity: usize) -> (buffer: bytes::BytesMut)
    ensures
        buffer_bytes(buffer) == Seq::<u8>::empty(),
{
    bytes::BytesMut::with_capacity(capacity)
}

/// `BytesMut::len`: the number of bytes held.
#[verifier::external_body]
pub(crate) fn buffer_len(buffer: &bytes::BytesMut) -> (len: usize)
    ensures
        len == buffer_bytes(*buffer).len(),
{
    buffer.len()
}

/// The buffer's contents as a slice, through `AsRef<[u8]>`.
#[verifier::external_body]
pub(crate) fn buffer_slice(buffer: &bytes::BytesMut) -> (slice: &[u8])
    ensures
        slice@ == buffer_bytes(*buffer),
{
    buffer.as_ref()
}

/// `BytesMut::extend_from_slice`: appends the bytes of `data`.
#[verifier::external_body]
pub(crate) fn buffer_extend(buffer: &mut bytes::BytesMut, data: &[u8])
    requires
        buffer_bytes(*old(buffer)).len() + data@.len() <= usize::MAX,
    ensures
        buffer_bytes(*final(buffer)) == buffer_bytes(*old(buffer)) + data@,
{
    buffer.extend_from_slice(data)
}

/// `Buf::advance` on `BytesMut`: drops the first `count` bytes. The outside
/// function panics when `count` is more than the buffer holds.
#[verifier::external_body]
pub(crate) fn buffer_advance(buffer: &mut bytes::BytesMut, count: usize)
    requires
        count <= buffer_bytes(*old(buffer)).len(),
    ensures
        buffer_bytes(*final(buffer)) == buffer_bytes(*old(buffer)).skip(count as int),
{
    bytes::Buf::advance(buffer, count)
}

} // verus!
