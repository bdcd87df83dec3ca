//! The byte buffers that frames travel in on the wire side.
use vstd::prelude::*;

verus! {

#[verifier::external_type_specification]
#[verifier::external_body]
pub struct ExBytesMut(bytes::BytesMut);

/// The bytes that a buffer holds, in order.
pub uninterp spec fn buffer_bytes(b: bytes::BytesMut) -> Seq<u8>;

/// Relies on `BytesMut`'s `From<&[u8]>`: the new buffer holds a copy of the
/// bytes.
#[verifier::external_body]
pub(crate) fn buffer_from(b: &[u8]) -> (r: bytes::BytesMut)
    ensures
        buffer_bytes(r) == b@,
{
    bytes::BytesMut::from(b)
}

/// Relies on `BytesMut`'s `AsRef<[u8]>`: the slice is what the buffer holds.
#[verifier::external_body]
pub(crate) fn buffer_slice(b: &bytes::BytesMut) -> (r: &[u8])
    ensures
        r@ == buffer_bytes(*b),
{
    b.as_ref()
}

} // verus!
