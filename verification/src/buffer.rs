//! Trusted boundary to `bytes::BytesMut`, the growable byte buffer that
//! decoding consumes from the front.
use vstd::prelude::*;

verus! {

#[verifier::external_type_specification]
#[verifier::external_body]
pub struct ExBytesMut(bytes::BytesMut);

/// The bytes a buffer currently holds, front first.
pub uninterp spec fn buf_bytes(b: bytes::BytesMut) -> Seq<u8>;

/// Relies on BytesMut's deref to `[u8]`: a view of all bytes held.
#[verifier::external_body]
pub fn buf_slice(b: &bytes::BytesMut) -> (r: &[u8])
    ensures
        r@ == buf_bytes(*b),
{
    &b[..]
}

/// Relies on bytes::Buf::advance for BytesMut: discards the first `n` bytes
/// and keeps the rest. It panics when `n` exceeds the length, so that case
/// is excluded.
#[verifier::external_body]
pub fn buf_advance(b: &mut bytes::BytesMut, n: usize)
    requires
        n <= buf_bytes(*old(b)).len(),
    ensures
        buf_bytes(*final(b)) == buf_bytes(*old(b)).skip(n as int),
{
    bytes::Buf::advance(b, n);
}

} // verus!
