use vstd::prelude::*;
use bytes::{Buf, BytesMut};

verus! {

#[verifier::external_type_specification]
#[verifier::external_body]
pub struct ExBytesMut(BytesMut);

/// The bytes that a `BytesMut` holds, front first.
pub uninterp spec fn buffer_bytes(b: BytesMut) -> Seq<u8>;

/// Relies on `<BytesMut as AsRef<[u8]>>::as_ref`: a view of exactly the bytes
/// the buffer holds.
#[verifier::external_body]
pub(crate) fn buffer_slice(b: &BytesMut) -> (r: &[u8])
    ensures
        r@ == buffer_bytes(*b),
{
    b.as_ref()
}

/// Relies on `<BytesMut as Buf>::advance`: drops the first `n` bytes and keeps
/// the rest in order; it panics when `n` is past the end.
#[verifier::external_body]
pub(crate) fn buffer_advance(b: &mut BytesMut, n: usize)
    requires
        n <= buffer_bytes(*old(b)).len(),
    ensures
        buffer_bytes(*final(b)) == buffer_bytes(*old(b)).subrange(
            n as int,
            buffer_bytes(*old(b)).len() as int,
        ),
{
    b.advance(n)
}

} // verus!
