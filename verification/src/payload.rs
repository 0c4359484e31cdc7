//! What the verifier is told about `bytes::Bytes`, the buffer type in which a
//! fetched payload travels.

use vstd::prelude::*;

verus! {

/// `bytes::Bytes`: a buffer of bytes, of which the verifier sees nothing but
/// what the items below tell.
#[verifier::external_type_specification]
#[verifier::external_body]
pub struct ExBytes(bytes::Bytes);

/// The bytes that a buffer holds, in order.
pub uninterp spec fn contents(b: bytes::Bytes) -> Seq<u8>;

/// `Bytes::new` returns a buffer that holds nothing.
pub assume_specification[ bytes::Bytes::new ]() -> (b: bytes::Bytes)
    ensures
        contents(b) == Seq::<u8>::empty(),
;

/// `Bytes::len` returns the number of bytes that the buffer holds.
pub assume_specification[ bytes::Bytes::len ](b: &bytes::Bytes) -> (n: usize)
    ensures
        n == contents(*b).len(),
;

/// `Bytes::as_ref` lends the bytes that the buffer holds, in order.
#[verifier::external_body]
pub(crate) fn as_slice(b: &bytes::Bytes) -> (s: &[u8])
    ensures
        s@ == contents(*b),
{
    b.as_ref()
}

} // verus!
