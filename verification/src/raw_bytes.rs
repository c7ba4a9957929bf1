//! The byte buffers that messages travel in, from the `bytes` crate.

use bytes::Bytes;
use vstd::prelude::*;

verus! {

/// `bytes::Bytes`, a shared, immutable run of bytes.
#[verifier::external_type_specification]
#[verifier::external_body]
pub struct ExBytes(Bytes);

/// The bytes that a buffer holds.
pub uninterp spec fn bytes_of(buffer: Bytes) -> Seq<u8>;

/// `Deref for Bytes`: the buffer as a slice, byte for byte.
#[verifier::external_body]
pub(crate) fn as_slice(buffer: &Bytes) -> (slice: &[u8])
    ensures
        slice@ == bytes_of(*buffer),
{
    &buffer[..]
}

/// `Clone for Bytes`: a second handle on the same bytes.
pub assume_specification[ <Bytes as Clone>::clone ](buffer: &Bytes) -> (copy: Bytes)
    ensures
        bytes_of(copy) == bytes_of(*buffer),
;

/// `Bytes::split_to`: the first `at` bytes leave the buffer and are returned, the others
/// stay in it. It panics where the buffer is shorter than that.
#[verifier::external_body]
pub(crate) fn split_to(buffer: &mut Bytes, at: usize) -> (head: Bytes)
    requires
        at <= bytes_of(*old(buffer)).len(),
    ensures
        bytes_of(head) == bytes_of(*old(buffer)).take(at as int),
        bytes_of(*final(buffer)) == bytes_of(*old(buffer)).skip(at as int),
{
    buffer.split_to(at)
}

/// `From<Vec<u8>> for Bytes`: a buffer that holds the vector's bytes.
#[verifier::external_body]
pub(crate) fn from_vec(data: Vec<u8>) -> (buffer: Bytes)
    ensures
        bytes_of(buffer) == data@,
{
    Bytes::from(data)
}

/// `Bytes::copy_from_slice`: a buffer that holds a copy of the slice.
#[verifier::external_body]
pub(crate) fn copy_from_slice(data: &[u8]) -> (buffer: Bytes)
    ensures
        bytes_of(buffer) == data@,
{
    Bytes::copy_from_slice(data)
}

/// `Bytes::from_static`: a buffer that borrows a constant.
#[verifier::external_body]
pub(crate) fn from_static(data: &'static [u8]) -> (buffer: Bytes)
    ensures
        bytes_of(buffer) == data@,
{
    Bytes::from_static(data)
}

} // verus!
