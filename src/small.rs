//! Number buffers that keep short numbers inline, in a `SmallVec`.
use vstd::prelude::*;

use smallvec::SmallVec;

use crate::buffer::{AsBytes, Buffer};
use crate::number_buf::NumberBuf;

verus! {

/// Bytes stored inline up to eight of them, on the heap beyond.
#[verifier::external_body]
#[derive(PartialEq, Eq, PartialOrd, Ord, Hash, Debug)]
pub struct SmallBytes {
    bytes: SmallVec<[u8; 8]>,
}

/// JSON number buffer that stores numbers of up to eight bytes inline.
pub type SmallNumberBuf = NumberBuf<SmallBytes>;

/// The bytes that a `SmallBytes` holds, in order.
pub uninterp spec fn small_bytes(v: SmallBytes) -> Seq<u8>;

/// Relies on `SmallVec::from_slice`: the new vector holds a copy of the
/// slice.
#[verifier::external_body]
fn small_from_slice(bytes: &[u8]) -> (r: SmallBytes)
    ensures
        small_bytes(r) == bytes@,
{
    SmallBytes { bytes: SmallVec::from_slice(bytes) }
}

/// Relies on `SmallVec::from_vec`: the new vector holds the elements of the
/// given one.
#[verifier::external_body]
fn small_from_vec(bytes: Vec<u8>) -> (r: SmallBytes)
    ensures
        small_bytes(r) == bytes@,
{
    SmallBytes { bytes: SmallVec::from_vec(bytes) }
}

/// Relies on `SmallVec::as_slice`: the slice of all the elements held.
#[verifier::external_body]
fn small_as_slice(v: &SmallBytes) -> (r: &[u8])
    ensures
        r@ == small_bytes(*v),
{
    v.bytes.as_slice()
}

impl AsBytes for SmallBytes {
    open spec fn bytes_view(&self) -> Seq<u8> {
        small_bytes(*self)
    }

    fn as_bytes(&self) -> (r: &[u8]) {
        small_as_slice(self)
    }
}

impl Buffer for SmallBytes {
    fn from_bytes(bytes: &[u8]) -> (r: Self) {
        small_from_slice(bytes)
    }

    fn from_vec(bytes: Vec<u8>) -> (r: Self) {
        small_from_vec(bytes)
    }
}

} // verus!
