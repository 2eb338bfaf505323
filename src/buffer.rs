//! Byte storage for owned numbers.
use vstd::prelude::*;

verus! {

/// Storage that can be read as a byte slice.
pub trait AsBytes {
    /// The bytes held.
    spec fn bytes_view(&self) -> Seq<u8>;

    fn as_bytes(&self) -> (r: &[u8])
        ensures
            r@ == self.bytes_view(),
    ;
}

/// Storage that can be built from bytes, and read back as the same bytes.
pub trait Buffer: AsBytes + Sized {
    fn from_bytes(bytes: &[u8]) -> (r: Self)
        ensures
            r.bytes_view() == bytes@,
    ;

    fn from_vec(bytes: Vec<u8>) -> (r: Self)
        ensures
            r.bytes_view() == bytes@,
    ;
}

impl AsBytes for Vec<u8> {
    open spec fn bytes_view(&self) -> Seq<u8> {
        self@
    }

    fn as_bytes(&self) -> (r: &[u8]) {
        self.as_slice()
    }
}

impl Buffer for Vec<u8> {
    fn from_bytes(bytes: &[u8]) -> (r: Self) {
        vstd::slice::slice_to_vec(bytes)
    }

    fn from_vec(bytes: Vec<u8>) -> (r: Self) {
        bytes
    }
}

impl AsBytes for String {
    open spec fn bytes_view(&self) -> Seq<u8> {
        vstd::utf8::encode_utf8(self@)
    }

    fn as_bytes(&self) -> (r: &[u8]) {
        self.as_str().as_bytes()
    }
}

} // verus!
