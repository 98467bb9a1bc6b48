//! The bytes that stand for a key or a value when a leaf is hashed.

use vstd::bytes::{
    spec_u32_to_le_bytes, spec_u64_to_le_bytes, u32_to_le_bytes, u64_to_le_bytes,
};
use vstd::prelude::*;

verus! {

/// A type whose values have an encoding in bytes. The digest of a leaf is
/// taken from the encodings of its key and its value.
pub trait Encode {
    /// The bytes that stand for the value.
    spec fn encoding(&self) -> Seq<u8>;

    /// Writes the value's encoding out.
    fn encode(&self) -> (bytes: Vec<u8>)
        ensures
            bytes@ == self.encoding(),
    ;
}

/// A byte stands for itself.
impl Encode for u8 {
    open spec fn encoding(&self) -> Seq<u8> {
        seq![*self]
    }

    fn encode(&self) -> (bytes: Vec<u8>) {
        let mut bytes: Vec<u8> = Vec::new();
        bytes.push(*self);
        assert(bytes@ =~= seq![*self]);
        bytes
    }
}

/// Four bytes, the least significant first.
impl Encode for u32 {
    open spec fn encoding(&self) -> Seq<u8> {
        spec_u32_to_le_bytes(*self)
    }

    fn encode(&self) -> (bytes: Vec<u8>) {
        u32_to_le_bytes(*self)
    }
}

/// Eight bytes, the least significant first.
impl Encode for u64 {
    open spec fn encoding(&self) -> Seq<u8> {
        spec_u64_to_le_bytes(*self)
    }

    fn encode(&self) -> (bytes: Vec<u8>) {
        u64_to_le_bytes(*self)
    }
}

/// The four bytes of the number in two's complement, the least significant
/// first.
impl Encode for i32 {
    open spec fn encoding(&self) -> Seq<u8> {
        spec_u32_to_le_bytes(*self as u32)
    }

    fn encode(&self) -> (bytes: Vec<u8>) {
        u32_to_le_bytes(*self as u32)
    }
}

/// The eight bytes of the number in two's complement, the least significant
/// first.
impl Encode for i64 {
    open spec fn encoding(&self) -> Seq<u8> {
        spec_u64_to_le_bytes(*self as u64)
    }

    fn encode(&self) -> (bytes: Vec<u8>) {
        u64_to_le_bytes(*self as u64)
    }
}

/// A byte string stands for itself.
impl Encode for Vec<u8> {
    open spec fn encoding(&self) -> Seq<u8> {
        self@
    }

    fn encode(&self) -> (bytes: Vec<u8>) {
        let mut bytes: Vec<u8> = Vec::new();
        bytes.extend_from_slice(self.as_slice());
        assert(bytes@ =~= self@);
        bytes
    }
}

} // verus!
