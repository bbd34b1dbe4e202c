//! A fixed-layout binary record codec: a type that can pack itself into a
//! byte sequence and be read back from one.

use vstd::prelude::*;

verus! {

/// A record with a fixed binary layout. Packing yields exactly `packed`;
/// unpacking reads a value back from the front of a byte sequence, or
/// reports `None` when the bytes cannot hold one.
pub trait BinPack: Sized {
    /// The encoded bytes of this value.
    spec fn packed(&self) -> Seq<u8>;

    /// The value read from the front of `data`, if `data` can hold one.
    spec fn unpack(data: Seq<u8>) -> Option<Self>;

    /// Encode this value.
    fn to_bytes(&self) -> (r: Vec<u8>)
        ensures
            r@ == self.packed(),
    ;

    /// Decode a value from the front of `data`.
    fn from_bytes(data: &[u8]) -> (r: Option<Self>)
        ensures
            r == Self::unpack(data@),
    ;
}

} // verus!
