//! Byte encodings of field elements.

use crate::field::Field;
use vstd::prelude::*;

verus! {

/// How a field element is laid out in bytes.
#[derive(Clone, Copy, Debug, PartialEq, Eq, Structural)]
pub enum SerdeFormat {
    /// The standard form of the element. Elements are checked to be below the
    /// modulus when they are read.
    Processed,
    /// The internal representation of the element. Elements are checked to be
    /// below the modulus when they are read.
    RawBytes,
    /// The internal representation of the element, read without a check.
    RawBytesUnchecked,
}

/// A field whose elements have a standard and an internal byte encoding, both
/// of the same fixed width.
pub trait SerdePrimeField: Field {
    /// The width of an encoded element in bytes.
    spec fn byte_len() -> nat;

    /// The standard encoding of the element with representative `value`.
    spec fn repr_bytes(value: int) -> Seq<u8>;

    /// The internal encoding of the element with representative `value`.
    spec fn raw_bytes(value: int) -> Seq<u8>;

    /// The representative that a standard encoding stands for, if any.
    spec fn repr_value(bytes: Seq<u8>) -> Option<int>;

    /// The representative that an internal encoding stands for, if any.
    spec fn raw_value(bytes: Seq<u8>) -> Option<int>;

    /// The representative that an internal encoding stands for if it is taken
    /// without a check. Bytes that stand for no element are reduced.
    spec fn raw_residue(bytes: Seq<u8>) -> int;

    /// An encoding stands for the same representative with and without a check.
    proof fn lemma_raw_residue(bytes: Seq<u8>)
        ensures
            Self::raw_value(bytes) is Some ==> Self::raw_value(bytes) == Some(
                Self::raw_residue(bytes),
            ),
    ;

    /// Encoded elements take up at least one byte.
    proof fn lemma_byte_len()
        ensures
            0 < Self::byte_len() <= usize::MAX,
    ;

    /// Both encodings have the fixed width, and decoding either of them gives
    /// the representative back.
    proof fn lemma_encoding(value: int)
        requires
            0 <= value < Self::modulus(),
        ensures
            Self::repr_bytes(value).len() == Self::byte_len(),
            Self::repr_value(Self::repr_bytes(value)) == Some(value),
            Self::raw_bytes(value).len() == Self::byte_len(),
            Self::raw_value(Self::raw_bytes(value)) == Some(value),
    ;

    /// The width of an encoded element in bytes.
    fn num_bytes() -> (n: usize)
        ensures
            n == Self::byte_len(),
    ;

    /// The standard encoding of this element.
    fn to_repr(&self) -> (bytes: Vec<u8>)
        ensures
            bytes@ == Self::repr_bytes(self.value()),
    ;

    /// The internal encoding of this element.
    fn to_raw_bytes(&self) -> (bytes: Vec<u8>)
        ensures
            bytes@ == Self::raw_bytes(self.value()),
    ;

    /// Decodes a standard encoding. `None` exactly if `bytes` stands for no
    /// element.
    fn from_repr(bytes: &[u8]) -> (r: Option<Self>)
        requires
            bytes@.len() == Self::byte_len(),
        ensures
            r is Some <==> Self::repr_value(bytes@) is Some,
            r is Some ==> Self::repr_value(bytes@) == Some(r->0.value()),
    ;

    /// Decodes an internal encoding. `None` exactly if `bytes` stands for no
    /// element.
    fn from_raw_bytes(bytes: &[u8]) -> (r: Option<Self>)
        requires
            bytes@.len() == Self::byte_len(),
        ensures
            r is Some <==> Self::raw_value(bytes@) is Some,
            r is Some ==> Self::raw_value(bytes@) == Some(r->0.value()),
    ;

    /// Decodes an internal encoding without checking it. Bytes that stand for no
    /// element are reduced.
    fn from_raw_bytes_unchecked(bytes: &[u8]) -> (r: Self)
        requires
            bytes@.len() == Self::byte_len(),
        ensures
            r.value() == Self::raw_residue(bytes@),
    ;
}

} // verus!
