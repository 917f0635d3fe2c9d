//! The capability a key type must offer: a mathematical model for equality,
//! a deterministic byte serialization for hashing, and executable equality
//! that decides model equality.

use vstd::prelude::*;

verus! {

/// A key of the hash table.
///
/// A key is compared and looked up through its mathematical model `M`:
/// two keys with equal models are the same key to the table. Hashing reads
/// the key's canonical byte serialization, which the model determines, so
/// equal keys always hash alike.
pub trait HashKey: Sized {
    /// The mathematical model of a key; keys with equal models are
    /// interchangeable for lookup, insertion and removal.
    type M;

    /// The model of this key.
    spec fn model(&self) -> Self::M;

    /// The canonical byte serialization of this key, used only for hashing.
    spec fn bytes_spec(&self) -> Seq<u8>;

    /// Keys with equal models serialize to equal bytes, so they hash alike.
    proof fn model_determines_bytes(&self, other: &Self)
        requires
            self.model() == other.model(),
        ensures
            self.bytes_spec() == other.bytes_spec(),
    ;

    /// Produces the canonical byte serialization of this key.
    fn to_bytes(&self) -> (r: Vec<u8>)
        ensures
            r@ == self.bytes_spec(),
    ;

    /// Decides whether two keys have the same model.
    fn key_eq(&self, other: &Self) -> (r: bool)
        ensures
            r == (self.model() == other.model()),
    ;
}

/// The two's-complement value of a 32-bit signed integer, as a non-negative
/// integer below 2^32.
pub open spec fn i32_twos_complement(x: i32) -> int {
    if x >= 0 {
        x as int
    } else {
        x as int + 0x1_0000_0000
    }
}

/// The 4 little-endian bytes of a 32-bit signed integer's two's-complement
/// value.
pub open spec fn i32_le_bytes(x: i32) -> Seq<u8> {
    let n = i32_twos_complement(x);
    seq![
        (n % 0x100) as u8,
        ((n / 0x100) % 0x100) as u8,
        ((n / 0x1_0000) % 0x100) as u8,
        ((n / 0x100_0000) % 0x100) as u8,
    ]
}

/// Relies on bincode::serialize: with its fixed-width, little-endian default
/// options it writes a 32-bit signed integer as the 4 little-endian bytes of
/// its two's-complement value, and writing into a fresh byte vector cannot
/// fail.
#[verifier::external_body]
fn serialize_i32(key: &i32) -> (r: Vec<u8>)
    ensures
        r@ == i32_le_bytes(*key),
{
    bincode::serialize(key).unwrap()
}

/// What bincode::serialize returns for a string: its byte length followed by
/// its UTF-8 bytes, a function of the character sequence alone.
pub uninterp spec fn string_ser_bytes(s: Seq<char>) -> Seq<u8>;

/// Relies on bincode::serialize: with its default options it writes a string
/// as its byte length followed by its UTF-8 bytes, both determined by the
/// character sequence alone, and writing into a fresh byte vector cannot
/// fail.
#[verifier::external_body]
fn serialize_string(key: &String) -> (r: Vec<u8>)
    ensures
        r@ == string_ser_bytes(key@),
{
    bincode::serialize(key).unwrap()
}

impl HashKey for i32 {
    type M = i32;

    open spec fn model(&self) -> i32 {
        *self
    }

    open spec fn bytes_spec(&self) -> Seq<u8> {
        i32_le_bytes(*self)
    }

    proof fn model_determines_bytes(&self, other: &Self) {
    }

    fn to_bytes(&self) -> (r: Vec<u8>) {
        serialize_i32(self)
    }

    fn key_eq(&self, other: &Self) -> (r: bool) {
        *self == *other
    }
}

impl HashKey for String {
    type M = Seq<char>;

    open spec fn model(&self) -> Seq<char> {
        self@
    }

    open spec fn bytes_spec(&self) -> Seq<u8> {
        string_ser_bytes(self@)
    }

    proof fn model_determines_bytes(&self, other: &Self) {
    }

    fn to_bytes(&self) -> (r: Vec<u8>) {
        serialize_string(self)
    }

    fn key_eq(&self, other: &Self) -> (r: bool) {
        self.eq(other)
    }
}

} // verus!
