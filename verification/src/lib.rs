//! A binary serialization codec and Merkle-commitment engine for a fixed,
//! self-describing type system: little-endian scalars, bounded sequences
//! (`List`), fixed-length sequences (`Vector`), and tagged unions.
//!
//! Every participating type implements the [`ssz::SimpleSerialize`]
//! capability contract: a type-level size classification, a canonical byte
//! encoding, its inverse, and a 32-byte hash tree root.

pub mod de;
pub mod list;
pub mod merkleization;
pub mod ser;
pub mod ssz;
pub mod tagged;
pub mod uint;
pub mod vector;

use vstd::prelude::*;

use crate::de::DeserializeError;
use crate::ser::SerializeError;
use crate::ssz::SimpleSerialize;

verus! {

/// Encodes `value` into a fresh buffer.
pub fn serialize<T: SimpleSerialize>(value: &T) -> (r: Result<Vec<u8>, SerializeError>)
    ensures
        match r {
            Ok(bytes) => value.spec_valid() && bytes@ == value.spec_encoding(),
            Err(_) => !value.spec_valid(),
        },
{
    let mut buffer: Vec<u8> = Vec::new();
    match value.serialize(&mut buffer) {
        Ok(_) => Ok(buffer),
        Err(e) => Err(e),
    }
}

/// Decodes the unique serializable value whose canonical encoding is
/// exactly `encoding`.
pub fn deserialize<T: SimpleSerialize>(encoding: &[u8]) -> (r: Result<T, DeserializeError>)
    ensures
        match r {
            Ok(v) => v.spec_valid() && v.spec_encoding() == encoding@,
            Err(_) => forall|v: T| v.spec_valid() ==> v.spec_encoding() != encoding@,
        },
{
    T::deserialize(encoding)
}

/// Round trip, stated over the model: a serializable value is determined by
/// its canonical encoding, so whatever decoding returns for that encoding
/// carries the same view as the value encoded.
pub proof fn lemma_round_trip<T: SimpleSerialize>(a: &T, b: &T)
    requires
        a.spec_valid(),
        b.spec_valid(),
        a.spec_encoding() == b.spec_encoding(),
    ensures
        a.deep_view() == b.deep_view(),
{
    T::lemma_encoding_injective(a, b);
}

/// Round trip, executed: encoding any serializable value and decoding the
/// bytes succeeds and returns a value with the very same view.
pub fn encode_then_decode<T: SimpleSerialize>(value: &T) -> (r: T)
    requires
        value.spec_valid(),
    ensures
        r.spec_valid(),
        r.deep_view() == value.deep_view(),
        r.spec_encoding() == value.spec_encoding(),
{
    let mut buffer: Vec<u8> = Vec::new();
    let outcome = value.serialize(&mut buffer);
    match outcome {
        Ok(_) => {},
        Err(_) => {
            proof {
                assert(false);
            }
        },
    }
    let recovered = T::deserialize(buffer.as_slice());
    match recovered {
        Ok(v) => {
            proof {
                T::lemma_encoding_injective(&v, value);
            }
            v
        },
        Err(_) => {
            proof {
                assert(value.spec_encoding() == buffer@);
                assert(false);
            }
            vstd::pervasive::unreached()
        },
    }
}

} // verus!
