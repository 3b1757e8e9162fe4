//! A homogeneous collection of a variable number of values, holding at most
//! `N` elements.  Always variable-size on the wire; its hash tree root
//! commits to the capacity `N` and mixes in the actual length.

use vstd::prelude::*;
use crate::de::{deserialize_homogeneous_composite, DeserializeError};
use crate::merkleization::{
    merkleize, mix_in_length, pack_bytes, MerkleizationError, Node, MAX_MERKLE_LEAVES,
    spec_merkleize, spec_mix_in_length, spec_pack, lemma_pack_len,
};
use crate::ser::{serialize_composite, SerializeError};
use crate::ssz::{
    SimpleSerialize, concat_element_encodings, element_root_chunks, spec_concat_encodings,
    spec_element_roots, spec_roots_in_bounds, spec_seq_encoding, spec_seq_serializable,
    lemma_concat_len_fixed, lemma_seq_encoding_injective,
};
use vstd::arithmetic::div_mod::lemma_div_is_ordered;

verus! {

/// A homogeneous collection of a variable number of values, at most `N`.
#[derive(Debug, PartialEq, Eq)]
pub struct List<T: SimpleSerialize, const N: usize>(Vec<T>);

impl<T: SimpleSerialize, const N: usize> View for List<T, N> {
    type V = Seq<T>;

    closed spec fn view(&self) -> Seq<T> {
        self.0@
    }
}

impl<T: SimpleSerialize, const N: usize> DeepView for List<T, N> {
    type V = Seq<<T as DeepView>::V>;

    closed spec fn deep_view(&self) -> Seq<<T as DeepView>::V> {
        self.0.deep_view()
    }
}

impl<T: SimpleSerialize, const N: usize> List<T, N> {
    /// The number of elements held.
    pub fn len(&self) -> (r: usize)
        ensures
            r == self@.len(),
    {
        self.0.len()
    }

    /// A borrow of the element at `index`.
    pub fn get(&self, index: usize) -> (r: &T)
        requires
            index < self@.len(),
        ensures
            *r == self@[index as int],
    {
        vstd::std_specs::vec::vec_index(&self.0, index)
    }

    /// Appends an element; the collection must still have room.
    pub fn push(&mut self, element: T)
        requires
            old(self)@.len() < N,
        ensures
            final(self)@ == old(self)@.push(element),
    {
        self.0.push(element);
    }

    /// Wraps a vector of elements, rejecting one past the bound.
    pub fn try_from_elements(elements: Vec<T>) -> (r: Result<List<T, N>, SerializeError>)
        ensures
            match r {
                Ok(list) => list@ == elements@ && elements@.len() <= N,
                Err(e) => {
                    &&& elements@.len() > N
                    &&& e == (SerializeError::IllegalType { bound: N })
                },
            },
    {
        if elements.len() > N {
            return Err(SerializeError::IllegalType { bound: N });
        }
        Ok(List(elements))
    }
}

impl<T: SimpleSerialize, const N: usize> Default for List<T, N> {
    /// The empty collection.
    fn default() -> (r: Self)
        ensures
            r@ == Seq::<T>::empty(),
    {
        let inner: Vec<T> = Vec::new();
        proof {
            assert(inner@ =~= Seq::<T>::empty());
        }
        List(inner)
    }
}

impl<T: SimpleSerialize, const N: usize> SimpleSerialize for List<T, N> {
    open spec fn spec_is_variable_size() -> bool {
        true
    }

    open spec fn spec_size_hint() -> int {
        0
    }

    open spec fn spec_valid(&self) -> bool {
        self@.len() <= N && spec_seq_serializable(self@)
    }

    open spec fn spec_encoding(&self) -> Seq<u8> {
        spec_seq_encoding(self@)
    }

    open spec fn spec_is_composite_type() -> bool {
        true
    }

    open spec fn spec_hash_tree_root(&self) -> Seq<u8> {
        if T::spec_is_composite_type() {
            spec_mix_in_length(
                spec_merkleize(spec_element_roots(self@), Option::Some(N as int)),
                self@.len() as int,
            )
        } else {
            spec_mix_in_length(
                spec_merkleize(
                    spec_pack(spec_concat_encodings(self@)),
                    Option::Some((N as int * T::spec_size_hint() + 31) / 32),
                ),
                self@.len() as int,
            )
        }
    }

    open spec fn spec_root_in_bounds(&self) -> bool {
        &&& spec_roots_in_bounds(self@)
        &&& if T::spec_is_composite_type() {
            N as int <= MAX_MERKLE_LEAVES as int
        } else {
            &&& !T::spec_is_variable_size()
            &&& T::spec_size_hint() <= usize::MAX as int
            &&& (N as int * T::spec_size_hint() + 31) / 32 <= MAX_MERKLE_LEAVES as int
        }
    }

    proof fn lemma_fixed_size(&self) {
    }

    proof fn lemma_encoding_injective(a: &Self, b: &Self) {
        lemma_seq_encoding_injective(a@, b@);
        assert(a.deep_view() =~= b.deep_view());
    }

    fn is_variable_size() -> (r: bool) {
        true
    }

    fn size_hint() -> (r: usize) {
        0
    }

    fn try_size_hint() -> (r: Option<usize>) {
        Option::Some(0)
    }

    fn is_composite_type() -> (r: bool) {
        true
    }

    fn serialize(&self, buffer: &mut Vec<u8>) -> (r: Result<usize, SerializeError>)
        ensures
            self@.len() > N ==> r == Err::<usize, SerializeError>(
                SerializeError::IllegalType { bound: N },
            ),
    {
        if self.0.len() > N {
            return Err(SerializeError::IllegalType { bound: N });
        }
        serialize_composite(&self.0, buffer)
    }

    fn deserialize(encoding: &[u8]) -> (r: Result<Self, DeserializeError>)
        ensures
            forall|s: Seq<T>|
                spec_seq_serializable(s) && spec_seq_encoding(s) == encoding@ && s.len() > N
                    ==> r == Err::<List<T, N>, DeserializeError>(DeserializeError::IllegalType {
                    bound: N,
                }),
    {
        match deserialize_homogeneous_composite::<T>(encoding) {
            Ok(elems) => {
                if elems.len() > N {
                    proof {
                        assert forall|l: List<T, N>| l.spec_valid() implies l.spec_encoding()
                            != encoding@ by {
                            if l.spec_encoding() == encoding@ {
                                lemma_seq_encoding_injective(l@, elems@);
                            }
                        }
                    }
                    return Err(DeserializeError::IllegalType { bound: N });
                }
                proof {
                    assert forall|s: Seq<T>|
                        spec_seq_serializable(s) && spec_seq_encoding(s) == encoding@ implies
                        s.len() <= N by {
                        lemma_seq_encoding_injective(s, elems@);
                    }
                }
                Ok(List(elems))
            },
            Err(err) => {
                proof {
                    assert forall|l: List<T, N>| l.spec_valid() implies l.spec_encoding()
                        != encoding@ by {}
                }
                Err(err)
            },
        }
    }

    fn hash_tree_root(&self) -> (r: Result<Node, MerkleizationError>) {
        let length = self.0.len();
        let root = if T::is_composite_type() {
            let chunks = match element_root_chunks(&self.0) {
                Ok(chunks) => chunks,
                Err(err) => {
                    return Err(err);
                },
            };
            if chunks.len() > N {
                return Err(MerkleizationError::InputExceedsLimit);
            }
            match merkleize(&chunks, Option::Some(N)) {
                Ok(root) => root,
                Err(_) => {
                    proof {
                        assert(false);
                    }
                    vstd::pervasive::unreached()
                },
            }
        } else {
            let h = T::size_hint();
            let buf = match concat_element_encodings(&self.0) {
                Ok(buf) => buf,
                Err(err) => {
                    return Err(err);
                },
            };
            let chunks = pack_bytes(&buf);
            let cap128: u128 = ((N as u128) * (h as u128) + 31) / 32;
            proof {
                assert(cap128 as int == (N as int * T::spec_size_hint() + 31) / 32);
            }
            let cap = cap128 as usize;
            if chunks.len() > cap {
                proof {
                    lemma_pack_len(buf@);
                    if self.spec_valid() {
                        lemma_concat_len_fixed(self@);
                        assert(self@.len() * T::spec_size_hint() <= N as int
                            * T::spec_size_hint()) by (nonlinear_arith)
                            requires
                                self@.len() <= N as int,
                                T::spec_size_hint() >= 0,
                        ;
                        lemma_div_is_ordered(
                            buf@.len() as int + 31,
                            N as int * T::spec_size_hint() + 31,
                            32,
                        );
                        assert(false);
                    }
                }
                return Err(MerkleizationError::InputExceedsLimit);
            }
            match merkleize(&chunks, Option::Some(cap)) {
                Ok(root) => root,
                Err(_) => {
                    proof {
                        assert(false);
                    }
                    vstd::pervasive::unreached()
                },
            }
        };
        Ok(mix_in_length(&root, length))
    }
}

} // verus!
