//! A homogeneous collection of exactly `N` values, `N` fixed at the type
//! level and never zero.  Fixed-size on the wire exactly when its element
//! type is; its hash tree root has no length mix-in.

use vstd::prelude::*;
use crate::de::{deserialize_homogeneous_composite, DeserializeError};
use crate::merkleization::{
    merkleize, pack_bytes, MerkleizationError, Node, MAX_MERKLE_LEAVES, spec_merkleize,
    spec_pack, lemma_pack_len,
};
use crate::ser::{serialize_composite, SerializeError};
use crate::ssz::{
    SimpleSerialize, concat_element_encodings, element_root_chunks, spec_concat_encodings,
    spec_element_roots, spec_roots_in_bounds, spec_seq_encoding, spec_seq_serializable,
    lemma_concat_len_fixed, lemma_seq_encoding_injective,
};

verus! {

/// A homogeneous collection of exactly `N` values; `N == 0` is illegal.
#[derive(Debug, PartialEq, Eq)]
pub struct Vector<T: SimpleSerialize, const N: usize>(Vec<T>);

impl<T: SimpleSerialize, const N: usize> View for Vector<T, N> {
    type V = Seq<T>;

    closed spec fn view(&self) -> Seq<T> {
        self.0@
    }
}

impl<T: SimpleSerialize, const N: usize> DeepView for Vector<T, N> {
    type V = Seq<<T as DeepView>::V>;

    closed spec fn deep_view(&self) -> Seq<<T as DeepView>::V> {
        self.0.deep_view()
    }
}

impl<T: SimpleSerialize, const N: usize> Vector<T, N> {
    /// The number of elements held.
    pub fn len(&self) -> (r: usize)
        ensures
            r == self@.len(),
    {
        self.0.len()
    }

    /// A borrow of the element at `index`.
    pub fn get(&self, index: usize) -> (r: &T)
        requires
            index < self@.len(),
        ensures
            *r == self@[index as int],
    {
        vstd::std_specs::vec::vec_index(&self.0, index)
    }

    /// Replaces the element at `index`.
    pub fn set(&mut self, index: usize, element: T)
        requires
            index < old(self)@.len(),
        ensures
            final(self)@ == old(self)@.update(index as int, element),
    {
        let slot = vstd::std_specs::vec::vec_index_mut(&mut self.0, index);
        *slot = element;
    }

    /// Wraps a vector of elements, rejecting any count other than `N` (and
    /// the illegal bound `N == 0`).
    pub fn try_from_elements(elements: Vec<T>) -> (r: Result<Vector<T, N>, SerializeError>)
        ensures
            match r {
                Ok(vector) => vector@ == elements@ && elements@.len() == N && N > 0,
                Err(e) => {
                    &&& (elements@.len() != N || N == 0)
                    &&& e == (SerializeError::IllegalType { bound: N })
                },
            },
    {
        if N == 0 || elements.len() != N {
            return Err(SerializeError::IllegalType { bound: N });
        }
        Ok(Vector(elements))
    }
}

impl<T: SimpleSerialize + Default, const N: usize> Default for Vector<T, N> {
    /// `N` default elements.
    fn default() -> (r: Self)
        ensures
            r@.len() == N,
    {
        let mut inner: Vec<T> = Vec::new();
        let mut i: usize = 0;
        while i < N
            invariant
                i <= N,
                inner@.len() == i,
            decreases N - i,
        {
            inner.push(T::default());
            i = i + 1;
        }
        Vector(inner)
    }
}

impl<T: SimpleSerialize, const N: usize> SimpleSerialize for Vector<T, N> {
    open spec fn spec_is_variable_size() -> bool {
        T::spec_is_variable_size()
    }

    open spec fn spec_size_hint() -> int {
        if T::spec_is_variable_size() {
            0
        } else {
            N as int * T::spec_size_hint()
        }
    }

    open spec fn spec_valid(&self) -> bool {
        self@.len() == N && N > 0 && spec_seq_serializable(self@)
    }

    open spec fn spec_encoding(&self) -> Seq<u8> {
        spec_seq_encoding(self@)
    }

    open spec fn spec_is_composite_type() -> bool {
        true
    }

    open spec fn spec_hash_tree_root(&self) -> Seq<u8> {
        if T::spec_is_composite_type() {
            spec_merkleize(spec_element_roots(self@), Option::None)
        } else {
            spec_merkleize(spec_pack(spec_concat_encodings(self@)), Option::None)
        }
    }

    open spec fn spec_root_in_bounds(&self) -> bool {
        &&& spec_roots_in_bounds(self@)
        &&& if T::spec_is_composite_type() {
            self@.len() <= MAX_MERKLE_LEAVES
        } else {
            &&& !T::spec_is_variable_size()
            &&& T::spec_size_hint() <= usize::MAX as int
            &&& (self@.len() as int * T::spec_size_hint() + 31) / 32 <= MAX_MERKLE_LEAVES
                as int
        }
    }

    proof fn lemma_fixed_size(&self) {
        if !T::spec_is_variable_size() {
            lemma_concat_len_fixed(self@);
            self@[0].lemma_fixed_size();
            let h = T::spec_size_hint();
            assert(N as int * h >= 1 * h) by (nonlinear_arith)
                requires
                    N as int >= 1,
                    h >= 0,
            ;
        }
    }

    proof fn lemma_encoding_injective(a: &Self, b: &Self) {
        lemma_seq_encoding_injective(a@, b@);
        assert(a.deep_view() =~= b.deep_view());
    }

    fn is_variable_size() -> (r: bool) {
        T::is_variable_size()
    }

    fn size_hint() -> (r: usize) {
        if T::is_variable_size() {
            0
        } else if N == 0 {
            0
        } else {
            proof {
                if T::spec_size_hint() > usize::MAX as int {
                    assert(N as int * T::spec_size_hint() >= T::spec_size_hint()) by (
                    nonlinear_arith)
                        requires
                            N as int >= 1,
                            T::spec_size_hint() > 0,
                    ;
                }
            }
            let h = T::size_hint();
            proof {
                assert(N as int * (h as int) == N as int * T::spec_size_hint());
            }
            N * h
        }
    }

    fn try_size_hint() -> (r: Option<usize>) {
        if T::is_variable_size() {
            Option::Some(0)
        } else if N == 0 {
            Option::Some(0)
        } else {
            match T::try_size_hint() {
                Option::None => {
                    proof {
                        assert(N as int * T::spec_size_hint() >= T::spec_size_hint()) by (
                        nonlinear_arith)
                            requires
                                N as int >= 1,
                                T::spec_size_hint() > 0,
                        ;
                    }
                    Option::None
                },
                Option::Some(h) => {
                    proof {
                        lemma_u128_product_fits(N as int, h as int);
                    }
                    let p: u128 = (N as u128) * (h as u128);
                    proof {
                        assert(p as int == N as int * T::spec_size_hint());
                    }
                    if p > (usize::MAX as u128) {
                        Option::None
                    } else {
                        Option::Some(p as usize)
                    }
                },
            }
        }
    }

    fn is_composite_type() -> (r: bool) {
        true
    }

    fn serialize(&self, buffer: &mut Vec<u8>) -> (r: Result<usize, SerializeError>)
        ensures
            N == 0 ==> r == Err::<usize, SerializeError>(SerializeError::IllegalType {
                bound: 0,
            }),
    {
        if N == 0 {
            return Err(SerializeError::IllegalType { bound: N });
        }
        if self.0.len() != N {
            return Err(SerializeError::IllegalType { bound: N });
        }
        serialize_composite(&self.0, buffer)
    }

    fn deserialize(encoding: &[u8]) -> (r: Result<Self, DeserializeError>)
        ensures
            N == 0 ==> r == Err::<Vector<T, N>, DeserializeError>(
                DeserializeError::IllegalType { bound: 0 },
            ),
            forall|s: Seq<T>|
                spec_seq_serializable(s) && spec_seq_encoding(s) == encoding@ && N > 0
                    && s.len() < N ==> r == Err::<Vector<T, N>, DeserializeError>(
                    DeserializeError::InputTooShort,
                ),
            forall|s: Seq<T>|
                spec_seq_serializable(s) && spec_seq_encoding(s) == encoding@ && N > 0
                    && s.len() > N ==> r == Err::<Vector<T, N>, DeserializeError>(
                    DeserializeError::ExtraInput,
                ),
    {
        if N == 0 {
            return Err(DeserializeError::IllegalType { bound: N });
        }
        if !T::is_variable_size() {
            // a fixed-size vector owns exactly `N` windows of the width
            let expected_ok: bool = match T::try_size_hint() {
                Option::None => false,
                Option::Some(h) => {
                    proof {
                        lemma_u128_product_fits(N as int, h as int);
                        vstd::slice::axiom_spec_len(encoding);
                    }
                    let exp: u128 = (N as u128) * (h as u128);
                    proof {
                        assert(exp as int == N as int * T::spec_size_hint());
                    }
                    if (encoding.len() as u128) < exp {
                        proof {
                            lemma_vector_exact_length::<T, N>(encoding@);
                            assert((h as int) >= 1) by {
                                if h == 0 {
                                    assert((N as int) * (h as int) == 0) by (nonlinear_arith)
                                        requires
                                            (h as int) == 0,
                                    ;
                                }
                            }
                            assert forall|s: Seq<T>|
                                spec_seq_serializable(s) && spec_seq_encoding(s)
                                    == encoding@ implies s.len() < N as int by {
                                lemma_concat_len_fixed(s);
                                assert(s.len() < N as int) by (nonlinear_arith)
                                    requires
                                        s.len() * (h as int) < (N as int) * (h as int),
                                        (h as int) >= 1,
                                ;
                            }
                        }
                        return Err(DeserializeError::InputTooShort);
                    }
                    if (encoding.len() as u128) > exp {
                        proof {
                            lemma_vector_exact_length::<T, N>(encoding@);
                            assert forall|s: Seq<T>|
                                spec_seq_serializable(s) && spec_seq_encoding(s)
                                    == encoding@ implies s.len() > N as int by {
                                lemma_concat_len_fixed(s);
                                if h == 0 {
                                    assert(s.len() * (h as int) == 0) by (nonlinear_arith)
                                        requires
                                            (h as int) == 0,
                                    ;
                                } else {
                                    assert(s.len() > N as int) by (nonlinear_arith)
                                        requires
                                            s.len() * (h as int) > (N as int) * (h as int),
                                            (h as int) >= 1,
                                    ;
                                }
                            }
                        }
                        return Err(DeserializeError::ExtraInput);
                    }
                    true
                },
            };
            if !expected_ok {
                proof {
                    vstd::slice::axiom_spec_len(encoding);
                    assert(N as int * T::spec_size_hint() >= T::spec_size_hint()) by (
                    nonlinear_arith)
                        requires
                            N as int >= 1,
                            T::spec_size_hint() > 0,
                    ;
                    lemma_vector_exact_length::<T, N>(encoding@);
                    assert forall|s: Seq<T>|
                        spec_seq_serializable(s) && spec_seq_encoding(s) == encoding@ implies
                        s.len() < N as int by {
                        if s.len() > 0 {
                            lemma_concat_len_fixed(s);
                            s[0].lemma_fixed_size();
                            assert(s.len() * T::spec_size_hint() >= T::spec_size_hint()) by (
                            nonlinear_arith)
                                requires
                                    s.len() >= 1,
                                    T::spec_size_hint() >= 1,
                            ;
                        }
                    }
                }
                return Err(DeserializeError::InputTooShort);
            }
        }
        match deserialize_homogeneous_composite::<T>(encoding) {
            Ok(elems) => {
                proof {
                    assert forall|s: Seq<T>|
                        spec_seq_serializable(s) && spec_seq_encoding(s) == encoding@ implies
                        s.len() == elems@.len() by {
                        lemma_seq_encoding_injective(s, elems@);
                    }
                }
                if elems.len() < N {
                    proof {
                        lemma_vector_count_mismatch::<T, N>(encoding@, elems@);
                    }
                    return Err(DeserializeError::InputTooShort);
                }
                if elems.len() > N {
                    proof {
                        lemma_vector_count_mismatch::<T, N>(encoding@, elems@);
                    }
                    return Err(DeserializeError::ExtraInput);
                }
                Ok(Vector(elems))
            },
            Err(err) => {
                proof {
                    assert forall|v: Vector<T, N>| v.spec_valid() implies v.spec_encoding()
                        != encoding@ by {}
                }
                Err(err)
            },
        }
    }

    fn hash_tree_root(&self) -> (r: Result<Node, MerkleizationError>) {
        if T::is_composite_type() {
            let chunks = match element_root_chunks(&self.0) {
                Ok(chunks) => chunks,
                Err(err) => {
                    return Err(err);
                },
            };
            match merkleize(&chunks, Option::None) {
                Ok(root) => Ok(root),
                Err(_) => {
                    proof {
                        assert(false);
                    }
                    vstd::pervasive::unreached()
                },
            }
        } else {
            let buf = match concat_element_encodings(&self.0) {
                Ok(buf) => buf,
                Err(err) => {
                    return Err(err);
                },
            };
            let chunks = pack_bytes(&buf);
            proof {
                lemma_pack_len(buf@);
                lemma_concat_len_fixed(self@);
            }
            match merkleize(&chunks, Option::None) {
                Ok(root) => Ok(root),
                Err(_) => {
                    proof {
                        assert(false);
                    }
                    vstd::pervasive::unreached()
                },
            }
        }
    }
}

/// A serializable fixed-size vector encodes to exactly `N` widths of bytes,
/// so a buffer of any other length matches no vector.
proof fn lemma_vector_exact_length<T: SimpleSerialize, const N: usize>(bytes: Seq<u8>)
    requires
        !T::spec_is_variable_size(),
        N >= 1,
        bytes.len() != N as int * T::spec_size_hint(),
    ensures
        forall|v: Vector<T, N>| v.spec_valid() ==> v.spec_encoding() != bytes,
{
    assert forall|v: Vector<T, N>| v.spec_valid() implies v.spec_encoding() != bytes by {
        if v.spec_encoding() == bytes {
            lemma_concat_len_fixed(v@);
        }
    }
}

/// A decoded sequence of the wrong element count rules out every vector:
/// the encoding fixes the count.
proof fn lemma_vector_count_mismatch<T: SimpleSerialize, const N: usize>(
    bytes: Seq<u8>,
    elems: Seq<T>,
)
    requires
        spec_seq_serializable(elems),
        spec_seq_encoding(elems) == bytes,
        elems.len() != N as int,
    ensures
        forall|v: Vector<T, N>| v.spec_valid() ==> v.spec_encoding() != bytes,
{
    assert forall|v: Vector<T, N>| v.spec_valid() implies v.spec_encoding() != bytes by {
        if v.spec_encoding() == bytes {
            lemma_seq_encoding_injective(v@, elems);
        }
    }
}

/// Two machine words multiply without leaving `u128`.
proof fn lemma_u128_product_fits(a: int, b: int)
    requires
        0 <= a <= u64::MAX as int,
        0 <= b <= u64::MAX as int,
    ensures
        a * b <= u128::MAX as int,
{
    assert(a * b <= (u64::MAX as int) * (u64::MAX as int)) by (nonlinear_arith)
        requires
            0 <= a <= u64::MAX as int,
            0 <= b <= u64::MAX as int,
    ;
}

} // verus!
