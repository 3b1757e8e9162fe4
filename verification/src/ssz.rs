//! The capability contract every participating type implements, and the
//! shared shape of homogeneous-sequence encodings (fixed-size concatenation,
//! or a 4-byte little-endian offset table followed by the payloads).

use vstd::prelude::*;
use crate::de::DeserializeError;
use crate::merkleization::{MerkleizationError, Node};
use crate::ser::SerializeError;
use crate::uint::{
    spec_le_bytes, lemma_le_bytes_len, lemma_le_bytes_injective, lemma_pow256_values,
};

verus! {

/// The capability contract of the codec.  A participating type declares its
/// size class, a canonical byte encoding with its inverse, and a 32-byte
/// hash tree root, all stated over the type's mathematical view.
pub trait SimpleSerialize: Sized + DeepView {
    /// Whether the wire size of a value depends on the value.
    spec fn spec_is_variable_size() -> bool;

    /// The wire size of every value when fixed-size; 0 when variable-size.
    spec fn spec_size_hint() -> int;

    /// Whether the value can be put on the wire at all: structural bounds
    /// hold, and every offset a variable-size encoding needs fits 4 bytes.
    spec fn spec_valid(&self) -> bool;

    /// The canonical wire encoding of the value.
    spec fn spec_encoding(&self) -> Seq<u8>;

    /// Whether the hash tree root treats the value as a composite
    /// (per-element chunks) rather than a packed basic scalar.
    spec fn spec_is_composite_type() -> bool;

    /// The 32-byte hash tree root of the value.
    spec fn spec_hash_tree_root(&self) -> Seq<u8>;

    /// Machine bound: the chunk counts the root computation walks stay
    /// below the tree builder's leaf cap.
    spec fn spec_root_in_bounds(&self) -> bool;

    /// A fixed-size type encodes every serializable value to exactly
    /// `spec_size_hint()` bytes, and that width is never zero.
    proof fn lemma_fixed_size(&self)
        requires
            self.spec_valid(),
        ensures
            !Self::spec_is_variable_size() ==> self.spec_encoding().len()
                == Self::spec_size_hint(),
            !Self::spec_is_variable_size() ==> Self::spec_size_hint() > 0,
    ;

    /// The canonical encoding determines the value: two serializable values
    /// with the same bytes have the same deep view.
    proof fn lemma_encoding_injective(a: &Self, b: &Self)
        requires
            a.spec_valid(),
            b.spec_valid(),
            a.spec_encoding() == b.spec_encoding(),
        ensures
            a.deep_view() == b.deep_view(),
    ;

    /// Whether the wire size of a value of this type depends on the value.
    fn is_variable_size() -> (r: bool)
        ensures
            r == Self::spec_is_variable_size(),
    ;

    /// The byte size of every value if the type is fixed-size, else 0.
    fn size_hint() -> (r: usize)
        requires
            Self::spec_size_hint() <= usize::MAX as int,
        ensures
            r as int == Self::spec_size_hint(),
    ;

    /// `size_hint`, guarded against widths past the machine's word.
    fn try_size_hint() -> (r: Option<usize>)
        ensures
            match r {
                Option::Some(h) => h as int == Self::spec_size_hint(),
                Option::None => Self::spec_size_hint() > usize::MAX as int,
            },
    ;

    /// Whether the hash tree root treats the value as a composite.
    fn is_composite_type() -> (r: bool)
        ensures
            r == Self::spec_is_composite_type(),
    ;

    /// Appends the value's canonical encoding to `buffer` and returns the
    /// number of bytes written; on failure the buffer is untouched.
    fn serialize(&self, buffer: &mut Vec<u8>) -> (r: Result<usize, SerializeError>)
        ensures
            match r {
                Ok(n) => {
                    &&& self.spec_valid()
                    &&& final(buffer)@ == old(buffer)@ + self.spec_encoding()
                    &&& n as int == self.spec_encoding().len()
                },
                Err(_) => {
                    &&& !self.spec_valid()
                    &&& final(buffer)@ == old(buffer)@
                },
            },
    ;

    /// Recovers the unique serializable value whose canonical encoding is
    /// exactly `encoding`, or fails when there is none.
    fn deserialize(encoding: &[u8]) -> (r: Result<Self, DeserializeError>)
        ensures
            match r {
                Ok(v) => v.spec_valid() && v.spec_encoding() == encoding@,
                Err(_) => forall|v: Self| v.spec_valid() ==> v.spec_encoding() != encoding@,
            },
    ;

    /// The value's 32-byte hash tree root; deterministic: the root is a
    /// function of the value.  Fails only on values that cannot be put on
    /// the wire either.
    fn hash_tree_root(&self) -> (r: Result<Node, MerkleizationError>)
        requires
            self.spec_root_in_bounds(),
        ensures
            match r {
                Ok(node) => node@ == self.spec_hash_tree_root() && node.wf(),
                Err(_) => !self.spec_valid(),
            },
    ;
}

/// Every element of the sequence is serializable.
pub open spec fn spec_seq_valid<T: SimpleSerialize>(s: Seq<T>) -> bool {
    forall|i: int| 0 <= i < s.len() ==> (#[trigger] s[i]).spec_valid()
}

/// The concatenation of the elements' canonical encodings.
pub open spec fn spec_concat_encodings<T: SimpleSerialize>(s: Seq<T>) -> Seq<u8>
    decreases s.len(),
{
    if s.len() == 0 {
        Seq::empty()
    } else {
        spec_concat_encodings(s.drop_last()) + s.last().spec_encoding()
    }
}

/// The absolute offset at which element `i`'s payload begins: past the
/// 4-byte-per-element offset table and every earlier payload.
pub open spec fn spec_offset_at<T: SimpleSerialize>(s: Seq<T>, i: int) -> int {
    4 * s.len() as int + spec_concat_encodings(s.take(i)).len() as int
}

/// The first `k` entries of the offset table, each 4 little-endian bytes.
pub open spec fn spec_offsets_table<T: SimpleSerialize>(s: Seq<T>, k: int) -> Seq<u8>
    decreases k,
{
    if k <= 0 {
        Seq::empty()
    } else {
        spec_offsets_table(s, k - 1) + spec_le_bytes(spec_offset_at(s, k - 1), 4)
    }
}

/// Every offset of the table fits in 4 bytes (the last offset is the
/// largest, so it alone decides).
pub open spec fn spec_offsets_fit<T: SimpleSerialize>(s: Seq<T>) -> bool {
    s.len() == 0 || spec_offset_at(s, s.len() - 1) <= u32::MAX as int
}

/// The canonical encoding of a homogeneous sequence: plain concatenation
/// for fixed-size elements; an offset table followed by the payloads for
/// variable-size elements (empty input encodes to the empty string).
pub open spec fn spec_seq_encoding<T: SimpleSerialize>(s: Seq<T>) -> Seq<u8> {
    if !T::spec_is_variable_size() {
        spec_concat_encodings(s)
    } else {
        spec_offsets_table(s, s.len() as int) + spec_concat_encodings(s)
    }
}

/// A sequence the wire can carry: serializable elements whose offsets, if
/// any are needed, fit in 4 bytes.
pub open spec fn spec_seq_serializable<T: SimpleSerialize>(s: Seq<T>) -> bool {
    spec_seq_valid(s) && (T::spec_is_variable_size() ==> spec_offsets_fit(s))
}

/// Appending one element appends its encoding to the concatenation.
pub proof fn lemma_concat_snoc<T: SimpleSerialize>(s: Seq<T>, i: int)
    requires
        0 <= i < s.len(),
    ensures
        spec_concat_encodings(s.take(i + 1)) == spec_concat_encodings(s.take(i))
            + s[i].spec_encoding(),
{
    let t = s.take(i + 1);
    assert(t.drop_last() =~= s.take(i));
    assert(t.last() == s[i]);
}

/// The concatenation of valid fixed-size encodings has length
/// `s.len() * spec_size_hint()`.
pub proof fn lemma_concat_len_fixed<T: SimpleSerialize>(s: Seq<T>)
    requires
        spec_seq_valid(s),
        !T::spec_is_variable_size(),
    ensures
        spec_concat_encodings(s).len() == s.len() * T::spec_size_hint(),
    decreases s.len(),
{
    if s.len() == 0 {
    } else {
        let d = s.drop_last();
        assert(spec_seq_valid(d)) by {
            assert(forall|i: int| 0 <= i < d.len() ==> d[i] == s[i]);
        }
        lemma_concat_len_fixed(d);
        s.last().lemma_fixed_size();
        let n = s.len() as int;
        let h = T::spec_size_hint();
        assert(n * h == (n - 1) * h + h) by (nonlinear_arith);
    }
}

/// Concatenation length is monotone in the prefix taken.
pub proof fn lemma_concat_take_len_monotone<T: SimpleSerialize>(s: Seq<T>, i: int, j: int)
    requires
        0 <= i <= j <= s.len(),
    ensures
        spec_concat_encodings(s.take(i)).len() <= spec_concat_encodings(s.take(j)).len(),
    decreases j - i,
{
    if i < j {
        lemma_concat_take_len_monotone(s, i + 1, j);
        lemma_concat_snoc(s, i);
    }
}

/// The whole concatenation is the `len`-prefix concatenation.
pub proof fn lemma_concat_take_all<T: SimpleSerialize>(s: Seq<T>)
    ensures
        spec_concat_encodings(s.take(s.len() as int)) == spec_concat_encodings(s),
{
    assert(s.take(s.len() as int) =~= s);
}

/// The offset table has exactly 4 bytes per entry.
pub proof fn lemma_offsets_table_len<T: SimpleSerialize>(s: Seq<T>, k: int)
    requires
        k >= 0,
    ensures
        spec_offsets_table(s, k).len() == 4 * k,
    decreases k,
{
    if k > 0 {
        lemma_offsets_table_len(s, k - 1);
        lemma_le_bytes_len(spec_offset_at(s, k - 1), 4);
    }
}

/// Entry `i` of the offset table is the 4 little-endian bytes of element
/// `i`'s absolute offset.
pub proof fn lemma_offsets_table_entry<T: SimpleSerialize>(s: Seq<T>, k: int, i: int)
    requires
        0 <= i < k,
    ensures
        spec_offsets_table(s, k).subrange(4 * i, 4 * i + 4) == spec_le_bytes(
            spec_offset_at(s, i),
            4,
        ),
    decreases k,
{
    lemma_offsets_table_len(s, k);
    lemma_le_bytes_len(spec_offset_at(s, k - 1), 4);
    if i == k - 1 {
        lemma_offsets_table_len(s, k - 1);
        assert(spec_offsets_table(s, k).subrange(4 * i, 4 * i + 4) =~= spec_le_bytes(
            spec_offset_at(s, i),
            4,
        ));
    } else {
        lemma_offsets_table_entry(s, k - 1, i);
        lemma_offsets_table_len(s, k - 1);
        assert(spec_offsets_table(s, k).subrange(4 * i, 4 * i + 4) =~= spec_offsets_table(
            s,
            k - 1,
        ).subrange(4 * i, 4 * i + 4));
    }
}

/// The 32-byte root of each element, in order: the leaf chunks of a
/// composite collection.
pub open spec fn spec_element_roots<T: SimpleSerialize>(s: Seq<T>) -> Seq<Seq<u8>> {
    Seq::new(s.len(), |i: int| s[i].spec_hash_tree_root())
}

/// Every element's root computation stays within the tree builder's cap.
pub open spec fn spec_roots_in_bounds<T: SimpleSerialize>(s: Seq<T>) -> bool {
    forall|i: int| 0 <= i < s.len() ==> (#[trigger] s[i]).spec_root_in_bounds()
}

/// Hashes each element into its own 32-byte chunk, in order.
#[verifier::loop_isolation(false)]
pub fn element_root_chunks<T: SimpleSerialize>(elements: &Vec<T>) -> (r: Result<
    Vec<Node>,
    MerkleizationError,
>)
    requires
        spec_roots_in_bounds(elements@),
    ensures
        match r {
            Ok(chunks) => {
                &&& chunks@.map_values(|n: Node| n@) == spec_element_roots(elements@)
                &&& forall|i: int| 0 <= i < chunks@.len() ==> (#[trigger] chunks@[i]).wf()
                &&& chunks@.len() == elements@.len()
            },
            Err(_) => !spec_seq_valid(elements@),
        },
{
    let n = elements.len();
    let mut chunks: Vec<Node> = Vec::new();
    let mut i: usize = 0;
    while i < n
        invariant
            i <= n,
            chunks@.len() == i,
            forall|j: int|
                0 <= j < i ==> (#[trigger] chunks@[j])@ == elements@[j].spec_hash_tree_root(),
            forall|j: int| 0 <= j < i ==> (#[trigger] chunks@[j]).wf(),
        decreases n - i,
    {
        let element = vstd::std_specs::vec::vec_index(elements, i);
        match element.hash_tree_root() {
            Ok(node) => {
                chunks.push(node);
            },
            Err(err) => {
                proof {
                    assert(!elements@[i as int].spec_valid());
                    assert(!spec_seq_valid(elements@));
                }
                return Err(err);
            },
        }
        i = i + 1;
    }
    proof {
        assert(chunks@.map_values(|n: Node| n@) =~= spec_element_roots(elements@));
    }
    Ok(chunks)
}

/// Concatenates every element's canonical encoding: the byte stream that a
/// basic-scalar collection packs into chunks.
#[verifier::loop_isolation(false)]
pub fn concat_element_encodings<T: SimpleSerialize>(elements: &Vec<T>) -> (r: Result<
    Vec<u8>,
    MerkleizationError,
>)
    ensures
        match r {
            Ok(buf) => {
                &&& spec_seq_valid(elements@)
                &&& buf@ == spec_concat_encodings(elements@)
            },
            Err(_) => !spec_seq_valid(elements@),
        },
{
    let n = elements.len();
    let mut buf: Vec<u8> = Vec::new();
    let mut i: usize = 0;
    proof {
        assert(elements@.take(0) =~= Seq::<T>::empty());
    }
    while i < n
        invariant
            i <= n,
            forall|j: int| 0 <= j < i ==> (#[trigger] elements@[j]).spec_valid(),
            buf@ == spec_concat_encodings(elements@.take(i as int)),
        decreases n - i,
    {
        let element = vstd::std_specs::vec::vec_index(elements, i);
        match element.serialize(&mut buf) {
            Ok(_) => {},
            Err(_) => {
                proof {
                    assert(!elements@[i as int].spec_valid());
                    assert(!spec_seq_valid(elements@));
                }
                return Err(MerkleizationError::InputExceedsLimit);
            },
        }
        proof {
            lemma_concat_snoc(elements@, i as int);
        }
        i = i + 1;
    }
    proof {
        lemma_concat_take_all(elements@);
    }
    Ok(buf)
}

/// The length of the concatenation of the first `i` encodings.
pub open spec fn spec_prefix_len<T: SimpleSerialize>(s: Seq<T>, i: int) -> int {
    spec_concat_encodings(s.take(i)).len() as int
}

/// A prefix of a sequence is still elementwise serializable.
pub proof fn lemma_seq_valid_take<T: SimpleSerialize>(s: Seq<T>, i: int)
    requires
        spec_seq_valid(s),
        0 <= i <= s.len(),
    ensures
        spec_seq_valid(s.take(i)),
{
    assert forall|j: int| 0 <= j < s.take(i).len() implies (#[trigger] s.take(i)[j]).spec_valid()
        by {
        assert(s.take(i)[j] == s[j]);
    }
}

/// Element `i`'s encoding sits at its cumulative offset inside the
/// concatenation of all the encodings.
pub proof fn lemma_concat_slice<T: SimpleSerialize>(s: Seq<T>, i: int)
    requires
        0 <= i < s.len(),
    ensures
        spec_prefix_len(s, i + 1) == spec_prefix_len(s, i) + s[i].spec_encoding().len(),
        spec_prefix_len(s, i + 1) <= spec_concat_encodings(s).len(),
        s[i].spec_encoding() == spec_concat_encodings(s).subrange(
            spec_prefix_len(s, i),
            spec_prefix_len(s, i + 1),
        ),
    decreases s.len(),
{
    lemma_concat_snoc(s, i);
    lemma_concat_take_len_monotone(s, i + 1, s.len() as int);
    lemma_concat_take_all(s);
    let d = s.drop_last();
    if i == s.len() - 1 {
        assert(s.take(i) =~= d);
        assert(s.take(i + 1) =~= s);
        assert(s[i].spec_encoding() =~= spec_concat_encodings(s).subrange(
            spec_prefix_len(s, i),
            spec_prefix_len(s, i + 1),
        ));
    } else {
        lemma_concat_slice(d, i);
        assert(d.take(i) =~= s.take(i));
        assert(d.take(i + 1) =~= s.take(i + 1));
        assert(s[i].spec_encoding() =~= spec_concat_encodings(s).subrange(
            spec_prefix_len(s, i),
            spec_prefix_len(s, i + 1),
        ));
    }
}

/// For fixed-size elements the cumulative offset of element `i` is `i`
/// times the width, so its encoding is the `i`-th width-sized window.
pub proof fn lemma_concat_fixed_slice<T: SimpleSerialize>(s: Seq<T>, i: int)
    requires
        spec_seq_valid(s),
        !T::spec_is_variable_size(),
        0 <= i < s.len(),
    ensures
        spec_prefix_len(s, i) == i * T::spec_size_hint(),
        s[i].spec_encoding() == spec_concat_encodings(s).subrange(
            i * T::spec_size_hint(),
            i * T::spec_size_hint() + T::spec_size_hint(),
        ),
{
    lemma_seq_valid_take(s, i);
    lemma_concat_len_fixed(s.take(i));
    lemma_concat_slice(s, i);
    s[i].lemma_fixed_size();
}

/// Offsets never decrease across the table.
pub proof fn lemma_offset_at_monotone<T: SimpleSerialize>(s: Seq<T>, i: int, j: int)
    requires
        0 <= i <= j <= s.len(),
    ensures
        spec_offset_at(s, i) <= spec_offset_at(s, j),
{
    lemma_concat_take_len_monotone(s, i, j);
}

/// Every offset points within the whole encoding.
pub proof fn lemma_offset_at_in_range<T: SimpleSerialize>(s: Seq<T>, i: int)
    requires
        T::spec_is_variable_size(),
        0 <= i <= s.len(),
    ensures
        4 * s.len() <= spec_offset_at(s, i) <= spec_seq_encoding(s).len(),
        spec_seq_encoding(s).len() == 4 * s.len() + spec_concat_encodings(s).len(),
    decreases 0int,
{
    lemma_offsets_table_len(s, s.len() as int);
    lemma_concat_take_len_monotone(s, 0, i);
    lemma_concat_take_len_monotone(s, i, s.len() as int);
    lemma_concat_take_all(s);
    assert(s.take(0) =~= Seq::<T>::empty());
}

/// An offset table is recovered from the bytes that spell its entries.
pub proof fn lemma_offsets_table_from_bytes<T: SimpleSerialize>(
    s: Seq<T>,
    bytes: Seq<u8>,
    k: int,
)
    requires
        0 <= 4 * k <= bytes.len(),
        forall|j: int|
            0 <= j < k ==> spec_le_bytes(spec_offset_at(s, j), 4) == bytes.subrange(
                4 * j,
                4 * j + 4,
            ),
    ensures
        spec_offsets_table(s, k) == bytes.take(4 * k),
    decreases k,
{
    if k > 0 {
        lemma_offsets_table_from_bytes(s, bytes, k - 1);
        lemma_offsets_table_len(s, k - 1);
        lemma_le_bytes_len(spec_offset_at(s, k - 1), 4);
        assert(spec_offsets_table(s, k) =~= bytes.take(4 * k));
    } else {
        assert(spec_offsets_table(s, k) =~= bytes.take(4 * k));
    }
}

/// The payloads of a variable-size encoding are everything past the table,
/// and element `i`'s payload is the window between its offset and the next.
pub proof fn lemma_variable_element_window<T: SimpleSerialize>(s: Seq<T>, i: int)
    requires
        T::spec_is_variable_size(),
        0 <= i < s.len(),
    ensures
        spec_offset_at(s, i + 1) == spec_offset_at(s, i) + s[i].spec_encoding().len(),
        s[i].spec_encoding() == spec_seq_encoding(s).subrange(
            spec_offset_at(s, i),
            spec_offset_at(s, i + 1),
        ),
{
    lemma_concat_slice(s, i);
    lemma_offsets_table_len(s, s.len() as int);
    lemma_offset_at_in_range(s, i);
    lemma_offset_at_in_range(s, i + 1);
    assert(s[i].spec_encoding() =~= spec_seq_encoding(s).subrange(
        spec_offset_at(s, i),
        spec_offset_at(s, i + 1),
    ));
}

/// The encoding of a homogeneous sequence determines the element count and
/// every element's view: no two serializable sequences share wire bytes.
pub proof fn lemma_seq_encoding_injective<T: SimpleSerialize>(a: Seq<T>, b: Seq<T>)
    requires
        spec_seq_serializable(a),
        spec_seq_serializable(b),
        spec_seq_encoding(a) == spec_seq_encoding(b),
    ensures
        a.len() == b.len(),
        forall|i: int| 0 <= i < a.len() ==> (#[trigger] a[i]).deep_view() == b[i].deep_view(),
{
    if !T::spec_is_variable_size() {
        lemma_concat_len_fixed(a);
        lemma_concat_len_fixed(b);
        if a.len() == 0 && b.len() == 0 {
        } else if a.len() == 0 {
            b[0].lemma_fixed_size();
            let h = T::spec_size_hint();
            assert(b.len() * h >= h) by (nonlinear_arith)
                requires
                    b.len() >= 1,
                    h >= 1,
            ;
        } else if b.len() == 0 {
            a[0].lemma_fixed_size();
            let h = T::spec_size_hint();
            assert(a.len() * h >= h) by (nonlinear_arith)
                requires
                    a.len() >= 1,
                    h >= 1,
            ;
        } else {
            a[0].lemma_fixed_size();
            let h = T::spec_size_hint();
            assert(a.len() == b.len()) by (nonlinear_arith)
                requires
                    h >= 1,
                    a.len() * h == b.len() * h,
            ;
            assert forall|i: int| 0 <= i < a.len() implies (#[trigger] a[i]).deep_view()
                == b[i].deep_view() by {
                lemma_concat_fixed_slice(a, i);
                lemma_concat_fixed_slice(b, i);
                T::lemma_encoding_injective(&a[i], &b[i]);
            }
        }
    } else {
        lemma_offsets_table_len(a, a.len() as int);
        lemma_offsets_table_len(b, b.len() as int);
        if a.len() == 0 && b.len() == 0 {
        } else if a.len() == 0 {
            assert(spec_seq_encoding(b).len() >= 4 * b.len());
        } else if b.len() == 0 {
            assert(spec_seq_encoding(a).len() >= 4 * a.len());
        } else {
            let enc = spec_seq_encoding(a);
            lemma_pow256_values();
            // entry 0 of each table spells 4 times the element count
            lemma_offsets_table_entry(a, a.len() as int, 0);
            lemma_offsets_table_entry(b, b.len() as int, 0);
            lemma_offset_at_in_range(a, 0);
            lemma_offset_at_in_range(b, 0);
            lemma_offset_at_monotone(a, 0, a.len() - 1);
            lemma_offset_at_monotone(b, 0, b.len() - 1);
            assert(enc.subrange(0, 4) == spec_le_bytes(spec_offset_at(a, 0), 4)) by {
                assert(enc.subrange(0, 4) =~= spec_offsets_table(a, a.len() as int).subrange(
                    0,
                    4,
                ));
            }
            assert(enc.subrange(0, 4) == spec_le_bytes(spec_offset_at(b, 0), 4)) by {
                assert(enc.subrange(0, 4) =~= spec_offsets_table(b, b.len() as int).subrange(
                    0,
                    4,
                ));
            }
            assert(a.take(0) =~= Seq::<T>::empty());
            assert(b.take(0) =~= Seq::<T>::empty());
            lemma_le_bytes_injective(spec_offset_at(a, 0), spec_offset_at(b, 0), 4);
            assert(a.len() == b.len());
            let n = a.len() as int;
            // every offset of both tables agrees, so every window agrees
            assert forall|i: int| 0 <= i < n implies spec_offset_at(a, i) == spec_offset_at(
                b,
                i,
            ) by {
                lemma_offsets_table_entry(a, n, i);
                lemma_offsets_table_entry(b, n, i);
                lemma_offset_at_monotone(a, i, n - 1);
                lemma_offset_at_monotone(b, i, n - 1);
                lemma_offset_at_in_range(a, i);
                lemma_offset_at_in_range(b, i);
                assert(enc.subrange(4 * i, 4 * i + 4) == spec_le_bytes(
                    spec_offset_at(a, i),
                    4,
                )) by {
                    assert(enc.subrange(4 * i, 4 * i + 4) =~= spec_offsets_table(
                        a,
                        n,
                    ).subrange(4 * i, 4 * i + 4));
                }
                assert(enc.subrange(4 * i, 4 * i + 4) == spec_le_bytes(
                    spec_offset_at(b, i),
                    4,
                )) by {
                    assert(enc.subrange(4 * i, 4 * i + 4) =~= spec_offsets_table(
                        b,
                        n,
                    ).subrange(4 * i, 4 * i + 4));
                }
                lemma_le_bytes_injective(spec_offset_at(a, i), spec_offset_at(b, i), 4);
            }
            lemma_offset_at_in_range(a, n);
            lemma_offset_at_in_range(b, n);
            lemma_concat_take_all(a);
            lemma_concat_take_all(b);
            assert forall|i: int| 0 <= i < a.len() implies (#[trigger] a[i]).deep_view()
                == b[i].deep_view() by {
                lemma_variable_element_window(a, i);
                lemma_variable_element_window(b, i);
                if i + 1 < n {
                    assert(spec_offset_at(a, i + 1) == spec_offset_at(b, i + 1));
                } else {
                    assert(spec_offset_at(a, n) == spec_offset_at(b, n));
                }
                assert(a[i].spec_encoding() == b[i].spec_encoding());
                T::lemma_encoding_injective(&a[i], &b[i]);
            }
        }
    }
}

} // verus!
