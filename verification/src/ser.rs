//! Encoding errors, and the homogeneous-sequence encoder shared by `List`
//! and `Vector`: fixed-size elements are concatenated in place, while
//! variable-size elements sit behind a 4-byte little-endian offset table.

use vstd::prelude::*;
use crate::ssz::{
    SimpleSerialize, spec_concat_encodings, spec_offset_at, spec_offsets_table,
    spec_offsets_fit, spec_seq_encoding, spec_seq_serializable, spec_seq_valid,
    lemma_concat_snoc, lemma_concat_take_all, lemma_concat_take_len_monotone,
    lemma_offset_at_monotone,
};
use crate::uint::write_le_bytes;

verus! {

/// A value could not be encoded.
#[derive(Debug, Clone, Copy, PartialEq, Eq, Structural)]
pub enum SerializeError {
    /// A zero-capacity fixed vector, or a sequence holding more elements
    /// than its declared bound, was handed to the encoder.
    IllegalType { bound: usize },
    /// A variable-size payload grew past what a 4-byte little-endian offset
    /// can address, so no offset table can describe it.
    MaximumEncodedLengthExceeded,
}

/// Encodes an ordered homogeneous sequence into `buffer` following the
/// composite rule: fixed-size elements inline, variable-size elements
/// behind a backfilled offset table.  On failure the buffer is untouched.
#[verifier::loop_isolation(false)]
pub fn serialize_composite<T: SimpleSerialize>(elements: &Vec<T>, buffer: &mut Vec<u8>) -> (r:
    Result<usize, SerializeError>)
    ensures
        match r {
            Ok(n) => {
                &&& spec_seq_serializable(elements@)
                &&& final(buffer)@ == old(buffer)@ + spec_seq_encoding(elements@)
                &&& n as int == spec_seq_encoding(elements@).len()
            },
            Err(_) => {
                &&& !spec_seq_serializable(elements@)
                &&& final(buffer)@ == old(buffer)@
            },
        },
{
    let n = elements.len();
    let mut parts: Vec<Vec<u8>> = Vec::new();
    let mut i: usize = 0;
    while i < n
        invariant
            i <= n,
            parts@.len() == i,
            forall|j: int| 0 <= j < i ==> (#[trigger] elements@[j]).spec_valid(),
            forall|j: int| 0 <= j < i ==> (#[trigger] parts@[j])@ == elements@[j].spec_encoding(),
            buffer@ == old(buffer)@,
        decreases n - i,
    {
        let element = vstd::std_specs::vec::vec_index(elements, i);
        let mut tmp: Vec<u8> = Vec::new();
        match element.serialize(&mut tmp) {
            Ok(_) => {},
            Err(err) => {
                proof {
                    assert(!elements@[i as int].spec_valid());
                    assert(!spec_seq_valid(elements@));
                }
                return Err(err);
            },
        }
        parts.push(tmp);
        i = i + 1;
    }
    proof {
        assert(spec_seq_valid(elements@));
    }
    let start = buffer.len();
    let ghost orig = buffer@;
    if !T::is_variable_size() {
        let mut i: usize = 0;
        proof {
            assert(elements@.take(0) =~= Seq::<T>::empty());
        }
        while i < n
            invariant
                i <= n,
                buffer@ == orig + spec_concat_encodings(elements@.take(i as int)),
            decreases n - i,
        {
            let part = vstd::std_specs::vec::vec_index(&parts, i);
            buffer.extend_from_slice(part.as_slice());
            proof {
                lemma_concat_snoc(elements@, i as int);
            }
            i = i + 1;
        }
        proof {
            lemma_concat_take_all(elements@);
            vstd::std_specs::vec::axiom_spec_len(buffer);
        }
        Ok(buffer.len() - start)
    } else {
        // first pass: the offset of the final element, which is the largest,
        // must fit in 4 bytes
        if n > 0 {
            let mut acc: u128 = 4 * (n as u128);
            let mut i: usize = 0;
            proof {
                assert(elements@.take(0) =~= Seq::<T>::empty());
            }
            while i < n - 1
                invariant
                    n >= 1,
                    i <= n - 1,
                    acc as int == spec_offset_at(elements@, i as int),
                    acc <= 0xf_ffff_ffff_ffff_ffff,
                decreases n - i,
            {
                if acc > 0xffff_ffff {
                    proof {
                        lemma_offset_at_monotone(elements@, i as int, n as int - 1);
                        assert(!spec_offsets_fit(elements@));
                    }
                    return Err(SerializeError::MaximumEncodedLengthExceeded);
                }
                let part = vstd::std_specs::vec::vec_index(&parts, i);
                proof {
                    lemma_concat_snoc(elements@, i as int);
                    vstd::std_specs::vec::axiom_spec_len(part);
                }
                acc = acc + (part.len() as u128);
                i = i + 1;
            }
            if acc > 0xffff_ffff {
                proof {
                    assert(!spec_offsets_fit(elements@));
                }
                return Err(SerializeError::MaximumEncodedLengthExceeded);
            }
            proof {
                assert(spec_offsets_fit(elements@));
            }
        }
        // second pass: the offset table
        let mut off: u128 = 4 * (n as u128);
        let mut i: usize = 0;
        proof {
            assert(elements@.take(0) =~= Seq::<T>::empty());
            assert(buffer@ =~= orig + spec_offsets_table(elements@, 0));
        }
        while i < n
            invariant
                i <= n,
                off as int == spec_offset_at(elements@, i as int),
                i < n ==> off <= 0xffff_ffff,
                buffer@ == orig + spec_offsets_table(elements@, i as int),
            decreases n - i,
        {
            write_le_bytes(buffer, off, 4);
            let part = vstd::std_specs::vec::vec_index(&parts, i);
            proof {
                lemma_concat_snoc(elements@, i as int);
                vstd::std_specs::vec::axiom_spec_len(part);
                if i as int + 1 < n {
                    lemma_offset_at_monotone(elements@, i as int + 1, n as int - 1);
                }
            }
            off = off + (part.len() as u128);
            i = i + 1;
        }
        // third pass: the payloads
        let ghost with_table = buffer@;
        let mut i: usize = 0;
        proof {
            assert(elements@.take(0) =~= Seq::<T>::empty());
            assert(buffer@ =~= with_table + spec_concat_encodings(elements@.take(0)));
        }
        while i < n
            invariant
                i <= n,
                buffer@ == with_table + spec_concat_encodings(elements@.take(i as int)),
            decreases n - i,
        {
            let part = vstd::std_specs::vec::vec_index(&parts, i);
            buffer.extend_from_slice(part.as_slice());
            proof {
                lemma_concat_snoc(elements@, i as int);
            }
            i = i + 1;
        }
        proof {
            lemma_concat_take_all(elements@);
            vstd::std_specs::vec::axiom_spec_len(buffer);
            assert(buffer@ =~= orig + spec_seq_encoding(elements@));
            if n > 0 {
                lemma_concat_take_len_monotone(elements@, n as int - 1, n as int);
                lemma_concat_take_all(elements@);
            }
        }
        Ok(buffer.len() - start)
    }
}

/// One accumulated field encoding: whether it is fixed-size, and its bytes.
struct Part {
    fixed: bool,
    bytes: Vec<u8>,
}

/// The fixed-size region's width up to part `k`: fixed parts contribute
/// their bytes, each variable part a 4-byte offset slot.
pub open spec fn spec_parts_fixed_len(parts: Seq<(bool, Seq<u8>)>, k: int) -> int
    decreases k,
{
    if k <= 0 {
        0
    } else {
        spec_parts_fixed_len(parts, k - 1) + if parts[k - 1].0 {
            parts[k - 1].1.len() as int
        } else {
            4
        }
    }
}

/// The variable payloads' total width up to part `k`.
pub open spec fn spec_parts_var_len(parts: Seq<(bool, Seq<u8>)>, k: int) -> int
    decreases k,
{
    if k <= 0 {
        0
    } else {
        spec_parts_var_len(parts, k - 1) + if parts[k - 1].0 {
            0
        } else {
            parts[k - 1].1.len() as int
        }
    }
}

/// The absolute offset backfilled into part `i`'s slot: the whole fixed
/// region, then every earlier variable payload.
pub open spec fn spec_parts_offset(parts: Seq<(bool, Seq<u8>)>, i: int) -> int {
    spec_parts_fixed_len(parts, parts.len() as int) + spec_parts_var_len(parts, i)
}

/// The fixed-size region: fixed encodings inline, offsets for the rest.
pub open spec fn spec_parts_head(parts: Seq<(bool, Seq<u8>)>, k: int) -> Seq<u8>
    decreases k,
{
    if k <= 0 {
        Seq::empty()
    } else {
        spec_parts_head(parts, k - 1) + if parts[k - 1].0 {
            parts[k - 1].1
        } else {
            crate::uint::spec_le_bytes(spec_parts_offset(parts, k - 1), 4)
        }
    }
}

/// The trailing variable region: the variable payloads in order.
pub open spec fn spec_parts_tail(parts: Seq<(bool, Seq<u8>)>, k: int) -> Seq<u8>
    decreases k,
{
    if k <= 0 {
        Seq::empty()
    } else {
        spec_parts_tail(parts, k - 1) + if parts[k - 1].0 {
            Seq::empty()
        } else {
            parts[k - 1].1
        }
    }
}

/// The container encoding: the fixed region, then the variable region.
pub open spec fn spec_container_encoding(parts: Seq<(bool, Seq<u8>)>) -> Seq<u8> {
    spec_parts_head(parts, parts.len() as int) + spec_parts_tail(parts, parts.len() as int)
}

/// The machine can carry the encoding: each backfilled offset fits 4 bytes
/// and the total length fits the machine's word.
pub open spec fn spec_container_fits(parts: Seq<(bool, Seq<u8>)>) -> bool {
    &&& spec_parts_offset(parts, parts.len() as int) <= usize::MAX as int
    &&& forall|i: int|
        0 <= i < parts.len() && !(#[trigger] parts[i]).0 ==> spec_parts_offset(parts, i)
            <= u32::MAX as int
}

/// Partial sums of the fixed region never exceed the whole.
pub proof fn lemma_parts_fixed_len_monotone(parts: Seq<(bool, Seq<u8>)>, i: int, j: int)
    requires
        0 <= i <= j,
    ensures
        spec_parts_fixed_len(parts, i) <= spec_parts_fixed_len(parts, j),
        spec_parts_var_len(parts, i) <= spec_parts_var_len(parts, j),
        spec_parts_fixed_len(parts, i) >= 0,
        spec_parts_var_len(parts, i) >= 0,
    decreases j - i, j,
{
    if i > 0 {
        lemma_parts_fixed_len_monotone(parts, i - 1, i - 1);
    }
    if i < j {
        lemma_parts_fixed_len_monotone(parts, i, j - 1);
    }
}

/// Accumulates a container's field encodings in declaration order, laying
/// fixed-size fields inline and variable-size fields behind a 4-byte
/// little-endian offset table that is backfilled on completion.
pub struct Serializer {
    parts: Vec<Part>,
}

impl View for Serializer {
    type V = Seq<(bool, Seq<u8>)>;

    closed spec fn view(&self) -> Seq<(bool, Seq<u8>)> {
        self.parts@.map_values(|p: Part| (p.fixed, p.bytes@))
    }
}

impl Default for Serializer {
    /// A serializer holding no fields yet.
    fn default() -> (r: Serializer)
        ensures
            r@ == Seq::<(bool, Seq<u8>)>::empty(),
    {
        let parts: Vec<Part> = Vec::new();
        proof {
            assert(parts@.map_values(|p: Part| (p.fixed, p.bytes@)) =~= Seq::<(
                bool,
                Seq<u8>,
            )>::empty());
        }
        Serializer { parts }
    }
}

impl Serializer {
    /// Appends one field's encoding, remembering its size class.
    pub fn with_element<T: SimpleSerialize>(&mut self, element: &T) -> (r: Result<
        (),
        SerializeError,
    >)
        ensures
            match r {
                Ok(_) => {
                    &&& element.spec_valid()
                    &&& final(self)@ == old(self)@.push(
                        (!T::spec_is_variable_size(), element.spec_encoding()),
                    )
                },
                Err(_) => {
                    &&& !element.spec_valid()
                    &&& final(self)@ == old(self)@
                },
            },
    {
        let mut bytes: Vec<u8> = Vec::new();
        match element.serialize(&mut bytes) {
            Ok(_) => {},
            Err(err) => {
                return Err(err);
            },
        }
        let fixed = !T::is_variable_size();
        self.parts.push(Part { fixed, bytes });
        proof {
            assert(self.parts@.map_values(|p: Part| (p.fixed, p.bytes@)) =~= old(
                self,
            )@.push((!T::spec_is_variable_size(), element.spec_encoding())));
        }
        Ok(())
    }

    /// The fixed region's width, refused when it overruns the machine's
    /// word (the whole encoding could then never fit either).
    #[verifier::loop_isolation(false)]
    fn fixed_width(&self) -> (r: Result<usize, SerializeError>)
        ensures
            match r {
                Ok(fl) => fl as int == spec_parts_fixed_len(self@, self@.len() as int),
                Err(_) => !spec_container_fits(self@),
            },
    {
        let ghost parts = self@;
        let n = self.parts.len();
        let mut fl: usize = 0;
        let mut i: usize = 0;
        while i < n
            invariant
                i <= n,
                fl as int == spec_parts_fixed_len(parts, i as int),
            decreases n - i,
        {
            let part = vstd::std_specs::vec::vec_index(&self.parts, i);
            let add = if part.fixed {
                part.bytes.len()
            } else {
                4
            };
            proof {
                vstd::std_specs::vec::axiom_spec_len(&part.bytes);
            }
            if fl > usize::MAX - add {
                proof {
                    lemma_parts_fixed_len_monotone(parts, i as int + 1, n as int);
                    lemma_parts_fixed_len_monotone(parts, 0, n as int);
                }
                return Err(SerializeError::MaximumEncodedLengthExceeded);
            }
            fl = fl + add;
            i = i + 1;
        }
        Ok(fl)
    }

    /// Every backfilled offset must fit its 4-byte slot, and the whole
    /// encoding the machine's word.
    #[verifier::loop_isolation(false)]
    fn check_offsets(&self, fl: usize) -> (r: Result<(), SerializeError>)
        requires
            fl as int == spec_parts_fixed_len(self@, self@.len() as int),
        ensures
            match r {
                Ok(_) => spec_container_fits(self@),
                Err(_) => !spec_container_fits(self@),
            },
    {
        let ghost parts = self@;
        let n = self.parts.len();
        let mut off: usize = fl;
        let mut i: usize = 0;
        while i < n
            invariant
                i <= n,
                off as int == spec_parts_offset(parts, i as int),
                forall|j: int|
                    0 <= j < i && !(#[trigger] parts[j]).0 ==> spec_parts_offset(parts, j)
                        <= u32::MAX as int,
            decreases n - i,
        {
            let part = vstd::std_specs::vec::vec_index(&self.parts, i);
            proof {
                vstd::std_specs::vec::axiom_spec_len(&part.bytes);
            }
            if !part.fixed {
                if off > 0xffff_ffff {
                    return Err(SerializeError::MaximumEncodedLengthExceeded);
                }
                if off > usize::MAX - part.bytes.len() {
                    proof {
                        lemma_parts_fixed_len_monotone(parts, i as int + 1, n as int);
                    }
                    return Err(SerializeError::MaximumEncodedLengthExceeded);
                }
                off = off + part.bytes.len();
            }
            i = i + 1;
        }
        Ok(())
    }

    /// Writes the fixed region: fixed encodings inline, each variable
    /// field's offset backfilled into its 4-byte slot.
    #[verifier::loop_isolation(false)]
    fn write_head(&self, buffer: &mut Vec<u8>, fl: usize)
        requires
            fl as int == spec_parts_fixed_len(self@, self@.len() as int),
            spec_container_fits(self@),
        ensures
            final(buffer)@ == old(buffer)@ + spec_parts_head(self@, self@.len() as int),
    {
        let ghost parts = self@;
        let n = self.parts.len();
        let ghost orig = buffer@;
        let mut off: usize = fl;
        let mut i: usize = 0;
        proof {
            assert(buffer@ =~= orig + spec_parts_head(parts, 0));
        }
        while i < n
            invariant
                i <= n,
                off as int == spec_parts_offset(parts, i as int),
                buffer@ == orig + spec_parts_head(parts, i as int),
            decreases n - i,
        {
            let part = vstd::std_specs::vec::vec_index(&self.parts, i);
            proof {
                vstd::std_specs::vec::axiom_spec_len(&part.bytes);
                lemma_parts_fixed_len_monotone(parts, i as int, i as int + 1);
                lemma_parts_fixed_len_monotone(parts, i as int + 1, n as int);
            }
            if part.fixed {
                buffer.extend_from_slice(part.bytes.as_slice());
            } else {
                crate::uint::write_le_bytes(buffer, off as u128, 4);
                off = off + part.bytes.len();
            }
            i = i + 1;
        }
    }

    /// Writes the trailing variable region: the variable payloads in order.
    #[verifier::loop_isolation(false)]
    fn write_tail(&self, buffer: &mut Vec<u8>)
        ensures
            final(buffer)@ == old(buffer)@ + spec_parts_tail(self@, self@.len() as int),
    {
        let ghost parts = self@;
        let n = self.parts.len();
        let ghost orig = buffer@;
        let mut i: usize = 0;
        proof {
            assert(buffer@ =~= orig + spec_parts_tail(parts, 0));
        }
        while i < n
            invariant
                i <= n,
                buffer@ == orig + spec_parts_tail(parts, i as int),
            decreases n - i,
        {
            let part = vstd::std_specs::vec::vec_index(&self.parts, i);
            if !part.fixed {
                buffer.extend_from_slice(part.bytes.as_slice());
            } else {
                proof {
                    assert(buffer@ =~= orig + spec_parts_tail(parts, i as int + 1));
                }
            }
            i = i + 1;
        }
    }

    /// Writes the accumulated container encoding into `buffer` and returns
    /// the number of bytes written; on failure the buffer is untouched.
    pub fn serialize(&self, buffer: &mut Vec<u8>) -> (r: Result<usize, SerializeError>)
        ensures
            match r {
                Ok(n) => {
                    &&& spec_container_fits(self@)
                    &&& final(buffer)@ == old(buffer)@ + spec_container_encoding(self@)
                    &&& n as int == spec_container_encoding(self@).len()
                },
                Err(_) => {
                    &&& !spec_container_fits(self@)
                    &&& final(buffer)@ == old(buffer)@
                },
            },
    {
        let fl = match self.fixed_width() {
            Ok(fl) => fl,
            Err(err) => {
                return Err(err);
            },
        };
        match self.check_offsets(fl) {
            Ok(_) => {},
            Err(err) => {
                return Err(err);
            },
        }
        let start = buffer.len();
        let ghost orig = buffer@;
        self.write_head(buffer, fl);
        self.write_tail(buffer);
        proof {
            assert(buffer@ =~= orig + spec_container_encoding(self@));
            vstd::std_specs::vec::axiom_spec_len(buffer);
        }
        Ok(buffer.len() - start)
    }
}

/// The fixed region is exactly as wide as the widths say.
pub proof fn lemma_parts_head_len(parts: Seq<(bool, Seq<u8>)>, k: int)
    requires
        k >= 0,
    ensures
        spec_parts_head(parts, k).len() == spec_parts_fixed_len(parts, k),
    decreases k,
{
    if k > 0 {
        lemma_parts_head_len(parts, k - 1);
        crate::uint::lemma_le_bytes_len(spec_parts_offset(parts, k - 1), 4);
    }
}

/// The variable region is exactly as wide as the payloads say.
pub proof fn lemma_parts_tail_len(parts: Seq<(bool, Seq<u8>)>, k: int)
    requires
        k >= 0,
    ensures
        spec_parts_tail(parts, k).len() == spec_parts_var_len(parts, k),
    decreases k,
{
    if k > 0 {
        lemma_parts_tail_len(parts, k - 1);
    }
}

/// Inside the fixed region, part `i`'s window holds its own bytes when it
/// is fixed-size, and the 4 little-endian bytes of its offset when not.
pub proof fn lemma_parts_head_window(parts: Seq<(bool, Seq<u8>)>, k: int, i: int)
    requires
        0 <= i < k,
    ensures
        spec_parts_head(parts, k).subrange(
            spec_parts_fixed_len(parts, i),
            spec_parts_fixed_len(parts, i + 1),
        ) == if parts[i].0 {
            parts[i].1
        } else {
            crate::uint::spec_le_bytes(spec_parts_offset(parts, i), 4)
        },
    decreases k,
{
    lemma_parts_head_len(parts, k);
    lemma_parts_head_len(parts, k - 1);
    lemma_parts_head_len(parts, i);
    lemma_parts_head_len(parts, i + 1);
    crate::uint::lemma_le_bytes_len(spec_parts_offset(parts, k - 1), 4);
    lemma_parts_fixed_len_monotone(parts, 0, i);
    if i == k - 1 {
        assert(spec_parts_head(parts, k).subrange(
            spec_parts_fixed_len(parts, i),
            spec_parts_fixed_len(parts, i + 1),
        ) =~= if parts[i].0 {
            parts[i].1
        } else {
            crate::uint::spec_le_bytes(spec_parts_offset(parts, i), 4)
        });
    } else {
        lemma_parts_head_window(parts, k - 1, i);
        lemma_parts_fixed_len_monotone(parts, 0, i);
        lemma_parts_fixed_len_monotone(parts, i + 1, k - 1);
        assert(spec_parts_head(parts, k).subrange(
            spec_parts_fixed_len(parts, i),
            spec_parts_fixed_len(parts, i + 1),
        ) =~= spec_parts_head(parts, k - 1).subrange(
            spec_parts_fixed_len(parts, i),
            spec_parts_fixed_len(parts, i + 1),
        ));
    }
}

/// Inside the variable region, variable part `i`'s window holds its bytes.
pub proof fn lemma_parts_tail_window(parts: Seq<(bool, Seq<u8>)>, k: int, i: int)
    requires
        0 <= i < k,
        !parts[i].0,
    ensures
        spec_parts_tail(parts, k).subrange(
            spec_parts_var_len(parts, i),
            spec_parts_var_len(parts, i + 1),
        ) == parts[i].1,
    decreases k,
{
    lemma_parts_tail_len(parts, k);
    lemma_parts_tail_len(parts, k - 1);
    lemma_parts_tail_len(parts, i);
    lemma_parts_tail_len(parts, i + 1);
    lemma_parts_fixed_len_monotone(parts, 0, i);
    if i == k - 1 {
        assert(spec_parts_tail(parts, k).subrange(
            spec_parts_var_len(parts, i),
            spec_parts_var_len(parts, i + 1),
        ) =~= parts[i].1);
    } else {
        lemma_parts_tail_window(parts, k - 1, i);
        lemma_parts_fixed_len_monotone(parts, 0, i);
        lemma_parts_fixed_len_monotone(parts, i + 1, k - 1);
        assert(spec_parts_tail(parts, k).subrange(
            spec_parts_var_len(parts, i),
            spec_parts_var_len(parts, i + 1),
        ) =~= spec_parts_tail(parts, k - 1).subrange(
            spec_parts_var_len(parts, i),
            spec_parts_var_len(parts, i + 1),
        ));
    }
}

} // verus!
