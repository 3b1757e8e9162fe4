//! Decoding errors, and the homogeneous-sequence decoder shared by `List`
//! and `Vector`: it accepts exactly the canonical encodings of the
//! serializable sequences, validating widths or the offset table.

use vstd::prelude::*;
use crate::ssz::{
    SimpleSerialize, spec_concat_encodings, spec_offset_at, spec_offsets_fit,
    spec_offsets_table, spec_seq_encoding, spec_seq_serializable,
    lemma_concat_len_fixed, lemma_concat_take_all, lemma_concat_fixed_slice,
    lemma_offset_at_in_range, lemma_offset_at_monotone, lemma_offsets_table_entry,
    lemma_offsets_table_from_bytes, lemma_offsets_table_len, lemma_variable_element_window,
};
use crate::uint::{
    read_le_bytes, spec_le_bytes, spec_le_value, lemma_le_bytes_of_value,
    lemma_le_value_bound, lemma_le_value_of_bytes, lemma_pow256_values,
};
use vstd::arithmetic::div_mod::{lemma_fundamental_div_mod, lemma_mod_multiples_basic};
use crate::ser::{
    spec_container_encoding, spec_container_fits, spec_parts_fixed_len, spec_parts_head,
    spec_parts_offset, spec_parts_tail, spec_parts_var_len, lemma_parts_fixed_len_monotone,
    lemma_parts_head_len, lemma_parts_head_window, lemma_parts_tail_len,
    lemma_parts_tail_window,
};

verus! {

/// A byte buffer could not be decoded into a value.
#[derive(Debug, Clone, Copy, PartialEq, Eq, Structural)]
pub enum DeserializeError {
    /// The buffer is shorter than the minimum the type requires.
    ExpectedFurtherInput { provided: usize, expected: usize },
    /// The buffer holds trailing bytes past the expected exact length.
    AdditionalInput { provided: usize, expected: usize },
    /// A fixed-size collection was given fewer bytes (or elements) than it needs.
    InputTooShort,
    /// A fixed-size collection was given more bytes (or elements) than it needs.
    ExtraInput,
    /// A union selector byte outside the declared range.
    InvalidByte(u8),
    /// An offset in the offset table is out of order, lands inside the
    /// fixed-size prefix, or points past the end of the buffer.
    InvalidOffset { offset: usize },
    /// A zero-capacity fixed vector can never be decoded.
    IllegalType { bound: usize },
}

/// The value spelled by the `j`-th 4-byte word of a buffer.
pub open spec fn spec_word_at(bytes: Seq<u8>, j: int) -> int {
    spec_le_value(bytes.subrange(4 * j, 4 * j + 4))
}

/// No serializable sequence encodes to `bytes`.
pub open spec fn spec_no_seq_match<T: SimpleSerialize>(bytes: Seq<u8>) -> bool {
    forall|s: Seq<T>| spec_seq_serializable(s) ==> spec_seq_encoding(s) != bytes
}

/// The empty sequence is serializable and encodes to the empty string.
proof fn lemma_empty_seq_encoding<T: SimpleSerialize>()
    ensures
        spec_seq_serializable(Seq::<T>::empty()),
        spec_seq_encoding(Seq::<T>::empty()) == Seq::<u8>::empty(),
{
    let s = Seq::<T>::empty();
    assert(spec_concat_encodings(s) =~= Seq::<u8>::empty());
    if T::spec_is_variable_size() {
        assert(spec_seq_encoding(s) =~= Seq::<u8>::empty());
    }
}

/// What a serializable nonempty variable-size sequence forces on its wire
/// bytes: word `j` of the table spells element `j`'s offset, every offset
/// is at least the table width, at most the buffer length, and fits 4 bytes.
proof fn lemma_variable_candidate<T: SimpleSerialize>(s: Seq<T>, bytes: Seq<u8>, j: int)
    requires
        T::spec_is_variable_size(),
        spec_seq_serializable(s),
        spec_seq_encoding(s) == bytes,
        0 < s.len(),
        0 <= j < s.len(),
    ensures
        bytes.len() == 4 * s.len() + spec_concat_encodings(s).len(),
        spec_word_at(bytes, j) == spec_offset_at(s, j),
        spec_offset_at(s, 0) == 4 * s.len(),
        4 * s.len() <= spec_offset_at(s, j),
        spec_offset_at(s, j) <= spec_offset_at(s, s.len() - 1) <= u32::MAX as int,
        spec_offset_at(s, j) <= bytes.len(),
{
    let n = s.len() as int;
    lemma_offsets_table_len(s, n);
    lemma_offsets_table_entry(s, n, j);
    lemma_offset_at_monotone(s, j, n - 1);
    lemma_offset_at_monotone(s, 0, j);
    lemma_offset_at_in_range(s, j);
    lemma_offset_at_in_range(s, 0);
    assert(s.take(0) =~= Seq::<T>::empty());
    assert(bytes.subrange(4 * j, 4 * j + 4) =~= spec_offsets_table(s, n).subrange(
        4 * j,
        4 * j + 4,
    ));
    lemma_pow256_values();
    lemma_le_value_of_bytes(spec_offset_at(s, j), 4);
}

/// A nonempty buffer shorter than one table entry matches nothing.
proof fn lemma_no_match_short<T: SimpleSerialize>(bytes: Seq<u8>)
    requires
        T::spec_is_variable_size(),
        0 < bytes.len() < 4,
    ensures
        spec_no_seq_match::<T>(bytes),
{
    assert forall|s: Seq<T>| spec_seq_serializable(s) implies spec_seq_encoding(s) != bytes by {
        if spec_seq_encoding(s) == bytes {
            if s.len() == 0 {
                assert(s =~= Seq::<T>::empty());
                lemma_empty_seq_encoding::<T>();
            } else {
                lemma_variable_candidate(s, bytes, 0);
            }
        }
    }
}

/// A first word that is zero, misaligned, or past the end matches nothing.
proof fn lemma_no_match_first_word<T: SimpleSerialize>(bytes: Seq<u8>, o0: int)
    requires
        T::spec_is_variable_size(),
        bytes.len() >= 4,
        o0 == spec_word_at(bytes, 0),
        o0 == 0 || o0 % 4 != 0 || o0 > bytes.len(),
    ensures
        spec_no_seq_match::<T>(bytes),
{
    assert forall|s: Seq<T>| spec_seq_serializable(s) implies spec_seq_encoding(s) != bytes by {
        if spec_seq_encoding(s) == bytes {
            if s.len() == 0 {
                assert(s =~= Seq::<T>::empty());
                lemma_empty_seq_encoding::<T>();
            } else {
                lemma_variable_candidate(s, bytes, 0);
                assert(o0 == 4 * s.len());
            }
        }
    }
}

/// A table word that goes backwards or past the end matches nothing.
proof fn lemma_no_match_word_order<T: SimpleSerialize>(bytes: Seq<u8>, k: int, i: int)
    requires
        T::spec_is_variable_size(),
        bytes.len() >= 4,
        spec_word_at(bytes, 0) == 4 * k,
        k >= 1,
        1 <= i < k,
        spec_word_at(bytes, i) < spec_word_at(bytes, i - 1) || spec_word_at(bytes, i)
            > bytes.len(),
    ensures
        spec_no_seq_match::<T>(bytes),
{
    assert forall|s: Seq<T>| spec_seq_serializable(s) implies spec_seq_encoding(s) != bytes by {
        if spec_seq_encoding(s) == bytes {
            if s.len() == 0 {
                assert(s =~= Seq::<T>::empty());
                lemma_empty_seq_encoding::<T>();
            } else {
                lemma_variable_candidate(s, bytes, 0);
                assert(s.len() == k);
                lemma_variable_candidate(s, bytes, i);
                lemma_variable_candidate(s, bytes, i - 1);
                lemma_offset_at_monotone(s, i - 1, i);
            }
        }
    }
}

/// If no serializable element encodes to the span between word `i` and the
/// next boundary, nothing matches the whole buffer either.
proof fn lemma_no_match_element<T: SimpleSerialize>(
    bytes: Seq<u8>,
    k: int,
    i: int,
    start: int,
    end: int,
)
    requires
        T::spec_is_variable_size(),
        bytes.len() >= 4,
        spec_word_at(bytes, 0) == 4 * k,
        k >= 1,
        0 <= i < k,
        start == spec_word_at(bytes, i),
        end == if i + 1 < k {
            spec_word_at(bytes, i + 1)
        } else {
            bytes.len() as int
        },
        forall|v: T| v.spec_valid() ==> v.spec_encoding() != bytes.subrange(start, end),
    ensures
        spec_no_seq_match::<T>(bytes),
{
    assert forall|s: Seq<T>| spec_seq_serializable(s) implies spec_seq_encoding(s) != bytes by {
        if spec_seq_encoding(s) == bytes {
            if s.len() == 0 {
                assert(s =~= Seq::<T>::empty());
                lemma_empty_seq_encoding::<T>();
            } else {
                lemma_variable_candidate(s, bytes, 0);
                assert(s.len() == k);
                lemma_variable_candidate(s, bytes, i);
                lemma_variable_element_window(s, i);
                if i + 1 < k {
                    lemma_variable_candidate(s, bytes, i + 1);
                } else {
                    lemma_offset_at_in_range(s, k);
                    lemma_concat_take_all(s);
                }
                assert(s[i].spec_encoding() == bytes.subrange(start, end));
                assert(s[i].spec_valid());
            }
        }
    }
}

/// One decoded element extends the prefix-concatenation facts by one span.
proof fn lemma_decode_step<T: SimpleSerialize>(
    before: Seq<T>,
    element: T,
    bytes: Seq<u8>,
    offs: Seq<usize>,
    k: int,
    i: int,
    start: int,
    end: int,
)
    requires
        0 <= i < k,
        before.len() == i,
        offs.len() == k,
        element.spec_encoding() == bytes.subrange(start, end),
        start == offs[i] as int,
        end == if i + 1 < k {
            offs[i + 1] as int
        } else {
            bytes.len() as int
        },
        offs[0] as int <= start <= end <= bytes.len(),
        forall|j: int|
            0 <= j <= i ==> spec_concat_encodings(#[trigger] before.take(j)) == bytes.subrange(
                offs[0] as int,
                if j < k {
                    offs[j] as int
                } else {
                    bytes.len() as int
                },
            ),
    ensures
        forall|j: int|
            0 <= j <= i + 1 ==> spec_concat_encodings(#[trigger] before.push(element).take(j))
                == bytes.subrange(
                offs[0] as int,
                if j < k {
                    offs[j] as int
                } else {
                    bytes.len() as int
                },
            ),
{
    let after = before.push(element);
    assert(after.drop_last() =~= before);
    assert forall|j: int|
        0 <= j <= i + 1 implies spec_concat_encodings(#[trigger] after.take(j))
        == bytes.subrange(
        offs[0] as int,
        if j < k {
            offs[j] as int
        } else {
            bytes.len() as int
        },
    ) by {
        if j <= i {
            assert(after.take(j) =~= before.take(j));
        } else {
            assert(after.take(j) =~= after);
            assert(spec_concat_encodings(after) == spec_concat_encodings(before)
                + element.spec_encoding());
            assert(spec_concat_encodings(before) == bytes.subrange(offs[0] as int, start)) by {
                assert(before.take(i) =~= before);
            }
            assert(bytes.subrange(offs[0] as int, start) + bytes.subrange(start, end)
                =~= bytes.subrange(
                offs[0] as int,
                if j < k {
                    offs[j] as int
                } else {
                    bytes.len() as int
                },
            ));
        }
    }
}

/// Decoded elements whose spans tile the payload region, under a table
/// whose words spell their canonical offsets, assemble into a sequence
/// whose canonical encoding is exactly the buffer.
proof fn lemma_variable_assembly<T: SimpleSerialize>(
    elems: Seq<T>,
    bytes: Seq<u8>,
    offs: Seq<usize>,
    k: int,
)
    requires
        T::spec_is_variable_size(),
        k >= 1,
        elems.len() == k,
        offs.len() == k,
        4 * k == offs[0] as int,
        offs[0] <= bytes.len(),
        forall|j: int| 0 <= j < k ==> (#[trigger] offs[j]) as int == spec_word_at(bytes, j),
        forall|j: int| 0 <= j < k ==> offs[0] <= #[trigger] offs[j] && offs[j] <= bytes.len(),
        forall|j: int| 0 <= j < k ==> (#[trigger] elems[j]).spec_valid(),
        forall|j: int|
            0 <= j <= k ==> spec_concat_encodings(#[trigger] elems.take(j)) == bytes.subrange(
                4 * k,
                if j < k {
                    offs[j] as int
                } else {
                    bytes.len() as int
                },
            ),
    ensures
        spec_seq_serializable(elems),
        spec_seq_encoding(elems) == bytes,
{
    lemma_concat_take_all(elems);
    assert(elems.take(k) =~= elems);
    assert forall|j: int| 0 <= j < k implies spec_offset_at(elems, j) == offs[j] by {
        assert(spec_concat_encodings(elems.take(j)) == bytes.subrange(4 * k, offs[j] as int));
    }
    assert forall|j: int| 0 <= j < k implies spec_le_bytes(spec_offset_at(elems, j), 4)
        == bytes.subrange(4 * j, 4 * j + 4) by {
        lemma_le_bytes_of_value(bytes.subrange(4 * j, 4 * j + 4));
    }
    lemma_offsets_table_from_bytes(elems, bytes, k);
    lemma_offsets_table_len(elems, k);
    assert(spec_seq_encoding(elems) =~= bytes) by {
        assert(spec_concat_encodings(elems) == bytes.subrange(4 * k, bytes.len() as int));
    }
    assert(spec_offsets_fit(elems)) by {
        lemma_le_value_bound(bytes.subrange(4 * (k - 1), 4 * (k - 1) + 4));
        lemma_pow256_values();
        assert(spec_offset_at(elems, k - 1) == offs[k - 1]);
    }
}

/// Decodes a homogeneous sequence from its exact canonical encoding;
/// accepts precisely the encodings of serializable sequences.
pub fn deserialize_homogeneous_composite<T: SimpleSerialize>(encoding: &[u8]) -> (r: Result<
    Vec<T>,
    DeserializeError,
>)
    ensures
        match r {
            Ok(elems) => {
                &&& spec_seq_serializable(elems@)
                &&& spec_seq_encoding(elems@) == encoding@
            },
            Err(_) => spec_no_seq_match::<T>(encoding@),
        },
{
    if T::is_variable_size() {
        deserialize_variable(encoding)
    } else {
        deserialize_fixed(encoding)
    }
}

/// The variable-size arm: a 4-byte-per-element offset table, validated,
/// then one decode per recovered span.
#[verifier::loop_isolation(false)]
#[verifier::rlimit(100)]
fn deserialize_variable<T: SimpleSerialize>(encoding: &[u8]) -> (r: Result<
    Vec<T>,
    DeserializeError,
>)
    requires
        T::spec_is_variable_size(),
    ensures
        match r {
            Ok(elems) => {
                &&& spec_seq_serializable(elems@)
                &&& spec_seq_encoding(elems@) == encoding@
            },
            Err(_) => spec_no_seq_match::<T>(encoding@),
        },
{
    let len = encoding.len();
    if len == 0 {
        let empty: Vec<T> = Vec::new();
        proof {
            lemma_empty_seq_encoding::<T>();
            assert(empty@ =~= Seq::<T>::empty());
        }
        return Ok(empty);
    }
    if len < 4 {
        proof {
            lemma_no_match_short::<T>(encoding@);
        }
        return Err(DeserializeError::ExpectedFurtherInput { provided: len, expected: 4 });
    }
    let first4 = vstd::slice::slice_subrange(encoding, 0, 4);
    let o0v = read_le_bytes(first4);
    proof {
        lemma_le_value_bound(first4@);
        lemma_pow256_values();
        assert(first4@ =~= encoding@.subrange(0, 4));
    }
    let o0 = o0v as usize;
    if o0 == 0 || o0 % 4 != 0 || o0 > len {
        proof {
            lemma_no_match_first_word::<T>(encoding@, o0 as int);
        }
        return Err(DeserializeError::InvalidOffset { offset: o0 });
    }
    let k = o0 / 4;
    proof {
        assert(4 * (k as int) == o0 as int);
    }
    // read the offset table, checking order and range
    let mut offs: Vec<usize> = Vec::new();
    offs.push(o0);
    let mut i: usize = 1;
    while i < k
        invariant
            1 <= i <= k,
            offs@.len() == i,
            forall|j: int|
                0 <= j < i ==> (#[trigger] offs@[j]) as int == spec_word_at(encoding@, j),
            forall|j: int| 0 <= j < i ==> o0 <= #[trigger] offs@[j] && offs@[j] <= len,
            forall|j: int| 0 < j < i ==> offs@[j - 1] <= #[trigger] offs@[j],
            offs@[0] == o0,
        decreases k - i,
    {
        let s4 = vstd::slice::slice_subrange(encoding, 4 * i, 4 * i + 4);
        let ov = read_le_bytes(s4);
        proof {
            lemma_le_value_bound(s4@);
            lemma_pow256_values();
            assert(s4@ =~= encoding@.subrange(4 * (i as int), 4 * (i as int) + 4));
        }
        let oi = ov as usize;
        let prev = offs[i - 1];
        if oi < prev || oi > len {
            proof {
                lemma_no_match_word_order::<T>(encoding@, k as int, i as int);
            }
            return Err(DeserializeError::InvalidOffset { offset: oi });
        }
        offs.push(oi);
        i = i + 1;
    }
    // decode each span
    let mut elems: Vec<T> = Vec::new();
    let mut i: usize = 0;
    proof {
        assert(elems@.take(0) =~= Seq::<T>::empty());
        assert(spec_concat_encodings(Seq::<T>::empty()) =~= Seq::<u8>::empty());
        assert(encoding@.subrange(o0 as int, o0 as int) =~= Seq::<u8>::empty());
    }
    while i < k
        invariant
            0 <= i <= k,
            elems@.len() == i,
            forall|j: int| 0 <= j < i ==> (#[trigger] elems@[j]).spec_valid(),
            forall|j: int|
                0 <= j <= i ==> spec_concat_encodings(#[trigger] elems@.take(j))
                    == encoding@.subrange(
                    o0 as int,
                    if j < k {
                        offs@[j] as int
                    } else {
                        len as int
                    },
                ),
        decreases k - i,
    {
        let start_o = offs[i];
        let end_o = if i + 1 < k {
            offs[i + 1]
        } else {
            len
        };
        proof {
            assert(spec_concat_encodings(elems@.take(i as int)) == encoding@.subrange(
                o0 as int,
                start_o as int,
            ));
            if i as int + 1 < k {
                assert(offs@[i as int] <= offs@[i as int + 1]);
            }
        }
        let span = vstd::slice::slice_subrange(encoding, start_o, end_o);
        match T::deserialize(span) {
            Ok(element) => {
                proof {
                    lemma_decode_step(
                        elems@,
                        element,
                        encoding@,
                        offs@,
                        k as int,
                        i as int,
                        start_o as int,
                        end_o as int,
                    );
                }
                elems.push(element);
            },
            Err(err) => {
                proof {
                    lemma_no_match_element::<T>(
                        encoding@,
                        k as int,
                        i as int,
                        start_o as int,
                        end_o as int,
                    );
                }
                return Err(err);
            },
        }
        i = i + 1;
    }
    proof {
        lemma_variable_assembly(elems@, encoding@, offs@, k as int);
    }
    Ok(elems)
}

/// The fixed-size arm: the buffer must be an exact multiple of the
/// element width, one decode per width-sized window.
#[verifier::loop_isolation(false)]
#[verifier::rlimit(100)]
fn deserialize_fixed<T: SimpleSerialize>(encoding: &[u8]) -> (r: Result<
    Vec<T>,
    DeserializeError,
>)
    requires
        !T::spec_is_variable_size(),
    ensures
        match r {
            Ok(elems) => {
                &&& spec_seq_serializable(elems@)
                &&& spec_seq_encoding(elems@) == encoding@
            },
            Err(_) => spec_no_seq_match::<T>(encoding@),
        },
{
    let len = encoding.len();
    proof {
        vstd::slice::axiom_spec_len(encoding);
    }
    match T::try_size_hint() {
        Option::None => {
            // the width alone exceeds the machine's word: no element fits
            if len == 0 {
                let empty: Vec<T> = Vec::new();
                proof {
                    lemma_empty_seq_encoding::<T>();
                    assert(empty@ =~= Seq::<T>::empty());
                }
                Ok(empty)
            } else {
                proof {
                    assert forall|s: Seq<T>| spec_seq_serializable(s) implies spec_seq_encoding(
                        s,
                    ) != encoding@ by {
                        if s.len() == 0 {
                            assert(s =~= Seq::<T>::empty());
                            lemma_empty_seq_encoding::<T>();
                        } else {
                            lemma_concat_len_fixed(s);
                            s[0].lemma_fixed_size();
                            let h = T::spec_size_hint();
                            assert(s.len() * h >= h) by (nonlinear_arith)
                                requires
                                    s.len() >= 1,
                                    h >= 1,
                            ;
                        }
                    }
                }
                Err(DeserializeError::InputTooShort)
            }
        },
        Option::Some(h) => {
            if h == 0 {
                // a serializable element would have positive width
                if len == 0 {
                    let empty: Vec<T> = Vec::new();
                    proof {
                        lemma_empty_seq_encoding::<T>();
                        assert(empty@ =~= Seq::<T>::empty());
                    }
                    Ok(empty)
                } else {
                    proof {
                        assert forall|s: Seq<T>| spec_seq_serializable(s) implies
                            spec_seq_encoding(s) != encoding@ by {
                            if s.len() == 0 {
                                assert(s =~= Seq::<T>::empty());
                                lemma_empty_seq_encoding::<T>();
                            } else {
                                s[0].lemma_fixed_size();
                            }
                        }
                    }
                    Err(DeserializeError::AdditionalInput { provided: len, expected: 0 })
                }
            } else {
                if len % h != 0 {
                    proof {
                        assert(len > 0) by (nonlinear_arith)
                            requires
                                (len as int) % (h as int) != 0,
                                (h as int) >= 1,
                                len >= 0,
                        ;
                        assert forall|s: Seq<T>| spec_seq_serializable(s) implies
                            spec_seq_encoding(s) != encoding@ by {
                            if s.len() == 0 {
                                assert(s =~= Seq::<T>::empty());
                                lemma_empty_seq_encoding::<T>();
                            } else if spec_seq_encoding(s) == encoding@ {
                                lemma_concat_len_fixed(s);
                                lemma_mod_multiples_basic(s.len() as int, h as int);
                                assert((s.len() as int) * (h as int) == len as int);
                            }
                        }
                        lemma_fundamental_div_mod(len as int, h as int);
                        assert((len as int / h as int) * (h as int) == (h as int) * (len as int
                            / h as int)) by (nonlinear_arith);
                    }
                    return Err(DeserializeError::AdditionalInput {
                        provided: len,
                        expected: len / h * h,
                    });
                }
                let k = len / h;
                let mut elems: Vec<T> = Vec::new();
                let mut i: usize = 0;
                proof {
                    lemma_fundamental_div_mod(len as int, h as int);
                    assert((k as int) * (h as int) == (h as int) * (k as int)) by (
                    nonlinear_arith);
                    assert((k as int) * (h as int) == len as int);
                    assert(elems@.take(0) =~= Seq::<T>::empty());
                    assert(encoding@.subrange(0, 0) =~= Seq::<u8>::empty());
                }
                while i < k
                    invariant
                        0 <= i <= k,
                        elems@.len() == i,
                        (k as int) * (h as int) == len as int,
                        forall|j: int| 0 <= j < i ==> (#[trigger] elems@[j]).spec_valid(),
                        spec_concat_encodings(elems@) == encoding@.subrange(
                            0,
                            (i as int) * (h as int),
                        ),
                    decreases k - i,
                {
                    proof {
                        assert((i as int + 1) * (h as int) <= (k as int) * (h as int)) by (
                        nonlinear_arith)
                            requires
                                (i as int) + 1 <= k as int,
                                (h as int) >= 1,
                        ;
                        assert((i as int + 1) * (h as int) == (i as int) * (h as int)
                            + h as int) by (nonlinear_arith);
                        assert((i as int) * (h as int) >= 0) by (nonlinear_arith)
                            requires
                                (i as int) >= 0,
                                (h as int) >= 1,
                        ;
                    }
                    let span = vstd::slice::slice_subrange(encoding, i * h, i * h + h);
                    match T::deserialize(span) {
                        Ok(element) => {
                            proof {
                                let before = elems@;
                                let after = elems@.push(element);
                                assert(after.drop_last() =~= before);
                                assert(spec_concat_encodings(after) == spec_concat_encodings(
                                    before,
                                ) + element.spec_encoding());
                                assert(encoding@.subrange(0, (i as int) * (h as int))
                                    + encoding@.subrange(
                                    (i as int) * (h as int),
                                    (i as int + 1) * (h as int),
                                ) =~= encoding@.subrange(0, (i as int + 1) * (h as int)));
                            }
                            elems.push(element);
                        },
                        Err(err) => {
                            proof {
                                assert forall|s: Seq<T>| spec_seq_serializable(s) implies
                                    spec_seq_encoding(s) != encoding@ by {
                                    if s.len() == 0 {
                                        assert(s =~= Seq::<T>::empty());
                                        lemma_empty_seq_encoding::<T>();
                                    } else if spec_seq_encoding(s) == encoding@ {
                                        lemma_concat_len_fixed(s);
                                        s[0].lemma_fixed_size();
                                        assert(s.len() == k as int) by (nonlinear_arith)
                                            requires
                                                s.len() * (h as int) == (k as int) * (h as int),
                                                (h as int) >= 1,
                                        ;
                                        lemma_concat_fixed_slice(s, i as int);
                                        assert(s[i as int].spec_encoding() == span@);
                                    }
                                }
                            }
                            return Err(err);
                        },
                    }
                    i = i + 1;
                }
                proof {
                    assert(spec_seq_encoding(elems@) =~= encoding@);
                }
                Ok(elems)
            }
        },
    }
}

/// One declared field of a container layout: whether it is fixed-size, and
/// its declared width (0 for a variable-size field).
struct FieldLayout {
    fixed: bool,
    size: usize,
}

/// The width of the fixed-size prefix over the first `k` fields: a
/// fixed-size field contributes its width, a variable-size one its 4-byte
/// offset slot.
pub open spec fn spec_layout_prefix(layout: Seq<(bool, int)>, k: int) -> int
    decreases k,
{
    if k <= 0 {
        0
    } else {
        spec_layout_prefix(layout, k - 1) + if layout[k - 1].0 {
            layout[k - 1].1
        } else {
            4
        }
    }
}

/// The field a `parse::<T>` call declares.
pub open spec fn spec_parsed_field<T: SimpleSerialize>() -> (bool, int) {
    (
        !T::spec_is_variable_size(),
        if T::spec_is_variable_size() {
            0
        } else {
            T::spec_size_hint()
        },
    )
}

/// The offset spelled in field `i`'s slot.
pub open spec fn spec_slot_word(layout: Seq<(bool, int)>, bytes: Seq<u8>, i: int) -> int {
    spec_le_value(bytes.subrange(spec_layout_prefix(layout, i), spec_layout_prefix(layout, i)
        + 4))
}

/// Where field `i`'s span ends: at the next variable-size field's offset,
/// or at the end of the buffer when none follows.
#[verifier::opaque]
pub open spec fn spec_var_end(layout: Seq<(bool, int)>, bytes: Seq<u8>, i: int) -> int
    decreases layout.len() - i,
{
    if i + 1 >= layout.len() {
        bytes.len() as int
    } else if !layout[i + 1].0 {
        spec_slot_word(layout, bytes, i + 1)
    } else {
        spec_var_end(layout, bytes, i + 1)
    }
}

/// Whether the layout declares any variable-size field.
pub open spec fn spec_layout_has_variable(layout: Seq<(bool, int)>) -> bool {
    exists|i: int| 0 <= i < layout.len() && !(#[trigger] layout[i]).0
}

/// Every offset of the table lands past the fixed prefix, within the
/// buffer, and no later than where its span ends.
pub open spec fn spec_offsets_sound(layout: Seq<(bool, int)>, bytes: Seq<u8>) -> bool {
    forall|i: int|
        0 <= i < layout.len() && !(#[trigger] layout[i]).0 ==> {
            &&& spec_layout_prefix(layout, layout.len() as int) <= spec_slot_word(
                layout,
                bytes,
                i,
            )
            &&& spec_slot_word(layout, bytes, i) <= spec_var_end(layout, bytes, i)
            &&& spec_var_end(layout, bytes, i) <= bytes.len()
        }
}

/// Prefix widths grow with the field count and never go negative for a
/// layout whose widths are machine words.
proof fn lemma_layout_prefix_monotone(layout: Seq<(bool, int)>, i: int, j: int)
    requires
        0 <= i <= j <= layout.len(),
        forall|m: int| 0 <= m < layout.len() ==> (#[trigger] layout[m]).1 >= 0,
    ensures
        0 <= spec_layout_prefix(layout, i) <= spec_layout_prefix(layout, j),
    decreases j,
{
    if i < j {
        lemma_layout_prefix_monotone(layout, i, j - 1);
        assert(layout[j - 1].1 >= 0);
    } else if j > 0 {
        lemma_layout_prefix_monotone(layout, j - 1, j - 1);
        assert(layout[j - 1].1 >= 0);
    }
}

/// Recovers each field's byte span from a container's raw bytes, given the
/// declared field layout: the fixed prefix is checked against the buffer,
/// and each offset against the table's constraints.
pub struct ContainerDeserializer {
    fields: Vec<FieldLayout>,
}

impl View for ContainerDeserializer {
    type V = Seq<(bool, int)>;

    closed spec fn view(&self) -> Seq<(bool, int)> {
        self.fields@.map_values(|f: FieldLayout| (f.fixed, f.size as int))
    }
}

impl Default for ContainerDeserializer {
    /// A deserializer with no fields declared yet.
    fn default() -> (r: ContainerDeserializer)
        ensures
            r@ == Seq::<(bool, int)>::empty(),
    {
        let fields: Vec<FieldLayout> = Vec::new();
        proof {
            assert(fields@.map_values(|f: FieldLayout| (f.fixed, f.size as int)) =~= Seq::<(
                bool,
                int,
            )>::empty());
        }
        ContainerDeserializer { fields }
    }
}

impl ContainerDeserializer {
    /// Every declared width is a machine word.
    pub proof fn lemma_widths_nonneg(&self)
        ensures
            forall|m: int| 0 <= m < self@.len() ==> (#[trigger] self@[m]).1 >= 0,
    {
        assert forall|m: int| 0 <= m < self@.len() implies (#[trigger] self@[m]).1 >= 0 by {
            assert(self@[m] == (self.fields@[m].fixed, self.fields@[m].size as int));
        }
    }

    /// Declares the next field's type, rejecting a layout whose fixed
    /// prefix already overruns the buffer.
    #[verifier::loop_isolation(false)]
    pub fn parse<T: SimpleSerialize>(&mut self, encoding: &[u8]) -> (r: Result<
        (),
        DeserializeError,
    >)
        ensures
            ({
                let pushed = old(self)@.push(spec_parsed_field::<T>());
                let prefix = spec_layout_prefix(pushed, pushed.len() as int);
                match r {
                    Ok(_) => final(self)@ == pushed && prefix <= encoding@.len(),
                    Err(e) => {
                        &&& final(self)@ == old(self)@
                        &&& prefix > encoding@.len()
                        &&& e == (DeserializeError::ExpectedFurtherInput {
                            provided: encoding@.len() as usize,
                            expected: if prefix <= usize::MAX as int {
                                prefix as usize
                            } else {
                                usize::MAX
                            },
                        })
                    },
                }
            }),
    {
        let len = encoding.len();
        proof {
            vstd::slice::axiom_spec_len(encoding);
            self.lemma_widths_nonneg();
        }
        let ghost pushed = self@.push(spec_parsed_field::<T>());
        let add: usize = if T::is_variable_size() {
            4
        } else {
            match T::try_size_hint() {
                Option::Some(h) => h,
                Option::None => {
                    proof {
                        lemma_pushed_widths_nonneg::<T>(self@, pushed);
                        assert(spec_layout_prefix(pushed, pushed.len() as int)
                            == spec_layout_prefix(pushed, self@.len() as int)
                            + T::spec_size_hint());
                        lemma_layout_prefix_monotone(pushed, 0, self@.len() as int);
                    }
                    return Err(DeserializeError::ExpectedFurtherInput {
                        provided: len,
                        expected: usize::MAX,
                    });
                },
            }
        };
        let n = self.fields.len();
        let mut p: usize = 0;
        let mut i: usize = 0;
        proof {
            assert(pushed.len() == n + 1);
        }
        while i < n
            invariant
                i <= n,
                p as int == spec_layout_prefix(pushed, i as int),
            decreases n - i,
        {
            let field = vstd::std_specs::vec::vec_index(&self.fields, i);
            let step: usize = if field.fixed {
                field.size
            } else {
                4
            };
            if p > usize::MAX - step {
                proof {
                    self.lemma_widths_nonneg();
                    lemma_pushed_widths_nonneg::<T>(self@, pushed);
                    lemma_layout_prefix_monotone(pushed, i as int + 1, pushed.len() as int);
                }
                return Err(DeserializeError::ExpectedFurtherInput {
                    provided: len,
                    expected: usize::MAX,
                });
            }
            p = p + step;
            i = i + 1;
        }
        if p > usize::MAX - add || p + add > len {
            proof {
                self.lemma_widths_nonneg();
                lemma_pushed_widths_nonneg::<T>(self@, pushed);
                lemma_layout_prefix_monotone(pushed, n as int + 1, pushed.len() as int);
                assert(spec_layout_prefix(pushed, n as int + 1) == p as int + add as int);
            }
            let expected = if p > usize::MAX - add {
                usize::MAX
            } else {
                p + add
            };
            return Err(DeserializeError::ExpectedFurtherInput { provided: len, expected });
        }
        let fixed = !T::is_variable_size();
        self.fields.push(FieldLayout { fixed, size: if fixed { add } else { 0 } });
        proof {
            assert(self.fields@.map_values(|f: FieldLayout| (f.fixed, f.size as int))
                =~= pushed);
            assert(spec_layout_prefix(pushed, pushed.len() as int) == p as int + add as int);
        }
        Ok(())
    }
}

/// A field of nonnegative width pushed onto a nonnegative-width layout
/// keeps every width nonnegative.
proof fn lemma_pushed_widths_nonneg<T: SimpleSerialize>(
    layout: Seq<(bool, int)>,
    pushed: Seq<(bool, int)>,
)
    requires
        pushed == layout.push(spec_parsed_field::<T>()),
        forall|m: int| 0 <= m < layout.len() ==> (#[trigger] layout[m]).1 >= 0,
        spec_parsed_field::<T>().1 >= 0,
    ensures
        forall|m: int| 0 <= m < pushed.len() ==> (#[trigger] pushed[m]).1 >= 0,
{
    assert forall|m: int| 0 <= m < pushed.len() implies (#[trigger] pushed[m]).1 >= 0 by {
        if m < layout.len() {
            assert(pushed[m] == layout[m]);
        } else {
            assert(pushed[m] == spec_parsed_field::<T>());
        }
    }
}

/// The prefix over the first `k` fields ignores fields past `k`.
proof fn lemma_layout_prefix_frame(a: Seq<(bool, int)>, b: Seq<(bool, int)>, k: int)
    requires
        0 <= k <= a.len(),
        k <= b.len(),
        forall|m: int| 0 <= m < k ==> a[m] == b[m],
    ensures
        spec_layout_prefix(a, k) == spec_layout_prefix(b, k),
    decreases k,
{
    if k > 0 {
        lemma_layout_prefix_frame(a, b, k - 1);
    }
}

impl ContainerDeserializer {
    /// Validates the container bytes against the declared layout and
    /// recovers each field's byte span, flattened start/end pairs: field
    /// `i` owns `encoding[spans[2*i] .. spans[2*i+1]]`.
    #[verifier::loop_isolation(false)]
    #[verifier::rlimit(100)]
    pub fn finalize(&self, encoding: &[u8]) -> (r: Result<Vec<usize>, DeserializeError>)
        ensures
            ({
                let layout = self@;
                let n = layout.len() as int;
                let flen = spec_layout_prefix(layout, n);
                let blen = encoding@.len() as int;
                match r {
                    Ok(spans) => {
                        &&& flen <= blen
                        &&& !spec_layout_has_variable(layout) ==> blen == flen
                        &&& spec_offsets_sound(layout, encoding@)
                        &&& spans@.len() == 2 * n
                        &&& forall|i: int|
                            0 <= i < n && (#[trigger] layout[i]).0 ==> spans@[2 * i] as int
                                == spec_layout_prefix(layout, i) && spans@[2 * i + 1] as int
                                == spec_layout_prefix(layout, i) + layout[i].1
                        &&& forall|i: int|
                            0 <= i < n && !(#[trigger] layout[i]).0 ==> spans@[2 * i] as int
                                == spec_slot_word(layout, encoding@, i) && spans@[2 * i + 1]
                                as int == spec_var_end(layout, encoding@, i)
                    },
                    Err(e) => {
                        &&& (blen < flen ==> e == (DeserializeError::ExpectedFurtherInput {
                            provided: encoding@.len() as usize,
                            expected: if flen <= usize::MAX as int {
                                flen as usize
                            } else {
                                usize::MAX
                            },
                        }))
                        &&& (blen > flen && !spec_layout_has_variable(layout) ==> e == (
                        DeserializeError::AdditionalInput {
                            provided: encoding@.len() as usize,
                            expected: flen as usize,
                        }))
                        &&& (blen >= flen && spec_layout_has_variable(layout)
                            ==> !spec_offsets_sound(layout, encoding@) && e matches
                            DeserializeError::InvalidOffset { .. })
                        &&& (blen == flen && !spec_layout_has_variable(layout) ==> false)
                    },
                }
            }),
    {
        let ghost layout = self@;
        let len = encoding.len();
        let n = self.fields.len();
        proof {
            vstd::slice::axiom_spec_len(encoding);
            self.lemma_widths_nonneg();
            assert(layout.len() == n);
        }
        // first pass: the fixed prefix width, and whether any field is
        // variable-size
        let (fl, has_var) = match self.fixed_prefix(len) {
            Ok(pair) => pair,
            Err(err) => {
                proof {
                    lemma_layout_prefix_monotone(layout, 0, n as int);
                }
                return Err(err);
            },
        };
        if len < fl {
            return Err(DeserializeError::ExpectedFurtherInput { provided: len, expected: fl });
        }
        if !has_var && len > fl {
            return Err(DeserializeError::AdditionalInput { provided: len, expected: fl });
        }
        // second pass: each field's start
        let starts = match self.field_starts(encoding, fl) {
            Ok(starts) => starts,
            Err(err) => {
                return Err(err);
            },
        };
        // third pass: each field's end
        let ends = match self.field_ends(encoding, &starts, fl) {
            Ok(ends) => ends,
            Err(err) => {
                return Err(err);
            },
        };
        // interleave the spans
        let mut spans: Vec<usize> = Vec::new();
        let mut i: usize = 0;
        while i < n
            invariant
                i <= n,
                spans@.len() == 2 * i,
                starts@.len() == n,
                ends@.len() == n,
                forall|m: int| 0 <= m < i ==> spans@[2 * m] == starts@[m],
                forall|m: int| 0 <= m < i ==> spans@[2 * m + 1] == ends@[m],
            decreases n - i,
        {
            spans.push(starts[i]);
            spans.push(ends[i]);
            i = i + 1;
        }
        Ok(spans)
    }
}

impl ContainerDeserializer {
    /// Each field's span start: a fixed field starts at its place in the
    /// prefix, a variable one where its offset word points.
    #[verifier::loop_isolation(false)]
    #[verifier::rlimit(60)]
    fn field_starts(&self, encoding: &[u8], fl: usize) -> (r: Result<
        Vec<usize>,
        DeserializeError,
    >)
        requires
            fl as int == spec_layout_prefix(self@, self@.len() as int),
            fl <= encoding@.len(),
            encoding@.len() <= usize::MAX,
        ensures
            match r {
                Ok(starts) => {
                    &&& starts@.len() == self@.len()
                    &&& forall|m: int|
                        0 <= m < self@.len() && (#[trigger] self@[m]).0 ==> starts@[m] as int
                            == spec_layout_prefix(self@, m)
                    &&& forall|m: int|
                        0 <= m < self@.len() && !(#[trigger] self@[m]).0 ==> starts@[m] as int
                            == spec_slot_word(self@, encoding@, m) && fl <= starts@[m]
                            && starts@[m] <= encoding@.len()
                },
                Err(e) => !spec_offsets_sound(self@, encoding@) && e matches
                    DeserializeError::InvalidOffset { .. },
            },
    {
        let ghost layout = self@;
        let len = encoding.len();
        let n = self.fields.len();
        proof {
            vstd::slice::axiom_spec_len(encoding);
            self.lemma_widths_nonneg();
        }
        let mut starts: Vec<usize> = Vec::new();
        let mut p: usize = 0;
        let mut i: usize = 0;
        while i < n
            invariant
                i <= n,
                p as int == spec_layout_prefix(layout, i as int),
                starts@.len() == i,
                forall|m: int|
                    0 <= m < i && (#[trigger] layout[m]).0 ==> starts@[m] as int
                        == spec_layout_prefix(layout, m),
                forall|m: int|
                    0 <= m < i && !(#[trigger] layout[m]).0 ==> starts@[m] as int
                        == spec_slot_word(layout, encoding@, m) && fl <= starts@[m]
                        && starts@[m] <= len,
            decreases n - i,
        {
            let field = vstd::std_specs::vec::vec_index(&self.fields, i);
            proof {
                lemma_layout_prefix_monotone(layout, i as int + 1, n as int);
            }
            if field.fixed {
                starts.push(p);
                p = p + field.size;
            } else {
                let slot = vstd::slice::slice_subrange(encoding, p, p + 4);
                let word128 = read_le_bytes(slot);
                proof {
                    lemma_le_value_bound(slot@);
                    lemma_pow256_values();
                }
                let word = word128 as usize;
                if word < fl || word > len {
                    proof {
                        assert(!spec_offsets_sound(layout, encoding@)) by {
                            assert(!layout[i as int].0);
                            if word > len {
                                assert(!(spec_slot_word(layout, encoding@, i as int)
                                    <= spec_var_end(layout, encoding@, i as int)
                                    && spec_var_end(layout, encoding@, i as int)
                                    <= encoding@.len()));
                            }
                        }
                    }
                    return Err(DeserializeError::InvalidOffset { offset: word });
                }
                starts.push(word);
                p = p + 4;
            }
            i = i + 1;
        }
        Ok(starts)
    }

    /// Each field's span end, computed from the back: a variable span runs
    /// to the next variable field's offset, the last one to the buffer end.
    #[verifier::loop_isolation(false)]
    #[verifier::rlimit(100)]
    fn field_ends(&self, encoding: &[u8], starts: &Vec<usize>, fl: usize) -> (r: Result<
        Vec<usize>,
        DeserializeError,
    >)
        requires
            fl as int == spec_layout_prefix(self@, self@.len() as int),
            fl <= encoding@.len(),
            encoding@.len() <= usize::MAX,
            starts@.len() == self@.len(),
            forall|m: int|
                0 <= m < self@.len() && (#[trigger] self@[m]).0 ==> starts@[m] as int
                    == spec_layout_prefix(self@, m),
            forall|m: int|
                0 <= m < self@.len() && !(#[trigger] self@[m]).0 ==> starts@[m] as int
                    == spec_slot_word(self@, encoding@, m) && fl <= starts@[m] && starts@[m]
                    <= encoding@.len(),
        ensures
            match r {
                Ok(ends) => {
                    &&& ends@.len() == self@.len()
                    &&& spec_offsets_sound(self@, encoding@)
                    &&& forall|m: int|
                        0 <= m < self@.len() && (#[trigger] self@[m]).0 ==> ends@[m] as int
                            == spec_layout_prefix(self@, m) + self@[m].1
                    &&& forall|m: int|
                        0 <= m < self@.len() && !(#[trigger] self@[m]).0 ==> ends@[m] as int
                            == spec_var_end(self@, encoding@, m)
                },
                Err(e) => !spec_offsets_sound(self@, encoding@) && e matches
                    DeserializeError::InvalidOffset { .. },
            },
    {
        let ghost layout = self@;
        let len = encoding.len();
        let n = self.fields.len();
        proof {
            vstd::slice::axiom_spec_len(encoding);
            self.lemma_widths_nonneg();
        }
        let mut ends: Vec<usize> = Vec::new();
        let mut i: usize = 0;
        while i < n
            invariant
                i <= n,
                ends@.len() == i,
            decreases n - i,
        {
            ends.push(0);
            i = i + 1;
        }
        let mut next_start: usize = len;
        let mut i: usize = n;
        proof {
            reveal(spec_var_end);
        }
        while i > 0
            invariant
                i <= n,
                ends@.len() == n,
                next_start as int == spec_var_end(layout, encoding@, i as int - 1),
                next_start <= len,
                forall|m: int|
                    i <= m < n && (#[trigger] layout[m]).0 ==> ends@[m] as int
                        == spec_layout_prefix(layout, m) + layout[m].1,
                forall|m: int|
                    i <= m < n && !(#[trigger] layout[m]).0 ==> ends@[m] as int
                        == spec_var_end(layout, encoding@, m) && starts@[m] <= ends@[m]
                        && ends@[m] <= len,
            decreases i,
        {
            i = i - 1;
            proof {
                reveal(spec_var_end);
            }
            let field = vstd::std_specs::vec::vec_index(&self.fields, i);
            if field.fixed {
                let start = starts[i];
                proof {
                    lemma_layout_prefix_monotone(layout, i as int + 1, n as int);
                }
                let slot = vstd::std_specs::vec::vec_index_mut(&mut ends, i);
                *slot = start + field.size;
            } else {
                let start = starts[i];
                if start > next_start {
                    proof {
                        assert(!spec_offsets_sound(layout, encoding@)) by {
                            assert(!layout[i as int].0);
                        }
                    }
                    return Err(DeserializeError::InvalidOffset { offset: start });
                }
                let end = next_start;
                let slot = vstd::std_specs::vec::vec_index_mut(&mut ends, i);
                *slot = end;
                next_start = start;
            }
        }
        proof {
            assert(spec_offsets_sound(layout, encoding@));
        }
        Ok(ends)
    }
}

impl ContainerDeserializer {
    /// The declared fixed-size prefix width, and whether the layout holds
    /// any variable-size field.
    #[verifier::loop_isolation(false)]
    fn fixed_prefix(&self, len: usize) -> (r: Result<(usize, bool), DeserializeError>)
        ensures
            match r {
                Ok(pair) => {
                    &&& pair.0 as int == spec_layout_prefix(self@, self@.len() as int)
                    &&& pair.1 == spec_layout_has_variable(self@)
                },
                Err(e) => {
                    &&& spec_layout_prefix(self@, self@.len() as int) > usize::MAX as int
                    &&& e == (DeserializeError::ExpectedFurtherInput {
                        provided: len,
                        expected: usize::MAX,
                    })
                },
            },
    {
        let ghost layout = self@;
        let n = self.fields.len();
        proof {
            self.lemma_widths_nonneg();
        }
        let mut fl: usize = 0;
        let mut has_var = false;
        let mut i: usize = 0;
        while i < n
            invariant
                i <= n,
                fl as int == spec_layout_prefix(layout, i as int),
                has_var == exists|m: int| 0 <= m < i && !(#[trigger] layout[m]).0,
            decreases n - i,
        {
            let field = vstd::std_specs::vec::vec_index(&self.fields, i);
            let step: usize = if field.fixed {
                field.size
            } else {
                4
            };
            if !field.fixed {
                proof {
                    assert(!layout[i as int].0);
                }
                has_var = true;
            }
            if fl > usize::MAX - step {
                proof {
                    lemma_layout_prefix_monotone(layout, i as int + 1, n as int);
                }
                return Err(DeserializeError::ExpectedFurtherInput {
                    provided: len,
                    expected: usize::MAX,
                });
            }
            fl = fl + step;
            i = i + 1;
        }
        proof {
            assert(has_var == spec_layout_has_variable(layout));
        }
        Ok((fl, has_var))
    }
}

/// Whether a declared layout describes exactly the parts a serializer
/// accumulated: same order and size classes, same fixed widths.
pub open spec fn spec_layout_matches(
    layout: Seq<(bool, int)>,
    parts: Seq<(bool, Seq<u8>)>,
) -> bool {
    &&& layout.len() == parts.len()
    &&& forall|i: int|
        0 <= i < layout.len() ==> (#[trigger] layout[i]).0 == parts[i].0 && (parts[i].0
            ==> layout[i].1 == parts[i].1.len())
}

/// A matching layout computes the same fixed prefix as the parts do.
proof fn lemma_matching_prefix(layout: Seq<(bool, int)>, parts: Seq<(bool, Seq<u8>)>, k: int)
    requires
        spec_layout_matches(layout, parts),
        0 <= k <= layout.len(),
    ensures
        spec_layout_prefix(layout, k) == spec_parts_fixed_len(parts, k),
    decreases k,
{
    if k > 0 {
        lemma_matching_prefix(layout, parts, k - 1);
    }
}

/// A layout of only fixed fields owes no variable bytes.
proof fn lemma_all_fixed_no_var_bytes(parts: Seq<(bool, Seq<u8>)>, k: int)
    requires
        0 <= k <= parts.len(),
        forall|i: int| 0 <= i < parts.len() ==> (#[trigger] parts[i]).0,
    ensures
        spec_parts_var_len(parts, k) == 0,
    decreases k,
{
    if k > 0 {
        lemma_all_fixed_no_var_bytes(parts, k - 1);
    }
}

/// The slot of a variable part spells exactly its backfilled offset.
proof fn lemma_matching_slot_word(
    layout: Seq<(bool, int)>,
    parts: Seq<(bool, Seq<u8>)>,
    i: int,
)
    requires
        spec_layout_matches(layout, parts),
        spec_container_fits(parts),
        0 <= i < layout.len(),
        !layout[i].0,
    ensures
        spec_slot_word(layout, spec_container_encoding(parts), i) == spec_parts_offset(
            parts,
            i,
        ),
{
    let n = parts.len() as int;
    let bytes = spec_container_encoding(parts);
    lemma_matching_prefix(layout, parts, i);
    lemma_parts_head_len(parts, n);
    lemma_parts_head_window(parts, n, i);
    lemma_parts_fixed_len_monotone(parts, i + 1, n);
    lemma_parts_fixed_len_monotone(parts, 0, i);
    assert(bytes.subrange(
        spec_parts_fixed_len(parts, i),
        spec_parts_fixed_len(parts, i) + 4,
    ) =~= spec_parts_head(parts, n).subrange(
        spec_parts_fixed_len(parts, i),
        spec_parts_fixed_len(parts, i + 1),
    ));
    lemma_pow256_values();
    lemma_parts_fixed_len_monotone(parts, i, n);
    assert(spec_parts_var_len(parts, i) >= 0);
    lemma_le_value_of_bytes(spec_parts_offset(parts, i), 4);
}

/// Each span boundary computed by the span scan lands at the cumulative
/// variable width that the serializer wrote.
proof fn lemma_matching_var_end(
    layout: Seq<(bool, int)>,
    parts: Seq<(bool, Seq<u8>)>,
    m: int,
)
    requires
        spec_layout_matches(layout, parts),
        spec_container_fits(parts),
        0 <= m < layout.len(),
    ensures
        spec_var_end(layout, spec_container_encoding(parts), m) == spec_parts_fixed_len(
            parts,
            parts.len() as int,
        ) + spec_parts_var_len(parts, m + 1),
    decreases layout.len() - m,
{
    reveal(spec_var_end);
    let n = parts.len() as int;
    let bytes = spec_container_encoding(parts);
    lemma_parts_head_len(parts, n);
    lemma_parts_tail_len(parts, n);
    if m + 1 >= n {
        lemma_parts_fixed_len_monotone(parts, m + 1, n);
        lemma_parts_fixed_len_monotone(parts, n, n);
    } else if !layout[m + 1].0 {
        lemma_matching_slot_word(layout, parts, m + 1);
    } else {
        lemma_matching_var_end(layout, parts, m + 1);
    }
}

/// Round trip for containers: the spans that §4.2-style validation
/// recovers from a serializer's output are exactly the windows the
/// serializer filled, field by field, so every field's bytes come back
/// unchanged.
pub proof fn lemma_container_round_trip(
    layout: Seq<(bool, int)>,
    parts: Seq<(bool, Seq<u8>)>,
)
    requires
        spec_layout_matches(layout, parts),
        spec_container_fits(parts),
    ensures
        ({
            let bytes = spec_container_encoding(parts);
            let n = layout.len() as int;
            &&& spec_layout_prefix(layout, n) <= bytes.len()
            &&& spec_offsets_sound(layout, bytes)
            &&& (!spec_layout_has_variable(layout) ==> bytes.len() == spec_layout_prefix(
                layout,
                n,
            ))
            &&& forall|i: int|
                0 <= i < n && (#[trigger] layout[i]).0 ==> bytes.subrange(
                    spec_layout_prefix(layout, i),
                    spec_layout_prefix(layout, i) + layout[i].1,
                ) == parts[i].1
            &&& forall|i: int|
                0 <= i < n && !(#[trigger] layout[i]).0 ==> bytes.subrange(
                    spec_slot_word(layout, bytes, i),
                    spec_var_end(layout, bytes, i),
                ) == parts[i].1
        }),
{
    let bytes = spec_container_encoding(parts);
    let n = layout.len() as int;
    let flen = spec_parts_fixed_len(parts, n);
    lemma_parts_head_len(parts, n);
    lemma_parts_tail_len(parts, n);
    lemma_matching_prefix(layout, parts, n);
    lemma_parts_fixed_len_monotone(parts, n, n);
    assert(spec_parts_var_len(parts, n) >= 0);
    if !spec_layout_has_variable(layout) {
        assert forall|i: int| 0 <= i < parts.len() implies (#[trigger] parts[i]).0 by {
            assert(layout[i].0 == parts[i].0);
        }
        lemma_all_fixed_no_var_bytes(parts, n);
    }
    assert forall|i: int|
        0 <= i < n && (#[trigger] layout[i]).0 implies bytes.subrange(
        spec_layout_prefix(layout, i),
        spec_layout_prefix(layout, i) + layout[i].1,
    ) == parts[i].1 by {
        lemma_matching_prefix(layout, parts, i);
        lemma_parts_head_window(parts, n, i);
        lemma_parts_fixed_len_monotone(parts, 0, i);
        lemma_parts_fixed_len_monotone(parts, i + 1, n);
        assert(bytes.subrange(
            spec_layout_prefix(layout, i),
            spec_layout_prefix(layout, i) + layout[i].1,
        ) =~= spec_parts_head(parts, n).subrange(
            spec_parts_fixed_len(parts, i),
            spec_parts_fixed_len(parts, i + 1),
        ));
    }
    assert forall|i: int|
        0 <= i < n && !(#[trigger] layout[i]).0 implies bytes.subrange(
        spec_slot_word(layout, bytes, i),
        spec_var_end(layout, bytes, i),
    ) == parts[i].1 && flen <= spec_slot_word(layout, bytes, i) && spec_slot_word(
        layout,
        bytes,
        i,
    ) <= spec_var_end(layout, bytes, i) && spec_var_end(layout, bytes, i) <= bytes.len() by {
        lemma_matching_slot_word(layout, parts, i);
        lemma_matching_var_end(layout, parts, i);
        lemma_parts_fixed_len_monotone(parts, 0, i);
        lemma_parts_fixed_len_monotone(parts, i, i + 1);
        lemma_parts_fixed_len_monotone(parts, i + 1, n);
        lemma_parts_tail_window(parts, n, i);
        assert(bytes.subrange(
            spec_slot_word(layout, bytes, i),
            spec_var_end(layout, bytes, i),
        ) =~= spec_parts_tail(parts, n).subrange(
            spec_parts_var_len(parts, i),
            spec_parts_var_len(parts, i + 1),
        ));
    }
}

} // verus!
