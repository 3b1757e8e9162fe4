//! Little-endian byte layout for the fixed-width unsigned scalars, and the
//! 256-bit scalar `U256` that the codec treats as 32 raw little-endian bytes.

use vstd::prelude::*;
use vstd::arithmetic::div_mod::{
    lemma_div_denominator, lemma_fundamental_div_mod_converse,
};
use crate::de::DeserializeError;
use crate::merkleization::{MerkleizationError, Node};
use crate::ser::SerializeError;
use crate::ssz::SimpleSerialize;

verus! {

/// The little-endian digits of `v`, exactly `w` bytes, least significant first.
/// Digits past the value's magnitude are zero; a value too large for `w` bytes
/// is silently truncated to its low `w` bytes (callers keep values in range).
pub open spec fn spec_le_bytes(v: int, w: nat) -> Seq<u8>
    decreases w,
{
    if w == 0 {
        Seq::empty()
    } else {
        seq![(v % 256) as u8] + spec_le_bytes(v / 256, (w - 1) as nat)
    }
}

/// The unsigned value a little-endian byte string stands for.
pub open spec fn spec_le_value(s: Seq<u8>) -> int
    decreases s.len(),
{
    if s.len() == 0 {
        0
    } else {
        s[0] + 256 * spec_le_value(s.drop_first())
    }
}

/// 256 to the power `w`: one more than the largest value `w` bytes can hold.
pub open spec fn spec_pow256(w: nat) -> int
    decreases w,
{
    if w == 0 {
        1
    } else {
        256 * spec_pow256((w - 1) as nat)
    }
}

pub proof fn lemma_pow256_pos(w: nat)
    ensures
        spec_pow256(w) >= 1,
    decreases w,
{
    if w > 0 {
        lemma_pow256_pos((w - 1) as nat);
    }
}

pub proof fn lemma_le_bytes_len(v: int, w: nat)
    ensures
        spec_le_bytes(v, w).len() == w,
    decreases w,
{
    if w > 0 {
        lemma_le_bytes_len(v / 256, (w - 1) as nat);
    }
}

/// A byte string is recovered exactly from the value it stands for.
pub proof fn lemma_le_bytes_of_value(s: Seq<u8>)
    ensures
        spec_le_bytes(spec_le_value(s), s.len()) == s,
    decreases s.len(),
{
    if s.len() > 0 {
        let rest = s.drop_first();
        let v = spec_le_value(s);
        lemma_le_value_nonneg(rest);
        lemma_fundamental_div_mod_converse(v, 256, spec_le_value(rest), s[0] as int);
        lemma_le_bytes_of_value(rest);
        assert(spec_le_bytes(v, s.len()) =~= s);
    } else {
        assert(spec_le_bytes(spec_le_value(s), s.len()) =~= s);
    }
}

pub proof fn lemma_le_value_nonneg(s: Seq<u8>)
    ensures
        0 <= spec_le_value(s),
    decreases s.len(),
{
    if s.len() > 0 {
        lemma_le_value_nonneg(s.drop_first());
    }
}

pub proof fn lemma_le_value_bound(s: Seq<u8>)
    ensures
        0 <= spec_le_value(s) < spec_pow256(s.len()),
    decreases s.len(),
{
    if s.len() > 0 {
        lemma_le_value_bound(s.drop_first());
    }
}

/// A value in range round-trips through its `w` little-endian bytes.
pub proof fn lemma_le_value_of_bytes(v: int, w: nat)
    requires
        0 <= v < spec_pow256(w),
    ensures
        spec_le_value(spec_le_bytes(v, w)) == v,
    decreases w,
{
    if w > 0 {
        lemma_pow256_pos((w - 1) as nat);
        lemma_le_value_of_bytes(v / 256, (w - 1) as nat);
        let s = spec_le_bytes(v, w);
        assert(s.drop_first() =~= spec_le_bytes(v / 256, (w - 1) as nat));
    }
}

/// Two values in range with the same `w` little-endian bytes are equal.
pub proof fn lemma_le_bytes_injective(a: int, b: int, w: nat)
    requires
        0 <= a < spec_pow256(w),
        0 <= b < spec_pow256(w),
        spec_le_bytes(a, w) == spec_le_bytes(b, w),
    ensures
        a == b,
{
    lemma_le_value_of_bytes(a, w);
    lemma_le_value_of_bytes(b, w);
}

/// Extending the width by one appends the next little-endian digit.
pub proof fn lemma_le_bytes_snoc(v: int, w: nat)
    requires
        v >= 0,
    ensures
        spec_le_bytes(v, w + 1) == spec_le_bytes(v, w) + seq![
            ((v / spec_pow256(w)) % 256) as u8,
        ],
    decreases w,
{
    lemma_pow256_pos(w);
    if w == 0 {
        assert(v / spec_pow256(0) == v);
        assert(spec_le_bytes(v / 256, 0) =~= Seq::<u8>::empty());
        assert(spec_le_bytes(v, 1) =~= spec_le_bytes(v, 0) + seq![
            ((v / spec_pow256(0)) % 256) as u8,
        ]);
    } else {
        lemma_le_bytes_snoc(v / 256, (w - 1) as nat);
        lemma_div_denominator(v, 256, spec_pow256((w - 1) as nat));
        assert(v / 256 / spec_pow256((w - 1) as nat) == v / spec_pow256(w));
        assert(spec_le_bytes(v, w + 1) =~= spec_le_bytes(v, w) + seq![
            ((v / spec_pow256(w)) % 256) as u8,
        ]);
    }
}

/// `spec_pow256` at the widths the scalars use.
pub proof fn lemma_pow256_values()
    ensures
        spec_pow256(1) == 0x100,
        spec_pow256(2) == 0x1_0000,
        spec_pow256(4) == 0x1_0000_0000,
        spec_pow256(8) == 0x1_0000_0000_0000_0000,
        spec_pow256(16) == 0x1_0000_0000_0000_0000_0000_0000_0000_0000,
{
    assert(spec_pow256(0) == 1);
    assert(spec_pow256(1) == 0x100);
    assert(spec_pow256(2) == 0x1_0000);
    assert(spec_pow256(3) == 0x100_0000);
    assert(spec_pow256(4) == 0x1_0000_0000);
    assert(spec_pow256(5) == 0x100_0000_0000);
    assert(spec_pow256(6) == 0x1_0000_0000_0000);
    assert(spec_pow256(7) == 0x100_0000_0000_0000);
    assert(spec_pow256(8) == 0x1_0000_0000_0000_0000);
    assert(spec_pow256(9) == 0x100_0000_0000_0000_0000);
    assert(spec_pow256(10) == 0x1_0000_0000_0000_0000_0000);
    assert(spec_pow256(11) == 0x100_0000_0000_0000_0000_0000);
    assert(spec_pow256(12) == 0x1_0000_0000_0000_0000_0000_0000);
    assert(spec_pow256(13) == 0x100_0000_0000_0000_0000_0000_0000);
    assert(spec_pow256(14) == 0x1_0000_0000_0000_0000_0000_0000_0000);
    assert(spec_pow256(15) == 0x100_0000_0000_0000_0000_0000_0000_0000);
    assert(spec_pow256(16) == 0x1_0000_0000_0000_0000_0000_0000_0000_0000);
}

/// Appends the low `width` little-endian bytes of `v` to `buffer`.
pub fn write_le_bytes(buffer: &mut Vec<u8>, v: u128, width: usize)
    ensures
        final(buffer)@ == old(buffer)@ + spec_le_bytes(v as int, width as nat),
{
    let ghost orig = buffer@;
    let mut cur: u128 = v;
    let mut i: usize = 0;
    proof {
        assert(buffer@ =~= orig + spec_le_bytes(v as int, 0));
    }
    while i < width
        invariant
            i <= width,
            buffer@ == orig + spec_le_bytes(v as int, i as nat),
            cur as int == v as int / spec_pow256(i as nat),
        decreases width - i,
    {
        proof {
            lemma_pow256_pos(i as nat);
            lemma_le_bytes_snoc(v as int, i as nat);
            lemma_div_denominator(v as int, spec_pow256(i as nat), 256);
        }
        buffer.push((cur % 256) as u8);
        cur = cur / 256;
        i = i + 1;
    }
}

/// Reads the unsigned value that `bytes` stands for, little-endian.
pub fn read_le_bytes(bytes: &[u8]) -> (r: u128)
    requires
        bytes@.len() <= 16,
    ensures
        r as int == spec_le_value(bytes@),
{
    let len = bytes.len();
    let mut acc: u128 = 0;
    let mut i: usize = len;
    proof {
        assert(bytes@.skip(len as int) =~= Seq::<u8>::empty());
    }
    while i > 0
        invariant
            i <= len,
            len == bytes@.len() <= 16,
            acc as int == spec_le_value(bytes@.skip(i as int)),
            (acc as int) < spec_pow256((len - i) as nat),
        decreases i,
    {
        proof {
            lemma_pow256_values();
            lemma_pow256_increases((len - i) as nat, 15);
            let s = bytes@.skip(i as int - 1);
            assert(s.drop_first() =~= bytes@.skip(i as int));
            assert(spec_le_value(s) == s[0] + 256 * spec_le_value(s.drop_first()));
        }
        let b = bytes[i - 1];
        acc = acc * 256 + (b as u128);
        i = i - 1;
    }
    proof {
        assert(bytes@.skip(0) =~= bytes@);
    }
    acc
}

pub proof fn lemma_pow256_increases(a: nat, b: nat)
    requires
        a <= b,
    ensures
        spec_pow256(a) <= spec_pow256(b),
    decreases b,
{
    if a < b {
        lemma_pow256_pos((b - 1) as nat);
        lemma_pow256_increases(a, (b - 1) as nat);
    }
}


/// `u8` on the wire: 1 little-endian bytes.
impl SimpleSerialize for u8 {
    open spec fn spec_is_variable_size() -> bool {
        false
    }

    open spec fn spec_size_hint() -> int {
        1
    }

    open spec fn spec_valid(&self) -> bool {
        true
    }

    open spec fn spec_encoding(&self) -> Seq<u8> {
        spec_le_bytes(*self as int, 1)
    }

    open spec fn spec_is_composite_type() -> bool {
        false
    }

    open spec fn spec_hash_tree_root(&self) -> Seq<u8> {
        spec_le_bytes(*self as int, 32)
    }

    open spec fn spec_root_in_bounds(&self) -> bool {
        true
    }

    proof fn lemma_fixed_size(&self) {
        lemma_le_bytes_len(*self as int, 1);
    }

    proof fn lemma_encoding_injective(a: &Self, b: &Self) {
        lemma_pow256_values();
        lemma_le_bytes_injective(*a as int, *b as int, 1);
    }

    fn is_variable_size() -> (r: bool) {
        false
    }

    fn size_hint() -> (r: usize) {
        1
    }

    fn try_size_hint() -> (r: Option<usize>) {
        Option::Some(1)
    }

    fn is_composite_type() -> (r: bool) {
        false
    }

    fn serialize(&self, buffer: &mut Vec<u8>) -> (r: Result<usize, SerializeError>) {
        write_le_bytes(buffer, *self as u128, 1);
        proof {
            lemma_le_bytes_len(*self as int, 1);
        }
        Ok(1)
    }

    fn deserialize(encoding: &[u8]) -> (r: Result<Self, DeserializeError>)
        ensures
            encoding@.len() == 1 ==> r is Ok,
            encoding@.len() < 1 ==> r == Err::<u8, DeserializeError>(
                DeserializeError::ExpectedFurtherInput {
                    provided: encoding@.len() as usize,
                    expected: 1,
                },
            ),
            encoding@.len() > 1 ==> r == Err::<u8, DeserializeError>(
                DeserializeError::AdditionalInput {
                    provided: encoding@.len() as usize,
                    expected: 1,
                },
            ),
    {
        let len = encoding.len();
        proof {
            assert forall|v: u8| v.spec_valid() implies (#[trigger] v.spec_encoding()).len()
                == 1 by {
                lemma_le_bytes_len(v as int, 1);
            }
        }
        if len < 1 {
            return Err(DeserializeError::ExpectedFurtherInput { provided: len, expected: 1 });
        }
        if len > 1 {
            return Err(DeserializeError::AdditionalInput { provided: len, expected: 1 });
        }
        let x = read_le_bytes(encoding);
        proof {
            lemma_le_value_bound(encoding@);
            lemma_pow256_values();
            lemma_le_bytes_of_value(encoding@);
        }
        Ok(x as u8)
    }

    fn hash_tree_root(&self) -> (r: Result<Node, MerkleizationError>) {
        let mut bytes: Vec<u8> = Vec::new();
        write_le_bytes(&mut bytes, *self as u128, 32);
        proof {
            lemma_le_bytes_len(*self as int, 32);
        }
        Ok(Node::from_bytes(bytes))
    }
}

/// `u16` on the wire: 2 little-endian bytes.
impl SimpleSerialize for u16 {
    open spec fn spec_is_variable_size() -> bool {
        false
    }

    open spec fn spec_size_hint() -> int {
        2
    }

    open spec fn spec_valid(&self) -> bool {
        true
    }

    open spec fn spec_encoding(&self) -> Seq<u8> {
        spec_le_bytes(*self as int, 2)
    }

    open spec fn spec_is_composite_type() -> bool {
        false
    }

    open spec fn spec_hash_tree_root(&self) -> Seq<u8> {
        spec_le_bytes(*self as int, 32)
    }

    open spec fn spec_root_in_bounds(&self) -> bool {
        true
    }

    proof fn lemma_fixed_size(&self) {
        lemma_le_bytes_len(*self as int, 2);
    }

    proof fn lemma_encoding_injective(a: &Self, b: &Self) {
        lemma_pow256_values();
        lemma_le_bytes_injective(*a as int, *b as int, 2);
    }

    fn is_variable_size() -> (r: bool) {
        false
    }

    fn size_hint() -> (r: usize) {
        2
    }

    fn try_size_hint() -> (r: Option<usize>) {
        Option::Some(2)
    }

    fn is_composite_type() -> (r: bool) {
        false
    }

    fn serialize(&self, buffer: &mut Vec<u8>) -> (r: Result<usize, SerializeError>) {
        write_le_bytes(buffer, *self as u128, 2);
        proof {
            lemma_le_bytes_len(*self as int, 2);
        }
        Ok(2)
    }

    fn deserialize(encoding: &[u8]) -> (r: Result<Self, DeserializeError>)
        ensures
            encoding@.len() == 2 ==> r is Ok,
            encoding@.len() < 2 ==> r == Err::<u16, DeserializeError>(
                DeserializeError::ExpectedFurtherInput {
                    provided: encoding@.len() as usize,
                    expected: 2,
                },
            ),
            encoding@.len() > 2 ==> r == Err::<u16, DeserializeError>(
                DeserializeError::AdditionalInput {
                    provided: encoding@.len() as usize,
                    expected: 2,
                },
            ),
    {
        let len = encoding.len();
        proof {
            assert forall|v: u16| v.spec_valid() implies (#[trigger] v.spec_encoding()).len()
                == 2 by {
                lemma_le_bytes_len(v as int, 2);
            }
        }
        if len < 2 {
            return Err(DeserializeError::ExpectedFurtherInput { provided: len, expected: 2 });
        }
        if len > 2 {
            return Err(DeserializeError::AdditionalInput { provided: len, expected: 2 });
        }
        let x = read_le_bytes(encoding);
        proof {
            lemma_le_value_bound(encoding@);
            lemma_pow256_values();
            lemma_le_bytes_of_value(encoding@);
        }
        Ok(x as u16)
    }

    fn hash_tree_root(&self) -> (r: Result<Node, MerkleizationError>) {
        let mut bytes: Vec<u8> = Vec::new();
        write_le_bytes(&mut bytes, *self as u128, 32);
        proof {
            lemma_le_bytes_len(*self as int, 32);
        }
        Ok(Node::from_bytes(bytes))
    }
}

/// `u32` on the wire: 4 little-endian bytes.
impl SimpleSerialize for u32 {
    open spec fn spec_is_variable_size() -> bool {
        false
    }

    open spec fn spec_size_hint() -> int {
        4
    }

    open spec fn spec_valid(&self) -> bool {
        true
    }

    open spec fn spec_encoding(&self) -> Seq<u8> {
        spec_le_bytes(*self as int, 4)
    }

    open spec fn spec_is_composite_type() -> bool {
        false
    }

    open spec fn spec_hash_tree_root(&self) -> Seq<u8> {
        spec_le_bytes(*self as int, 32)
    }

    open spec fn spec_root_in_bounds(&self) -> bool {
        true
    }

    proof fn lemma_fixed_size(&self) {
        lemma_le_bytes_len(*self as int, 4);
    }

    proof fn lemma_encoding_injective(a: &Self, b: &Self) {
        lemma_pow256_values();
        lemma_le_bytes_injective(*a as int, *b as int, 4);
    }

    fn is_variable_size() -> (r: bool) {
        false
    }

    fn size_hint() -> (r: usize) {
        4
    }

    fn try_size_hint() -> (r: Option<usize>) {
        Option::Some(4)
    }

    fn is_composite_type() -> (r: bool) {
        false
    }

    fn serialize(&self, buffer: &mut Vec<u8>) -> (r: Result<usize, SerializeError>) {
        write_le_bytes(buffer, *self as u128, 4);
        proof {
            lemma_le_bytes_len(*self as int, 4);
        }
        Ok(4)
    }

    fn deserialize(encoding: &[u8]) -> (r: Result<Self, DeserializeError>)
        ensures
            encoding@.len() == 4 ==> r is Ok,
            encoding@.len() < 4 ==> r == Err::<u32, DeserializeError>(
                DeserializeError::ExpectedFurtherInput {
                    provided: encoding@.len() as usize,
                    expected: 4,
                },
            ),
            encoding@.len() > 4 ==> r == Err::<u32, DeserializeError>(
                DeserializeError::AdditionalInput {
                    provided: encoding@.len() as usize,
                    expected: 4,
                },
            ),
    {
        let len = encoding.len();
        proof {
            assert forall|v: u32| v.spec_valid() implies (#[trigger] v.spec_encoding()).len()
                == 4 by {
                lemma_le_bytes_len(v as int, 4);
            }
        }
        if len < 4 {
            return Err(DeserializeError::ExpectedFurtherInput { provided: len, expected: 4 });
        }
        if len > 4 {
            return Err(DeserializeError::AdditionalInput { provided: len, expected: 4 });
        }
        let x = read_le_bytes(encoding);
        proof {
            lemma_le_value_bound(encoding@);
            lemma_pow256_values();
            lemma_le_bytes_of_value(encoding@);
        }
        Ok(x as u32)
    }

    fn hash_tree_root(&self) -> (r: Result<Node, MerkleizationError>) {
        let mut bytes: Vec<u8> = Vec::new();
        write_le_bytes(&mut bytes, *self as u128, 32);
        proof {
            lemma_le_bytes_len(*self as int, 32);
        }
        Ok(Node::from_bytes(bytes))
    }
}

/// `u64` on the wire: 8 little-endian bytes.
impl SimpleSerialize for u64 {
    open spec fn spec_is_variable_size() -> bool {
        false
    }

    open spec fn spec_size_hint() -> int {
        8
    }

    open spec fn spec_valid(&self) -> bool {
        true
    }

    open spec fn spec_encoding(&self) -> Seq<u8> {
        spec_le_bytes(*self as int, 8)
    }

    open spec fn spec_is_composite_type() -> bool {
        false
    }

    open spec fn spec_hash_tree_root(&self) -> Seq<u8> {
        spec_le_bytes(*self as int, 32)
    }

    open spec fn spec_root_in_bounds(&self) -> bool {
        true
    }

    proof fn lemma_fixed_size(&self) {
        lemma_le_bytes_len(*self as int, 8);
    }

    proof fn lemma_encoding_injective(a: &Self, b: &Self) {
        lemma_pow256_values();
        lemma_le_bytes_injective(*a as int, *b as int, 8);
    }

    fn is_variable_size() -> (r: bool) {
        false
    }

    fn size_hint() -> (r: usize) {
        8
    }

    fn try_size_hint() -> (r: Option<usize>) {
        Option::Some(8)
    }

    fn is_composite_type() -> (r: bool) {
        false
    }

    fn serialize(&self, buffer: &mut Vec<u8>) -> (r: Result<usize, SerializeError>) {
        write_le_bytes(buffer, *self as u128, 8);
        proof {
            lemma_le_bytes_len(*self as int, 8);
        }
        Ok(8)
    }

    fn deserialize(encoding: &[u8]) -> (r: Result<Self, DeserializeError>)
        ensures
            encoding@.len() == 8 ==> r is Ok,
            encoding@.len() < 8 ==> r == Err::<u64, DeserializeError>(
                DeserializeError::ExpectedFurtherInput {
                    provided: encoding@.len() as usize,
                    expected: 8,
                },
            ),
            encoding@.len() > 8 ==> r == Err::<u64, DeserializeError>(
                DeserializeError::AdditionalInput {
                    provided: encoding@.len() as usize,
                    expected: 8,
                },
            ),
    {
        let len = encoding.len();
        proof {
            assert forall|v: u64| v.spec_valid() implies (#[trigger] v.spec_encoding()).len()
                == 8 by {
                lemma_le_bytes_len(v as int, 8);
            }
        }
        if len < 8 {
            return Err(DeserializeError::ExpectedFurtherInput { provided: len, expected: 8 });
        }
        if len > 8 {
            return Err(DeserializeError::AdditionalInput { provided: len, expected: 8 });
        }
        let x = read_le_bytes(encoding);
        proof {
            lemma_le_value_bound(encoding@);
            lemma_pow256_values();
            lemma_le_bytes_of_value(encoding@);
        }
        Ok(x as u64)
    }

    fn hash_tree_root(&self) -> (r: Result<Node, MerkleizationError>) {
        let mut bytes: Vec<u8> = Vec::new();
        write_le_bytes(&mut bytes, *self as u128, 32);
        proof {
            lemma_le_bytes_len(*self as int, 32);
        }
        Ok(Node::from_bytes(bytes))
    }
}

/// `u128` on the wire: 16 little-endian bytes.
impl SimpleSerialize for u128 {
    open spec fn spec_is_variable_size() -> bool {
        false
    }

    open spec fn spec_size_hint() -> int {
        16
    }

    open spec fn spec_valid(&self) -> bool {
        true
    }

    open spec fn spec_encoding(&self) -> Seq<u8> {
        spec_le_bytes(*self as int, 16)
    }

    open spec fn spec_is_composite_type() -> bool {
        false
    }

    open spec fn spec_hash_tree_root(&self) -> Seq<u8> {
        spec_le_bytes(*self as int, 32)
    }

    open spec fn spec_root_in_bounds(&self) -> bool {
        true
    }

    proof fn lemma_fixed_size(&self) {
        lemma_le_bytes_len(*self as int, 16);
    }

    proof fn lemma_encoding_injective(a: &Self, b: &Self) {
        lemma_pow256_values();
        lemma_le_bytes_injective(*a as int, *b as int, 16);
    }

    fn is_variable_size() -> (r: bool) {
        false
    }

    fn size_hint() -> (r: usize) {
        16
    }

    fn try_size_hint() -> (r: Option<usize>) {
        Option::Some(16)
    }

    fn is_composite_type() -> (r: bool) {
        false
    }

    fn serialize(&self, buffer: &mut Vec<u8>) -> (r: Result<usize, SerializeError>) {
        write_le_bytes(buffer, *self as u128, 16);
        proof {
            lemma_le_bytes_len(*self as int, 16);
        }
        Ok(16)
    }

    fn deserialize(encoding: &[u8]) -> (r: Result<Self, DeserializeError>)
        ensures
            encoding@.len() == 16 ==> r is Ok,
            encoding@.len() < 16 ==> r == Err::<u128, DeserializeError>(
                DeserializeError::ExpectedFurtherInput {
                    provided: encoding@.len() as usize,
                    expected: 16,
                },
            ),
            encoding@.len() > 16 ==> r == Err::<u128, DeserializeError>(
                DeserializeError::AdditionalInput {
                    provided: encoding@.len() as usize,
                    expected: 16,
                },
            ),
    {
        let len = encoding.len();
        proof {
            assert forall|v: u128| v.spec_valid() implies (#[trigger] v.spec_encoding()).len()
                == 16 by {
                lemma_le_bytes_len(v as int, 16);
            }
        }
        if len < 16 {
            return Err(DeserializeError::ExpectedFurtherInput { provided: len, expected: 16 });
        }
        if len > 16 {
            return Err(DeserializeError::AdditionalInput { provided: len, expected: 16 });
        }
        let x = read_le_bytes(encoding);
        proof {
            lemma_le_value_bound(encoding@);
            lemma_pow256_values();
            lemma_le_bytes_of_value(encoding@);
        }
        Ok(x as u128)
    }

    fn hash_tree_root(&self) -> (r: Result<Node, MerkleizationError>) {
        let mut bytes: Vec<u8> = Vec::new();
        write_le_bytes(&mut bytes, *self as u128, 32);
        proof {
            lemma_le_bytes_len(*self as int, 32);
        }
        Ok(Node::from_bytes(bytes))
    }
}

/// A 256-bit unsigned scalar, carried as its 32 little-endian bytes; the
/// codec asks nothing of the arithmetic, only byte import and export.
#[derive(Debug, PartialEq, Eq)]
pub struct U256 {
    bytes: Vec<u8>,
}

impl View for U256 {
    type V = Seq<u8>;

    closed spec fn view(&self) -> Seq<u8> {
        self.bytes@
    }
}

impl DeepView for U256 {
    type V = Seq<u8>;

    open spec fn deep_view(&self) -> Seq<u8> {
        self.view()
    }
}

impl Clone for U256 {
    fn clone(&self) -> (r: Self)
        ensures
            r@ == self@,
    {
        let mut bytes: Vec<u8> = Vec::new();
        bytes.extend_from_slice(self.bytes.as_slice());
        proof {
            assert(bytes@ =~= self@);
        }
        U256 { bytes }
    }
}

impl U256 {
    /// Every value holds exactly 32 bytes.
    pub open spec fn wf(&self) -> bool {
        self@.len() == 32
    }

    /// Builds the scalar from its 32 little-endian bytes.
    pub fn from_le_bytes(bytes: [u8; 32]) -> (r: U256)
        ensures
            r@ == bytes@,
            r.wf(),
    {
        let mut inner: Vec<u8> = Vec::new();
        inner.extend_from_slice(bytes.as_slice());
        proof {
            assert(inner@ =~= bytes@);
        }
        U256 { bytes: inner }
    }

    /// The scalar's 32 little-endian bytes.
    pub fn to_le_bytes_vec(&self) -> (r: Vec<u8>)
        ensures
            r@ == self@,
    {
        let mut out: Vec<u8> = Vec::new();
        out.extend_from_slice(self.bytes.as_slice());
        proof {
            assert(out@ =~= self@);
        }
        out
    }
}

/// `U256` on the wire: its own 32 little-endian bytes, unchanged.
impl SimpleSerialize for U256 {
    open spec fn spec_is_variable_size() -> bool {
        false
    }

    open spec fn spec_size_hint() -> int {
        32
    }

    open spec fn spec_valid(&self) -> bool {
        self.wf()
    }

    open spec fn spec_encoding(&self) -> Seq<u8> {
        self@
    }

    open spec fn spec_is_composite_type() -> bool {
        false
    }

    open spec fn spec_hash_tree_root(&self) -> Seq<u8> {
        self@
    }

    open spec fn spec_root_in_bounds(&self) -> bool {
        true
    }

    proof fn lemma_fixed_size(&self) {
    }

    proof fn lemma_encoding_injective(a: &Self, b: &Self) {
    }

    fn is_variable_size() -> (r: bool) {
        false
    }

    fn size_hint() -> (r: usize) {
        32
    }

    fn try_size_hint() -> (r: Option<usize>) {
        Option::Some(32)
    }

    fn is_composite_type() -> (r: bool) {
        false
    }

    fn serialize(&self, buffer: &mut Vec<u8>) -> (r: Result<usize, SerializeError>) {
        if self.bytes.len() != 32 {
            return Err(SerializeError::IllegalType { bound: 32 });
        }
        buffer.extend_from_slice(self.bytes.as_slice());
        Ok(32)
    }

    fn deserialize(encoding: &[u8]) -> (r: Result<Self, DeserializeError>)
        ensures
            encoding@.len() == 32 ==> r is Ok,
            encoding@.len() < 32 ==> r == Err::<U256, DeserializeError>(
                DeserializeError::ExpectedFurtherInput {
                    provided: encoding@.len() as usize,
                    expected: 32,
                },
            ),
            encoding@.len() > 32 ==> r == Err::<U256, DeserializeError>(
                DeserializeError::AdditionalInput {
                    provided: encoding@.len() as usize,
                    expected: 32,
                },
            ),
    {
        let len = encoding.len();
        if len < 32 {
            return Err(DeserializeError::ExpectedFurtherInput { provided: len, expected: 32 });
        }
        if len > 32 {
            return Err(DeserializeError::AdditionalInput { provided: len, expected: 32 });
        }
        let inner = vstd::slice::slice_to_vec(encoding);
        Ok(U256 { bytes: inner })
    }

    fn hash_tree_root(&self) -> (r: Result<Node, MerkleizationError>) {
        if self.bytes.len() != 32 {
            return Err(MerkleizationError::InputExceedsLimit);
        }
        let out = self.to_le_bytes_vec();
        Ok(Node::from_bytes(out))
    }
}

} // verus!
