//! The Merkleizer: 32-byte chunks, zero-padded perfect binary trees,
//! and the length / selector mix-ins that bind a root to auxiliary data.

use vstd::prelude::*;
use crate::uint::spec_le_bytes;
use sha2::Digest;

verus! {

/// Width of a chunk and of a digest, a fixed protocol constant.
pub const BYTES_PER_CHUNK: usize = 32;

/// The largest chunk count (before rounding up to a power of two) that the
/// tree builder accepts; a machine limit, far below any practical tree.
pub const MAX_MERKLE_LEAVES: usize = 0x4000_0000;

/// Hashing-stage failures.
#[derive(Debug, Clone, Copy, PartialEq, Eq, Structural)]
pub enum MerkleizationError {
    /// More chunks were supplied than the declared leaf limit allows.
    InputExceedsLimit,
}

/// The digest of a byte string.
pub uninterp spec fn hash_of(data: Seq<u8>) -> Seq<u8>;

/// A 32-byte hash tree node: the output of hashing, or a raw leaf chunk.
#[derive(Debug, PartialEq, Eq)]
pub struct Node {
    bytes: Vec<u8>,
}

impl View for Node {
    type V = Seq<u8>;

    closed spec fn view(&self) -> Seq<u8> {
        self.bytes@
    }
}

impl Node {
    /// Every node holds exactly 32 bytes.
    pub open spec fn wf(&self) -> bool {
        self@.len() == 32
    }

    /// The all-zero chunk, used for padding and for the absent-value root.
    pub fn zero() -> (r: Node)
        ensures
            r@ == spec_zero_chunk(),
            r.wf(),
    {
        let mut bytes: Vec<u8> = Vec::new();
        let mut i: usize = 0;
        while i < 32
            invariant
                i <= 32,
                bytes@.len() == i,
                forall|j: int| 0 <= j < i ==> bytes@[j] == 0u8,
            decreases 32 - i,
        {
            bytes.push(0u8);
            i = i + 1;
        }
        proof {
            assert(bytes@ =~= spec_zero_chunk());
        }
        Node { bytes }
    }

    /// Wraps exactly 32 bytes as a node.
    pub fn from_bytes(bytes: Vec<u8>) -> (r: Node)
        requires
            bytes@.len() == 32,
        ensures
            r@ == bytes@,
            r.wf(),
    {
        Node { bytes }
    }

    /// The node's bytes, least index first.
    pub fn as_slice(&self) -> (r: &[u8])
        ensures
            r@ == self@,
    {
        self.bytes.as_slice()
    }
}

impl Clone for Node {
    fn clone(&self) -> (r: Self)
        ensures
            r@ == self@,
    {
        let mut bytes: Vec<u8> = Vec::new();
        bytes.extend_from_slice(self.bytes.as_slice());
        proof {
            assert(bytes@ =~= self@);
        }
        Node { bytes }
    }
}

impl Default for Node {
    /// The default node is the all-zero chunk.
    fn default() -> (r: Node)
        ensures
            r@ == spec_zero_chunk(),
            r.wf(),
    {
        Node::zero()
    }
}

pub open spec fn spec_zero_chunk() -> Seq<u8> {
    Seq::new(32, |i: int| 0u8)
}

/// Relies on sha2::Sha256: the digest is exactly 32 bytes and is a function
/// of the input bytes alone.
#[verifier::external_body]
fn sha256(data: &[u8]) -> (r: Node)
    ensures
        r@ == hash_of(data@),
        r.wf(),
{
    let digest = sha2::Sha256::digest(data);
    Node { bytes: digest.to_vec() }
}

/// The 32-byte parent of two 32-byte children.
pub open spec fn spec_hash_pair(a: Seq<u8>, b: Seq<u8>) -> Seq<u8> {
    hash_of(a + b)
}

/// Hashes two nodes into their parent.
pub fn hash_nodes(a: &Node, b: &Node) -> (r: Node)
    ensures
        r@ == spec_hash_pair(a@, b@),
        r.wf(),
{
    let mut data: Vec<u8> = Vec::new();
    data.extend_from_slice(a.bytes.as_slice());
    data.extend_from_slice(b.bytes.as_slice());
    proof {
        assert(data@ =~= a@ + b@);
    }
    sha256(data.as_slice())
}

/// `data` right-padded with zero bytes to the next multiple of 32.
pub open spec fn spec_pad32(data: Seq<u8>) -> Seq<u8> {
    data + Seq::new(((32 - data.len() % 32) % 32) as nat, |i: int| 0u8)
}

/// The leaf chunks that a byte string packs into.
pub open spec fn spec_pack(data: Seq<u8>) -> Seq<Seq<u8>> {
    Seq::new(spec_pad32(data).len() / 32, |i: int| spec_pad32(data).subrange(32 * i, 32 * i + 32))
}

/// One level up the tree: adjacent chunks hashed pairwise.
pub open spec fn spec_hash_level(leaves: Seq<Seq<u8>>) -> Seq<Seq<u8>> {
    Seq::new(leaves.len() / 2, |i: int| spec_hash_pair(leaves[2 * i], leaves[2 * i + 1]))
}

/// The root of a perfect binary tree over `leaves` (whose length the callers
/// keep a power of two): an empty tree's root is the zero chunk, a single
/// leaf is its own root.
pub open spec fn spec_merkle_root(leaves: Seq<Seq<u8>>) -> Seq<u8>
    decreases leaves.len(),
{
    if leaves.len() == 0 {
        spec_zero_chunk()
    } else if leaves.len() == 1 {
        leaves[0]
    } else {
        spec_merkle_root(spec_hash_level(leaves))
    }
}

/// Whether `n` is a power of two.
pub open spec fn spec_is_pow2(n: int) -> bool
    decreases n,
{
    if n < 1 {
        false
    } else if n == 1 {
        true
    } else {
        n % 2 == 0 && spec_is_pow2(n / 2)
    }
}

/// The least power of two that is at least `max(n, 1)`.
pub open spec fn spec_next_pow2(n: int) -> int
    decreases n,
{
    if n <= 1 {
        1
    } else {
        2 * spec_next_pow2((n + 1) / 2)
    }
}

pub proof fn lemma_next_pow2(n: int)
    ensures
        spec_next_pow2(n) >= n,
        spec_next_pow2(n) >= 1,
        spec_is_pow2(spec_next_pow2(n)),
        n >= 1 ==> spec_next_pow2(n) <= 2 * n - 1,
        n >= 2 ==> spec_next_pow2(n) % 2 == 0,
    decreases n,
{
    if n <= 1 {
    } else {
        let m = (n + 1) / 2;
        lemma_next_pow2(m);
        let p = spec_next_pow2(m);
        assert(spec_is_pow2(2 * p)) by {
            assert((2 * p) % 2 == 0);
            assert((2 * p) / 2 == p);
        }
        assert(2 * m >= n);
        assert(m < n);
        if n == 2 {
            assert(m == 1);
            assert(spec_next_pow2(2) == 2);
        } else {
            assert(m >= 2);
            assert(p % 2 == 0 && p <= 2 * m - 1);
            assert(p <= 2 * m - 2);
            assert(2 * m <= n + 1);
            assert(2 * p <= 2 * n - 2);
        }
    }
}

/// `chunks` padded with zero chunks to length `target`.
pub open spec fn spec_pad_chunks(chunks: Seq<Seq<u8>>, target: int) -> Seq<Seq<u8>>
    recommends
        target >= chunks.len(),
{
    chunks + Seq::new((target - chunks.len()) as nat, |i: int| spec_zero_chunk())
}

/// The root committed to by a chunk sequence under an optional leaf limit:
/// the chunks, zero-padded to the limit (or to their own count) rounded up
/// to a power of two, merkleized bottom-up.
pub open spec fn spec_merkleize(chunks: Seq<Seq<u8>>, limit: Option<int>) -> Seq<u8> {
    let bound = match limit {
        Option::None => chunks.len() as int,
        Option::Some(l) => l,
    };
    spec_merkle_root(spec_pad_chunks(chunks, spec_next_pow2(bound)))
}

/// A root bound to the element count of a variable-length collection.
pub open spec fn spec_mix_in_length(root: Seq<u8>, length: int) -> Seq<u8> {
    hash_of(root + spec_le_bytes(length, 32))
}

/// A root bound to the selector of a union's active variant.
pub open spec fn spec_mix_in_selector(root: Seq<u8>, selector: int) -> Seq<u8> {
    hash_of(root + spec_le_bytes(selector, 32))
}

/// Packs a byte string into leaf chunks, zero-padding the tail chunk.
#[verifier::loop_isolation(false)]
pub fn pack_bytes(data: &Vec<u8>) -> (r: Vec<Node>)
    ensures
        r@.map_values(|n: Node| n@) == spec_pack(data@),
        forall|i: int| 0 <= i < r@.len() ==> (#[trigger] r@[i]).wf(),
        r@.len() == spec_pack(data@).len(),
{
    let mut padded: Vec<u8> = Vec::new();
    padded.extend_from_slice(data.as_slice());
    let rem = padded.len() % 32;
    if rem != 0 {
        let pad = 32 - rem;
        let mut j: usize = 0;
        while j < pad
            invariant
                j <= pad,
                pad == 32 - data@.len() % 32,
                padded@ == data@ + Seq::new(j as nat, |i: int| 0u8),
            decreases pad - j,
        {
            proof {
                assert(padded@.push(0u8) =~= data@ + Seq::new((j + 1) as nat, |i: int| 0u8));
            }
            padded.push(0u8);
            j = j + 1;
        }
    }
    proof {
        assert(padded@ =~= spec_pad32(data@));
        if data@.len() % 32 == 0 {
            assert((32 - data@.len() % 32) % 32 == 0);
        } else {
            assert((32 - data@.len() % 32) % 32 == 32 - data@.len() % 32);
        }
        vstd::arithmetic::div_mod::lemma_add_mod_noop(
            data@.len() as int,
            (padded@.len() - data@.len()) as int,
            32,
        );
        assert(padded@.len() % 32 == 0);
    }
    let total = padded.len();
    let count = total / 32;
    let mut chunks: Vec<Node> = Vec::new();
    let mut i: usize = 0;
    while i < count
        invariant
            i <= count,
            count == padded@.len() / 32,
            padded@.len() % 32 == 0,
            padded@ == spec_pad32(data@),
            chunks@.len() == i,
            forall|j: int| 0 <= j < i ==> (#[trigger] chunks@[j])@ == spec_pack(data@)[j],
            forall|j: int| 0 <= j < i ==> (#[trigger] chunks@[j]).wf(),
        decreases count - i,
    {
        let mut piece: Vec<u8> = Vec::new();
        proof {
            vstd::std_specs::vec::axiom_spec_len(&padded);
            vstd::arithmetic::div_mod::lemma_fundamental_div_mod(padded@.len() as int, 32);
            assert(32 * (count as int) == padded@.len());
            assert(32 * (i as int) + 32 <= padded@.len());
        }
        let part = vstd::slice::slice_subrange(padded.as_slice(), 32 * i, 32 * i + 32);
        piece.extend_from_slice(part);
        proof {
            assert(piece@ =~= padded@.subrange(32 * i as int, 32 * i as int + 32));
        }
        let node = Node::from_bytes(piece);
        chunks.push(node);
        i = i + 1;
    }
    proof {
        assert(chunks@.map_values(|n: Node| n@) =~= spec_pack(data@));
    }
    chunks
}

/// A byte string packs into one chunk per 32 bytes, rounded up.
pub proof fn lemma_pack_len(data: Seq<u8>)
    ensures
        spec_pack(data).len() == (data.len() + 31) / 32,
{
    let d = data.len() as int;
    vstd::arithmetic::div_mod::lemma_fundamental_div_mod(d, 32);
    let q0 = d / 32;
    let r = d % 32;
    if r == 0 {
        assert(spec_pad32(data).len() == d);
        vstd::arithmetic::div_mod::lemma_fundamental_div_mod_converse(d + 31, 32, q0, 31);
    } else {
        assert(spec_pad32(data).len() == d + 32 - r);
        vstd::arithmetic::div_mod::lemma_fundamental_div_mod_converse(
            d + 32 - r,
            32,
            q0 + 1,
            0,
        );
        vstd::arithmetic::div_mod::lemma_fundamental_div_mod_converse(
            d + 31,
            32,
            q0 + 1,
            r - 1,
        );
    }
}

/// Rounds `n` up to the next power of two (minimum 1).
fn next_pow2(n: usize) -> (r: usize)
    requires
        n <= MAX_MERKLE_LEAVES,
    ensures
        r as int == spec_next_pow2(n as int),
    decreases n,
{
    proof {
        lemma_next_pow2(n as int);
    }
    if n <= 1 {
        1
    } else {
        let m = (n + 1) / 2;
        proof {
            lemma_next_pow2(m as int);
        }
        2 * next_pow2(m)
    }
}

/// Builds the Merkle tree over `chunks`, padded with zero chunks to `limit`
/// (or to the chunk count) rounded up to a power of two, and returns its
/// root.  Fails exactly when a limit smaller than the chunk count is given.
#[verifier::loop_isolation(false)]
pub fn merkleize(chunks: &Vec<Node>, limit: Option<usize>) -> (r: Result<
    Node,
    MerkleizationError,
>)
    requires
        chunks@.len() <= MAX_MERKLE_LEAVES,
        match limit {
            Option::Some(l) => l <= MAX_MERKLE_LEAVES,
            Option::None => true,
        },
        forall|i: int| 0 <= i < chunks@.len() ==> (#[trigger] chunks@[i]).wf(),
    ensures
        match r {
            Ok(root) => {
                &&& root.wf()
                &&& root@ == spec_merkleize(
                    chunks@.map_values(|n: Node| n@),
                    match limit {
                        Option::Some(l) => Option::Some(l as int),
                        Option::None => Option::None,
                    },
                )
                &&& match limit {
                    Option::Some(l) => l >= chunks@.len(),
                    Option::None => true,
                }
            },
            Err(e) => {
                &&& e == MerkleizationError::InputExceedsLimit
                &&& match limit {
                    Option::Some(l) => l < chunks@.len(),
                    Option::None => false,
                }
            },
        },
{
    let ghost views = chunks@.map_values(|n: Node| n@);
    let n = chunks.len();
    let bound: usize = match limit {
        Option::None => n,
        Option::Some(l) => {
            if l < n {
                return Err(MerkleizationError::InputExceedsLimit);
            }
            l
        },
    };
    let target = next_pow2(bound);
    proof {
        lemma_next_pow2(bound as int);
    }
    let mut layer: Vec<Node> = Vec::new();
    let mut i: usize = 0;
    while i < n
        invariant
            i <= n,
            n == chunks@.len(),
            layer@.len() == i,
            forall|j: int| 0 <= j < i ==> (#[trigger] layer@[j])@ == chunks@[j]@,
            forall|j: int| 0 <= j < i ==> (#[trigger] layer@[j]).wf(),
        decreases n - i,
    {
        let c: &Node = vstd::std_specs::vec::vec_index(chunks, i);
        let copy = c.clone();
        layer.push(copy);
        proof {
            assert(layer@[i as int]@ == chunks@[i as int]@);
            assert(chunks@[i as int].wf());
            assert(layer@[i as int].wf());
        }
        i = i + 1;
    }
    while layer.len() < target
        invariant
            target as int == spec_next_pow2(bound as int),
            target >= n,
            n == chunks@.len(),
            layer@.len() >= n,
            layer@.len() <= target,
            forall|j: int| 0 <= j < n ==> (#[trigger] layer@[j])@ == chunks@[j]@,
            forall|j: int| n <= j < layer@.len() ==> (#[trigger] layer@[j])@ == spec_zero_chunk(),
            forall|j: int| 0 <= j < layer@.len() ==> (#[trigger] layer@[j]).wf(),
        decreases target - layer@.len(),
    {
        layer.push(Node::zero());
    }
    proof {
        assert(layer@.map_values(|nd: Node| nd@) =~= spec_pad_chunks(
            views,
            spec_next_pow2(bound as int),
        ));
        assert(spec_is_pow2(layer@.len() as int)) by {
            lemma_next_pow2(bound as int);
        }
    }
    let ghost padded = layer@.map_values(|nd: Node| nd@);
    while layer.len() > 1
        invariant
            layer@.len() >= 1,
            spec_is_pow2(layer@.len() as int),
            forall|j: int| 0 <= j < layer@.len() ==> (#[trigger] layer@[j]).wf(),
            spec_merkle_root(layer@.map_values(|nd: Node| nd@)) == spec_merkle_root(padded),
        decreases layer@.len(),
    {
        let half = layer.len() / 2;
        let ghost before = layer@.map_values(|nd: Node| nd@);
        let mut next: Vec<Node> = Vec::new();
        let mut j: usize = 0;
        while j < half
            invariant
                j <= half,
                half == layer@.len() / 2,
                layer@.len() >= 2,
                forall|k: int| 0 <= k < layer@.len() ==> (#[trigger] layer@[k]).wf(),
                next@.len() == j,
                before == layer@.map_values(|nd: Node| nd@),
                forall|k: int|
                    0 <= k < j ==> (#[trigger] next@[k])@ == spec_hash_level(before)[k],
                forall|k: int| 0 <= k < j ==> (#[trigger] next@[k]).wf(),
            decreases half - j,
        {
            proof {
                vstd::std_specs::vec::axiom_spec_len(&layer);
                vstd::arithmetic::div_mod::lemma_fundamental_div_mod(layer@.len() as int, 2);
                assert(2 * (half as int) <= layer@.len());
                assert(2 * (j as int) + 1 < layer@.len());
            }
            let left: &Node = vstd::std_specs::vec::vec_index(&layer, 2 * j);
            let right: &Node = vstd::std_specs::vec::vec_index(&layer, 2 * j + 1);
            let parent = hash_nodes(left, right);
            next.push(parent);
            j = j + 1;
        }
        proof {
            assert(next@.map_values(|nd: Node| nd@) =~= spec_hash_level(before));
            assert(layer@.len() % 2 == 0 && layer@.len() / 2 >= 1);
        }
        layer = next;
    }
    proof {
        let fin = layer@.map_values(|nd: Node| nd@);
        assert(fin.len() == 1);
        assert(spec_merkle_root(fin) == fin[0]);
        assert(fin[0] == layer@[0]@);
    }
    let root = layer.pop().unwrap();
    Ok(root)
}

/// Binds a root to an element count: `hash(root || little_endian_u256(length))`.
pub fn mix_in_length(root: &Node, length: usize) -> (r: Node)
    ensures
        r@ == spec_mix_in_length(root@, length as int),
        r.wf(),
{
    let mut data: Vec<u8> = Vec::new();
    data.extend_from_slice(root.bytes.as_slice());
    crate::uint::write_le_bytes(&mut data, length as u128, 32);
    proof {
        assert(data@ =~= root@ + spec_le_bytes(length as int, 32));
    }
    sha256(data.as_slice())
}

/// Binds a root to a union selector: `hash(root || little_endian_u256(selector))`.
pub fn mix_in_selector(root: &Node, selector: usize) -> (r: Node)
    ensures
        r@ == spec_mix_in_selector(root@, selector as int),
        r.wf(),
{
    let mut data: Vec<u8> = Vec::new();
    data.extend_from_slice(root.bytes.as_slice());
    crate::uint::write_le_bytes(&mut data, selector as u128, 32);
    proof {
        assert(data@ =~= root@ + spec_le_bytes(selector as int, 32));
    }
    sha256(data.as_slice())
}

} // verus!
