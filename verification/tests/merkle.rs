use ssz_rs::list::List;
use ssz_rs::merkleization::{
    hash_nodes, merkleize, mix_in_length, pack_bytes, MerkleizationError, Node,
};
use ssz_rs::ssz::SimpleSerialize;
use ssz_rs::vector::Vector;

fn node_from(bytes: [u8; 32]) -> Node {
    Node::from_bytes(bytes.to_vec())
}

#[test]
fn hashing_two_zero_nodes_gives_the_known_digest() {
    // SHA-256 of 64 zero bytes, the first zero-subtree root
    let expected = node_from([
        0xf5, 0xa5, 0xfd, 0x42, 0xd1, 0x6a, 0x20, 0x30, 0x27, 0x98, 0xef, 0x6e, 0xd3, 0x09,
        0x97, 0x9b, 0x43, 0x00, 0x3d, 0x23, 0x20, 0xd9, 0xf0, 0xe8, 0xea, 0x98, 0x31, 0xa9,
        0x27, 0x59, 0xfb, 0x4b,
    ]);
    let zero = Node::default();
    assert_eq!(hash_nodes(&zero, &zero), expected);
}

#[test]
fn merkleize_shapes() {
    // an empty tree's root is the zero chunk
    let root = merkleize(&vec![], None).expect("can merkleize");
    assert_eq!(root, Node::default());
    // a single chunk is its own root
    let chunk = node_from([7u8; 32]);
    let root = merkleize(&vec![chunk.clone()], None).expect("can merkleize");
    assert_eq!(root, chunk);
    // two chunks hash pairwise
    let left = node_from([1u8; 32]);
    let right = node_from([2u8; 32]);
    let root = merkleize(&vec![left.clone(), right.clone()], None).expect("can merkleize");
    assert_eq!(root, hash_nodes(&left, &right));
    // one chunk under a limit of two pads with a zero chunk
    let root = merkleize(&vec![left.clone()], Some(2)).expect("can merkleize");
    assert_eq!(root, hash_nodes(&left, &Node::default()));
    // a limit below the chunk count is refused
    assert_eq!(
        merkleize(&vec![left.clone(), right.clone()], Some(1)),
        Err(MerkleizationError::InputExceedsLimit)
    );
}

#[test]
fn hash_tree_root_is_deterministic_and_value_sensitive() {
    let value: List<u8, 32> =
        List::try_from_elements(vec![1u8, 2u8, 3u8]).expect("test data");
    let first = value.hash_tree_root().expect("can hash");
    let second = value.hash_tree_root().expect("can hash");
    assert_eq!(first, second);
    let other: List<u8, 32> =
        List::try_from_elements(vec![1u8, 2u8, 4u8]).expect("test data");
    assert_ne!(other.hash_tree_root().expect("can hash"), first);
}

#[test]
fn length_mix_in_separates_equal_padded_trees() {
    // three and five elements pad to the same single chunk tree shape
    let three: List<u8, 32> =
        List::try_from_elements(vec![0u8, 0u8, 0u8]).expect("test data");
    let five: List<u8, 32> =
        List::try_from_elements(vec![0u8, 0u8, 0u8, 0u8, 0u8]).expect("test data");
    assert_ne!(
        three.hash_tree_root().expect("can hash"),
        five.hash_tree_root().expect("can hash")
    );
    // the mix-in alone distinguishes the lengths
    let root = Node::default();
    assert_ne!(mix_in_length(&root, 3), mix_in_length(&root, 5));
}

#[test]
fn vector_root_packs_basic_scalars() {
    // 32 bytes fill exactly one chunk: the root is that chunk, unhashed
    let mut raw = [0u8; 32];
    for (i, slot) in raw.iter_mut().enumerate() {
        *slot = i as u8;
    }
    let value: Vector<u8, 32> =
        Vector::try_from_elements(raw.to_vec()).expect("test data");
    let root = value.hash_tree_root().expect("can hash");
    assert_eq!(root, node_from(raw));
    // 64 bytes fill two chunks, hashed pairwise
    let mut wide = [0u8; 64];
    for (i, slot) in wide.iter_mut().enumerate() {
        *slot = i as u8;
    }
    let value: Vector<u8, 64> =
        Vector::try_from_elements(wide.to_vec()).expect("test data");
    let root = value.hash_tree_root().expect("can hash");
    let mut left = [0u8; 32];
    left.copy_from_slice(&wide[..32]);
    let mut right = [0u8; 32];
    right.copy_from_slice(&wide[32..]);
    assert_eq!(root, hash_nodes(&node_from(left), &node_from(right)));
}

#[test]
fn scalar_roots_are_their_padded_bytes() {
    let mut expected = [0u8; 32];
    expected[0] = 57;
    expected[1] = 5;
    let root = 1337u16.hash_tree_root().expect("can hash");
    assert_eq!(root, node_from(expected));
    let root = 1337u64.hash_tree_root().expect("can hash");
    assert_eq!(root, node_from(expected));
}

#[test]
fn list_root_is_packed_chunks_with_length_mixed_in() {
    let bytes = vec![1u8, 2u8, 3u8];
    let value: List<u8, 32> = List::try_from_elements(bytes.clone()).expect("test data");
    let chunks = pack_bytes(&bytes);
    // capacity 32 bytes of u8 rounds up to a single leaf chunk
    let tree = merkleize(&chunks, Some(1)).expect("can merkleize");
    let expected = mix_in_length(&tree, 3);
    assert_eq!(value.hash_tree_root().expect("can hash"), expected);
}
