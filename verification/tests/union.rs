use ssz_rs::de::DeserializeError;
use ssz_rs::list::List;
use ssz_rs::serialize;
use ssz_rs::ssz::SimpleSerialize;
use ssz_rs::tagged::Union;

type Example = Union<u8, List<u8, 4>>;

#[test]
fn union_selector_round_trip() {
    let first: Example = Union::First(7u8);
    let encoding = serialize(&first).expect("can encode");
    assert_eq!(encoding, vec![1u8, 7u8]);
    let recovered = Example::deserialize(&encoding).expect("can decode");
    assert_eq!(recovered, first);

    let second: Example =
        Union::Second(List::try_from_elements(vec![5u8, 6u8]).expect("test data"));
    let encoding = serialize(&second).expect("can encode");
    assert_eq!(encoding, vec![2u8, 5u8, 6u8]);
    let recovered = Example::deserialize(&encoding).expect("can decode");
    assert_eq!(recovered, second);
}

#[test]
fn union_absent_round_trip() {
    let absent: Example = Union::Absent;
    let encoding = serialize(&absent).expect("can encode");
    assert_eq!(encoding, vec![0u8]);
    let recovered = Example::deserialize(&encoding).expect("can decode");
    assert_eq!(recovered, absent);
}

#[test]
fn union_bad_selectors_are_rejected() {
    assert_eq!(
        Example::deserialize(&[9u8, 1u8]),
        Err(DeserializeError::InvalidByte(9))
    );
    assert_eq!(
        Example::deserialize(&[]),
        Err(DeserializeError::ExpectedFurtherInput { provided: 0, expected: 1 })
    );
    // the absent marker owns no payload bytes
    assert_eq!(
        Example::deserialize(&[0u8, 1u8]),
        Err(DeserializeError::AdditionalInput { provided: 2, expected: 1 })
    );
}

#[test]
fn union_roots_differ_by_selector() {
    let absent: Example = Union::Absent;
    let first: Example = Union::First(0u8);
    let root_absent = absent.hash_tree_root().expect("can hash");
    let root_first = first.hash_tree_root().expect("can hash");
    assert_ne!(root_absent, root_first);
    // stable across repeated calls
    assert_eq!(absent.hash_tree_root().expect("can hash"), root_absent);
}
