use ssz_rs::de::DeserializeError;
use ssz_rs::list::List;
use ssz_rs::ser::SerializeError;
use ssz_rs::serialize;
use ssz_rs::ssz::SimpleSerialize;

const COUNT: usize = 32;

#[test]
fn encode_list() {
    let mut value: List<u16, COUNT> = List::default();
    for _ in 0..COUNT {
        value.push(33u16);
    }
    let encoding = serialize(&value).expect("can encode");
    let expected = [
        33u8, 0u8, 33u8, 0u8, 33u8, 0u8, 33u8, 0u8, 33u8, 0u8, 33u8, 0u8, 33u8, 0u8, 33u8, 0u8,
        33u8, 0u8, 33u8, 0u8, 33u8, 0u8, 33u8, 0u8, 33u8, 0u8, 33u8, 0u8, 33u8, 0u8, 33u8, 0u8,
        33u8, 0u8, 33u8, 0u8, 33u8, 0u8, 33u8, 0u8, 33u8, 0u8, 33u8, 0u8, 33u8, 0u8, 33u8, 0u8,
        33u8, 0u8, 33u8, 0u8, 33u8, 0u8, 33u8, 0u8, 33u8, 0u8, 33u8, 0u8, 33u8, 0u8, 33u8, 0u8,
    ];
    assert_eq!(encoding, expected);
}

#[test]
fn decode_list() {
    let bytes = vec![
        0u8, 1u8, 2u8, 3u8, 4u8, 5u8, 6u8, 7u8, 0u8, 1u8, 2u8, 3u8, 4u8, 5u8, 6u8, 7u8, 0u8,
        1u8, 2u8, 3u8, 4u8, 5u8, 6u8, 7u8, 0u8, 1u8, 2u8, 3u8, 4u8, 5u8, 6u8, 7u8,
    ];
    let result = List::<u8, COUNT>::deserialize(&bytes).expect("can deserialize");
    let expected: List<u8, COUNT> = List::try_from_elements(bytes).expect("test data");
    assert_eq!(result, expected);
}

#[test]
fn roundtrip_list() {
    let bytes = vec![
        0u8, 1u8, 2u8, 3u8, 4u8, 5u8, 6u8, 7u8, 0u8, 1u8, 2u8, 3u8, 4u8, 5u8, 6u8, 7u8, 0u8,
        1u8, 2u8, 3u8, 4u8, 5u8, 6u8, 7u8, 0u8, 1u8, 2u8, 3u8, 4u8, 5u8, 6u8, 7u8,
    ];
    let input: List<u8, COUNT> = List::try_from_elements(bytes).expect("test data");
    let mut buffer = vec![];
    let _ = input.serialize(&mut buffer).expect("can serialize");
    let recovered = List::<u8, COUNT>::deserialize(&buffer).expect("can decode");
    assert_eq!(input, recovered);
}

#[test]
fn roundtrip_list_of_list() {
    const COUNT: usize = 4;
    let bytes = vec![
        List::<u8, 1>::try_from_elements(vec![0u8]).expect("test data"),
        List::<u8, 1>::try_from_elements(vec![]).expect("test data"),
        List::<u8, 1>::try_from_elements(vec![1u8]).expect("test data"),
    ];
    let input: List<List<u8, 1>, COUNT> = List::try_from_elements(bytes).expect("test data");
    let mut buffer = vec![];
    let _ = input.serialize(&mut buffer).expect("can serialize");
    let recovered = List::<List<u8, 1>, COUNT>::deserialize(&buffer).expect("can decode");
    assert_eq!(input, recovered);
}

#[test]
fn list_past_its_bound_is_rejected() {
    let result = List::<u8, 2>::try_from_elements(vec![1u8, 2u8, 3u8]);
    assert_eq!(result, Err(SerializeError::IllegalType { bound: 2 }));
    let decoded = List::<u8, 2>::deserialize(&[1u8, 2u8, 3u8]);
    assert_eq!(decoded, Err(DeserializeError::IllegalType { bound: 2 }));
}

#[test]
fn fixed_size_list_encodes_to_its_own_bytes() {
    let bytes = vec![
        0u8, 1u8, 2u8, 3u8, 4u8, 5u8, 6u8, 7u8, 0u8, 1u8, 2u8, 3u8, 4u8, 5u8, 6u8, 7u8, 0u8,
        1u8, 2u8, 3u8, 4u8, 5u8, 6u8, 7u8, 0u8, 1u8, 2u8, 3u8, 4u8, 5u8, 6u8, 7u8,
    ];
    let input: List<u8, 32> = List::try_from_elements(bytes.clone()).expect("test data");
    let encoding = serialize(&input).expect("can encode");
    assert_eq!(encoding, bytes);
    let recovered = List::<u8, 32>::deserialize(&encoding).expect("can decode");
    assert_eq!(recovered, input);
}

#[test]
fn malformed_offsets_are_rejected() {
    // a first offset that is not a multiple of four
    let decoded = List::<List<u8, 1>, 4>::deserialize(&[3u8, 0u8, 0u8, 0u8]);
    assert_eq!(decoded, Err(DeserializeError::InvalidOffset { offset: 3 }));
    // a first offset pointing past the end of the buffer
    let decoded = List::<List<u8, 1>, 4>::deserialize(&[8u8, 0u8, 0u8, 0u8]);
    assert_eq!(decoded, Err(DeserializeError::InvalidOffset { offset: 8 }));
    // a second offset running backwards
    let decoded = List::<List<u8, 1>, 4>::deserialize(&[
        8u8, 0u8, 0u8, 0u8, 7u8, 0u8, 0u8, 0u8, 9u8,
    ]);
    assert_eq!(decoded, Err(DeserializeError::InvalidOffset { offset: 7 }));
    // a nonempty buffer too short for one offset
    let decoded = List::<List<u8, 1>, 4>::deserialize(&[1u8, 2u8]);
    assert_eq!(
        decoded,
        Err(DeserializeError::ExpectedFurtherInput { provided: 2, expected: 4 })
    );
}

#[test]
fn round_trip_helper_returns_the_same_value() {
    let input: List<u8, 8> = List::try_from_elements(vec![9u8, 8u8, 7u8]).expect("test data");
    let recovered = ssz_rs::encode_then_decode(&input);
    assert_eq!(recovered, input);
}

#[test]
fn empty_lists_round_trip() {
    // a fixed-size element list: no bytes at all
    let empty: List<u8, 32> = List::default();
    let encoding = ssz_rs::serialize(&empty).expect("can encode");
    assert!(encoding.is_empty());
    let recovered = List::<u8, 32>::deserialize(&encoding).expect("can decode");
    assert_eq!(recovered, empty);
    // a variable-size element list: likewise no offset table
    let empty: List<List<u8, 1>, 4> = List::default();
    let encoding = ssz_rs::serialize(&empty).expect("can encode");
    assert!(encoding.is_empty());
    let recovered = List::<List<u8, 1>, 4>::deserialize(&encoding).expect("can decode");
    assert_eq!(recovered, empty);
}
