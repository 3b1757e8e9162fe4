use ssz_rs::de::DeserializeError;
use ssz_rs::list::List;
use ssz_rs::ser::SerializeError;
use ssz_rs::serialize;
use ssz_rs::ssz::SimpleSerialize;
use ssz_rs::vector::Vector;

const COUNT: usize = 32;

#[test]
fn encode_vector() {
    let mut value: Vector<u16, COUNT> = Vector::default();
    for i in 0..COUNT {
        value.set(i, 33u16);
    }
    value.set(0, 34u16);
    assert_eq!(*value.get(0), 34u16);
    value.set(0, 33u16);
    let encoding = serialize(&value).expect("can encode");
    let expected = [
        33u8, 0u8, 33u8, 0u8, 33u8, 0u8, 33u8, 0u8, 33u8, 0u8, 33u8, 0u8, 33u8, 0u8, 33u8, 0u8,
        33u8, 0u8, 33u8, 0u8, 33u8, 0u8, 33u8, 0u8, 33u8, 0u8, 33u8, 0u8, 33u8, 0u8, 33u8, 0u8,
        33u8, 0u8, 33u8, 0u8, 33u8, 0u8, 33u8, 0u8, 33u8, 0u8, 33u8, 0u8, 33u8, 0u8, 33u8, 0u8,
        33u8, 0u8, 33u8, 0u8, 33u8, 0u8, 33u8, 0u8, 33u8, 0u8, 33u8, 0u8, 33u8, 0u8, 33u8, 0u8,
    ];
    assert_eq!(encoding, expected);
}

#[test]
fn decode_vector() {
    let bytes = vec![
        0u8, 1u8, 2u8, 3u8, 4u8, 5u8, 6u8, 7u8, 0u8, 1u8, 2u8, 3u8, 4u8, 5u8, 6u8, 7u8, 0u8,
        1u8, 2u8, 3u8, 4u8, 5u8, 6u8, 7u8, 0u8, 1u8, 2u8, 3u8, 4u8, 5u8, 6u8, 7u8,
    ];
    let result = Vector::<u8, COUNT>::deserialize(&bytes).expect("can deserialize");
    let expected: Vector<u8, COUNT> = Vector::try_from_elements(bytes).expect("test data");
    assert_eq!(result, expected);
}

#[test]
fn decode_variable_vector() {
    const COUNT: usize = 4;
    let inner: Vec<List<u8, 1>> = vec![
        List::try_from_elements(vec![0u8]).expect("test data correct"),
        List::try_from_elements(vec![1u8]).expect("test data correct"),
        List::try_from_elements(vec![2u8]).expect("test data correct"),
        List::try_from_elements(vec![]).expect("test data correct"),
    ];
    let input: Vector<List<u8, 1>, COUNT> =
        Vector::try_from_elements(inner).expect("test data correct");
    let mut buffer = vec![];
    let _ = input.serialize(&mut buffer).expect("can serialize");
    let expected = vec![16, 0, 0, 0, 17, 0, 0, 0, 18, 0, 0, 0, 19, 0, 0, 0, 0, 1, 2];
    assert_eq!(buffer, expected);
}

#[test]
fn roundtrip_vector() {
    let bytes = vec![
        0u8, 1u8, 2u8, 3u8, 4u8, 5u8, 6u8, 7u8, 0u8, 1u8, 2u8, 3u8, 4u8, 5u8, 6u8, 7u8, 0u8,
        1u8, 2u8, 3u8, 4u8, 5u8, 6u8, 7u8, 0u8, 1u8, 2u8, 3u8, 4u8, 5u8, 6u8, 7u8,
    ];
    let input: Vector<u8, COUNT> = Vector::try_from_elements(bytes).expect("test data");
    let mut buffer = vec![];
    let _ = input.serialize(&mut buffer).expect("can serialize");
    let recovered = Vector::<u8, COUNT>::deserialize(&buffer).expect("can decode");
    assert_eq!(input, recovered);
}

#[test]
fn roundtrip_variable_vector() {
    const COUNT: usize = 4;
    let inner: Vec<List<u8, 1>> = vec![
        List::try_from_elements(vec![0u8]).expect("test data correct"),
        List::try_from_elements(vec![1u8]).expect("test data correct"),
        List::try_from_elements(vec![2u8]).expect("test data correct"),
        List::try_from_elements(vec![]).expect("test data correct"),
    ];
    let input: Vector<List<u8, 1>, COUNT> =
        Vector::try_from_elements(inner).expect("test data correct");
    let mut buffer = vec![];
    let _ = input.serialize(&mut buffer).expect("can serialize");
    let recovered = Vector::<List<u8, 1>, COUNT>::deserialize(&buffer).expect("can decode");
    assert_eq!(input, recovered);
}

#[test]
fn zero_capacity_vector_is_rejected() {
    let value: Vector<u8, 0> = Vector::default();
    let mut buffer = vec![];
    assert_eq!(
        value.serialize(&mut buffer),
        Err(SerializeError::IllegalType { bound: 0 })
    );
    assert!(buffer.is_empty());
    assert_eq!(
        Vector::<u8, 0>::deserialize(&[]),
        Err(DeserializeError::IllegalType { bound: 0 })
    );
    assert_eq!(
        Vector::<u8, 0>::deserialize(&[1u8, 2u8]),
        Err(DeserializeError::IllegalType { bound: 0 })
    );
}

#[test]
fn fixed_vector_length_mismatches_are_rejected() {
    assert_eq!(
        Vector::<u8, 4>::deserialize(&[1u8, 2u8, 3u8]),
        Err(DeserializeError::InputTooShort)
    );
    assert_eq!(
        Vector::<u8, 4>::deserialize(&[1u8, 2u8, 3u8, 4u8, 5u8]),
        Err(DeserializeError::ExtraInput)
    );
    assert_eq!(
        Vector::<u8, 4>::try_from_elements(vec![1u8, 2u8, 3u8]),
        Err(SerializeError::IllegalType { bound: 4 })
    );
}
