use ssz_rs::de::{ContainerDeserializer, DeserializeError};
use ssz_rs::list::List;
use ssz_rs::ser::Serializer;
use ssz_rs::ssz::SimpleSerialize;

// the shape of a two-field container: a fixed-size scalar, then a
// variable-size collection behind one offset slot
fn encode_pair(a: u8, b: &List<u8, 4>) -> Vec<u8> {
    let mut serializer = Serializer::default();
    serializer.with_element(&a).expect("can add");
    serializer.with_element(b).expect("can add");
    let mut buffer = vec![];
    let _ = serializer.serialize(&mut buffer).expect("can encode");
    buffer
}

#[test]
fn container_fields_lay_out_behind_the_offset_table() {
    let b: List<u8, 4> = List::try_from_elements(vec![1u8, 2u8, 3u8]).expect("test data");
    let encoding = encode_pair(7u8, &b);
    // fixed region: the scalar byte, then a 4-byte offset pointing past it
    assert_eq!(encoding, vec![7u8, 5u8, 0u8, 0u8, 0u8, 1u8, 2u8, 3u8]);
}

#[test]
fn container_spans_recover_each_field() {
    let b: List<u8, 4> = List::try_from_elements(vec![1u8, 2u8, 3u8]).expect("test data");
    let encoding = encode_pair(7u8, &b);
    let mut deserializer = ContainerDeserializer::default();
    deserializer.parse::<u8>(&encoding).expect("can declare");
    deserializer.parse::<List<u8, 4>>(&encoding).expect("can declare");
    let spans = deserializer.finalize(&encoding).expect("can recover spans");
    assert_eq!(spans, vec![0usize, 1, 5, 8]);
    let a = u8::deserialize(&encoding[spans[0]..spans[1]]).expect("can decode");
    assert_eq!(a, 7u8);
    let recovered = List::<u8, 4>::deserialize(&encoding[spans[2]..spans[3]])
        .expect("can decode");
    assert_eq!(recovered, b);
}

#[test]
fn container_validation_failures() {
    // fewer bytes than the fixed prefix declares
    let short = vec![7u8, 5u8];
    let mut deserializer = ContainerDeserializer::default();
    deserializer.parse::<u8>(&short).expect("fits so far");
    assert_eq!(
        deserializer.parse::<List<u8, 4>>(&short),
        Err(DeserializeError::ExpectedFurtherInput { provided: 2, expected: 5 })
    );
    // an offset landing inside the fixed prefix
    let bad = vec![7u8, 3u8, 0u8, 0u8, 0u8, 9u8];
    let mut deserializer = ContainerDeserializer::default();
    deserializer.parse::<u8>(&bad).expect("can declare");
    deserializer.parse::<List<u8, 4>>(&bad).expect("can declare");
    assert_eq!(
        deserializer.finalize(&bad),
        Err(DeserializeError::InvalidOffset { offset: 3 })
    );
    // trailing bytes after a fully fixed-size layout
    let extra = vec![7u8, 8u8];
    let mut deserializer = ContainerDeserializer::default();
    deserializer.parse::<u8>(&extra).expect("can declare");
    assert_eq!(
        deserializer.finalize(&extra),
        Err(DeserializeError::AdditionalInput { provided: 2, expected: 1 })
    );
}
