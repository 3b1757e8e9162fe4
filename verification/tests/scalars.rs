use ssz_rs::de::DeserializeError;
use ssz_rs::serialize;
use ssz_rs::ssz::SimpleSerialize;
use ssz_rs::uint::U256;

#[test]
fn encode_ruints() {
    let tests = vec![(u8::default(), [0u8]), (2u8, [2u8]), (u8::MAX, [u8::MAX])];
    for (value, expected) in tests {
        let result = serialize(&value).expect("can encode");
        assert_eq!(result, expected);
    }
    let tests = vec![(2u16, [2u8, 0u8]), (1337u16, [57u8, 5u8]), (u16::MAX, [u8::MAX, u8::MAX])];
    for (value, expected) in tests {
        let result = serialize(&value).expect("can encode");
        assert_eq!(result, expected);
    }
    let tests = vec![
        (2u32, [2u8, 0u8, 0u8, 0u8]),
        (1337u32, [57u8, 5u8, 0u8, 0u8]),
        (u32::MAX, [u8::MAX, u8::MAX, u8::MAX, u8::MAX]),
    ];
    for (value, expected) in tests {
        let result = serialize(&value).expect("can encode");
        assert_eq!(result, expected);
    }
    let tests = vec![
        (2u64, [2u8, 0u8, 0u8, 0u8, 0u8, 0u8, 0u8, 0u8]),
        (1337u64, [57u8, 5u8, 0u8, 0u8, 0u8, 0u8, 0u8, 0u8]),
        (u64::MAX, [u8::MAX; 8]),
    ];
    for (value, expected) in tests {
        let result = serialize(&value).expect("can encode");
        assert_eq!(result, expected);
    }
    let tests = vec![
        (
            2u128,
            [2u8, 0u8, 0u8, 0u8, 0u8, 0u8, 0u8, 0u8, 0u8, 0u8, 0u8, 0u8, 0u8, 0u8, 0u8, 0u8],
        ),
        (
            1337u128,
            [57u8, 5u8, 0u8, 0u8, 0u8, 0u8, 0u8, 0u8, 0u8, 0u8, 0u8, 0u8, 0u8, 0u8, 0u8, 0u8],
        ),
        (u128::MAX, [u8::MAX; 16]),
    ];
    for (value, expected) in tests {
        let result = serialize(&value).expect("can encode");
        assert_eq!(result, expected);
    }
    let tests = vec![
        (U256::from_le_bytes([2u8; 32]), [2u8; 32]),
        (U256::from_le_bytes([u8::MAX; 32]), [u8::MAX; 32]),
    ];
    for (value, expected) in tests {
        let result = serialize(&value).expect("can encode");
        assert_eq!(result, expected);
    }
}

#[test]
fn decode_ruints() {
    let tests = vec![(u8::default(), [0u8]), (2u8, [2u8]), (u8::MAX, [u8::MAX])];
    for (expected, bytes) in tests {
        let result = u8::deserialize(&bytes).expect("can encode");
        assert_eq!(result, expected);
    }
    let tests = vec![(2u16, [2u8, 0u8]), (1337u16, [57u8, 5u8]), (u16::MAX, [u8::MAX, u8::MAX])];
    for (expected, bytes) in tests {
        let result = u16::deserialize(&bytes).expect("can encode");
        assert_eq!(result, expected);
    }
    let tests = vec![
        (2u32, [2u8, 0u8, 0u8, 0u8]),
        (1337u32, [57u8, 5u8, 0u8, 0u8]),
        (u32::MAX, [u8::MAX, u8::MAX, u8::MAX, u8::MAX]),
    ];
    for (expected, bytes) in tests {
        let result = u32::deserialize(&bytes).expect("can encode");
        assert_eq!(result, expected);
    }
    let tests = vec![
        (2u64, [2u8, 0u8, 0u8, 0u8, 0u8, 0u8, 0u8, 0u8]),
        (1337u64, [57u8, 5u8, 0u8, 0u8, 0u8, 0u8, 0u8, 0u8]),
        (u64::MAX, [u8::MAX; 8]),
    ];
    for (expected, bytes) in tests {
        let result = u64::deserialize(&bytes).expect("can encode");
        assert_eq!(result, expected);
    }
    let tests = vec![
        (
            2u128,
            [2u8, 0u8, 0u8, 0u8, 0u8, 0u8, 0u8, 0u8, 0u8, 0u8, 0u8, 0u8, 0u8, 0u8, 0u8, 0u8],
        ),
        (
            1337u128,
            [57u8, 5u8, 0u8, 0u8, 0u8, 0u8, 0u8, 0u8, 0u8, 0u8, 0u8, 0u8, 0u8, 0u8, 0u8, 0u8],
        ),
        (u128::MAX, [u8::MAX; 16]),
    ];
    for (expected, bytes) in tests {
        let result = u128::deserialize(&bytes).expect("can encode");
        assert_eq!(result, expected);
    }
    let tests = vec![
        (U256::from_le_bytes([2u8; 32]), [2u8; 32]),
        (U256::from_le_bytes([u8::MAX; 32]), [u8::MAX; 32]),
    ];
    for (expected, bytes) in tests {
        let result = U256::deserialize(&bytes).expect("can encode");
        assert_eq!(result, expected);
    }
}

#[test]
fn scalar_wrong_lengths_are_rejected() {
    assert_eq!(
        u16::deserialize(&[1u8]),
        Err(DeserializeError::ExpectedFurtherInput { provided: 1, expected: 2 })
    );
    assert_eq!(
        u16::deserialize(&[1u8, 2u8, 3u8]),
        Err(DeserializeError::AdditionalInput { provided: 3, expected: 2 })
    );
    assert_eq!(
        u32::deserialize(&[]),
        Err(DeserializeError::ExpectedFurtherInput { provided: 0, expected: 4 })
    );
    assert_eq!(
        U256::deserialize(&[0u8; 31]),
        Err(DeserializeError::ExpectedFurtherInput { provided: 31, expected: 32 })
    );
    assert_eq!(
        U256::deserialize(&[0u8; 33]),
        Err(DeserializeError::AdditionalInput { provided: 33, expected: 32 })
    );
}

#[test]
fn u256_round_trips_through_bytes() {
    let mut raw = [0u8; 32];
    for (i, slot) in raw.iter_mut().enumerate() {
        *slot = i as u8;
    }
    let value = U256::from_le_bytes(raw);
    assert_eq!(value.to_le_bytes_vec(), raw.to_vec());
    let encoding = serialize(&value).expect("can encode");
    assert_eq!(encoding, raw);
    let recovered = U256::deserialize(&encoding).expect("can decode");
    assert_eq!(recovered, value);
}
