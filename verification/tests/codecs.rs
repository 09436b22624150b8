use rust_common_lib::collections::delta_set::DeltaSet;
use rust_common_lib::crdt::codecs::internal::batch::{self, InternalEncode};
use rust_common_lib::crdt::codecs::internal::{
    bytes, delta_op, int64, path_delta, tracked_value, u256, u64_set, uint64,
};
use rust_common_lib::crdt::state::{DeltaOp, TrackedValue, Value};
use rust_common_lib::crdt::types::word::Word256;
use rust_common_lib::crdt::types::{Bytes, I64, PathDelta, U256, U64, U64Set};

fn set_delta(added: Vec<u64>, removed: Vec<u64>) -> Vec<DeltaOp<u64>> {
    added
        .into_iter()
        .map(DeltaOp::Add)
        .chain(removed.into_iter().map(DeltaOp::Sub))
        .collect()
}

fn w(value: u64) -> Word256 {
    Word256::from_u64(value)
}

fn shifted_one(bits: usize) -> Word256 {
    let mut limbs = [0u64; 4];
    limbs[bits / 64] = 1u64 << (bits % 64);
    Word256 { limbs }
}

fn word_le_bytes(value: Word256) -> Vec<u8> {
    value.limbs.iter().flat_map(|limb| limb.to_le_bytes()).collect()
}

fn record(value: Value) -> TrackedValue {
    TrackedValue {
        id: 0,
        value,
        reads: 1,
        checks: 2,
        writes: 3,
        deltas: 4,
        creates: 5,
        is_new: true,
        tombstone: false,
    }
}

fn assert_same(actual: &TrackedValue, expected: &TrackedValue) {
    assert!(actual.value == expected.value);
    assert_eq!(actual.reads, expected.reads);
    assert_eq!(actual.checks, expected.checks);
    assert_eq!(actual.writes, expected.writes);
    assert_eq!(actual.deltas, expected.deltas);
    assert_eq!(actual.creates, expected.creates);
    assert_eq!(actual.is_new, expected.is_new);
    assert_eq!(actual.tombstone, expected.tombstone);
}

#[test]
fn every_internal_type_round_trips() {
    let bytes_value = Bytes {
        delta: Some(vec![1, 2, 3]),
    };
    let encoded = bytes::encode(&bytes_value).unwrap();
    assert_eq!(
        encoded.len() as u64,
        bytes::encoded_size(&bytes_value).unwrap()
    );
    assert!(bytes::decode(&encoded).unwrap() == bytes_value);

    let int64_value = I64 {
        value: -100,
        delta: 25,
        limits: (-1_000, 1_000),
    };
    let encoded = int64::encode(&int64_value).unwrap();
    assert_eq!(
        encoded.len() as u64,
        int64::encoded_size(&int64_value).unwrap()
    );
    assert!(int64::decode(&encoded).unwrap() == int64_value);

    let uint64_value = U64 {
        value: 100,
        delta: Some(DeltaOp::Add(25)),
        limits: (0, 1_000),
    };
    let encoded = uint64::encode(&uint64_value).unwrap();
    assert_eq!(
        encoded.len() as u64,
        uint64::encoded_size(&uint64_value).unwrap()
    );
    assert!(uint64::decode(&encoded).unwrap() == uint64_value);

    let u256_value = U256 {
        value: shifted_one(200),
        delta: Some(DeltaOp::Add(w(25))),
        limits: (Word256::zero(), Word256::max()),
    };
    let encoded = u256::encode(&u256_value).unwrap();
    assert_eq!(
        encoded.len() as u64,
        u256::encoded_size(&u256_value).unwrap()
    );
    assert!(u256::decode(&encoded).unwrap() == u256_value);

    let delta = set_delta(vec![40, 50], vec![10]);
    let encoded = delta_op::encode(&delta).unwrap();
    assert_eq!(
        encoded.len() as u64,
        delta_op::encoded_size(&delta).unwrap()
    );
    assert!(delta_op::decode(&encoded).unwrap() == delta);

    let mut entries = DeltaSet::try_from_elements(vec![10, 20, 30]).unwrap();
    entries.remove(&20);
    entries.commit();
    let path = U64Set {
        entries,
        delta: Some(delta),
    };
    let encoded = u64_set::encode(&path).unwrap();
    assert_eq!(
        encoded.len() as u64,
        u64_set::encoded_size(&path).unwrap()
    );
    let decoded = u64_set::decode(&encoded).unwrap();
    assert!(decoded == path);
    assert_eq!(decoded.entries.get_at(1), None);
    assert_eq!(decoded.entries.get_at(2), Some(30));
}

#[test]
fn encode_to_rejects_short_buffers_without_writing() {
    let bytes_value = Bytes {
        delta: Some(vec![1, 2, 3]),
    };
    let mut output =
        vec![0xaa; usize::try_from(bytes::encoded_size(&bytes_value).unwrap()).unwrap() - 1];
    assert_eq!(
        bytes::encode_to(&bytes_value, &mut output),
        Err("output buffer too small")
    );
    assert!(output.iter().all(|byte| *byte == 0xaa));

    let int64_value = I64 {
        value: 10,
        delta: 2,
        limits: (0, 100),
    };
    let mut output =
        vec![0xaa; usize::try_from(int64::encoded_size(&int64_value).unwrap()).unwrap() - 1];
    assert_eq!(
        int64::encode_to(&int64_value, &mut output),
        Err("output buffer too small")
    );
    assert!(output.iter().all(|byte| *byte == 0xaa));

    let uint64_value = U64 {
        value: 10,
        delta: Some(DeltaOp::Add(2)),
        limits: (0, 100),
    };
    let mut output =
        vec![0xaa; usize::try_from(uint64::encoded_size(&uint64_value).unwrap()).unwrap() - 1];
    assert_eq!(
        uint64::encode_to(&uint64_value, &mut output),
        Err("output buffer too small")
    );
    assert!(output.iter().all(|byte| *byte == 0xaa));

    let u256_value = U256 {
        value: w(10),
        delta: Some(DeltaOp::Add(w(2))),
        limits: (Word256::zero(), w(100)),
    };
    let mut output =
        vec![0xaa; usize::try_from(u256::encoded_size(&u256_value).unwrap()).unwrap() - 1];
    assert_eq!(
        u256::encode_to(&u256_value, &mut output),
        Err("output buffer too small")
    );
    assert!(output.iter().all(|byte| *byte == 0xaa));

    let delta = set_delta(vec![1], vec![2]);
    let mut output =
        vec![0xaa; usize::try_from(delta_op::encoded_size(&delta).unwrap()).unwrap() - 1];
    assert_eq!(
        delta_op::encode_to(&delta, &mut output),
        Err("output buffer too small")
    );
    assert!(output.iter().all(|byte| *byte == 0xaa));

    let path = U64Set {
        entries: DeltaSet::try_from_slots(vec![Some(1), None, Some(2)]).unwrap(),
        delta: Some(delta),
    };
    let mut output =
        vec![0xaa; usize::try_from(u64_set::encoded_size(&path).unwrap()).unwrap() - 1];
    assert_eq!(
        u64_set::encode_to(&path, &mut output),
        Err("output buffer too small")
    );
    assert!(output.iter().all(|byte| *byte == 0xaa));

    let values: [&dyn InternalEncode; 2] = [&bytes_value, &uint64_value];
    let mut output =
        vec![0xaa; usize::try_from(batch::encoded_size(&values).unwrap()).unwrap() - 1];
    assert_eq!(
        batch::encode_to(&values, &mut output),
        Err("output buffer too small")
    );
    assert!(output.iter().all(|byte| *byte == 0xaa));
}

#[test]
fn malformed_input_is_rejected() {
    assert!(matches!(bytes::decode(&[2]), Err("invalid Bytes flags")));
    assert!(matches!(int64::decode(&[8]), Err("invalid I64 flags")));
    assert!(matches!(uint64::decode(&[8]), Err("invalid U64 flags")));
    assert!(matches!(u256::decode(&[8]), Err("invalid U256 flags")));

    let mut invalid_path = vec![0];
    invalid_path.extend_from_slice(&3_u64.to_le_bytes());
    invalid_path.push(0b1111_1101);
    assert!(matches!(
        u64_set::decode(&invalid_path),
        Err("invalid U64Set bitmap")
    ));

    let mut duplicate_path = vec![0];
    duplicate_path.extend_from_slice(&2_u64.to_le_bytes());
    duplicate_path.push(0b0000_0011);
    duplicate_path.extend_from_slice(&7_u64.to_le_bytes());
    duplicate_path.extend_from_slice(&7_u64.to_le_bytes());
    assert!(matches!(
        u64_set::decode(&duplicate_path),
        Err("duplicate or unindexable U64Set entry")
    ));

    assert!(delta_op::decode(&u64::MAX.to_le_bytes()).is_err());

    let valid = I64 {
        value: 1,
        delta: 0,
        limits: (i64::MIN, i64::MAX),
    };
    let mut trailing = int64::encode(&valid).unwrap();
    trailing.push(0);
    assert!(matches!(int64::decode(&trailing), Err("trailing bytes")));
}

#[test]
fn every_truncated_encoding_is_rejected() {
    let bytes_encoded = bytes::encode(&Bytes {
        delta: Some(vec![1, 2, 3]),
    })
    .unwrap();
    for end in 0..bytes_encoded.len() {
        assert!(bytes::decode(&bytes_encoded[..end]).is_err());
    }

    let int64_encoded = int64::encode(&I64 {
        value: -10,
        delta: 2,
        limits: (-100, 100),
    })
    .unwrap();
    for end in 0..int64_encoded.len() {
        assert!(int64::decode(&int64_encoded[..end]).is_err());
    }

    let uint64_encoded = uint64::encode(&U64 {
        value: 10,
        delta: Some(DeltaOp::Add(2)),
        limits: (0, 100),
    })
    .unwrap();
    for end in 0..uint64_encoded.len() {
        assert!(uint64::decode(&uint64_encoded[..end]).is_err());
    }

    let u256_encoded = u256::encode(&U256 {
        value: w(10),
        delta: Some(DeltaOp::Add(w(2))),
        limits: (Word256::zero(), w(100)),
    })
    .unwrap();
    for end in 0..u256_encoded.len() {
        assert!(u256::decode(&u256_encoded[..end]).is_err());
    }

    let delta_encoded = delta_op::encode(&set_delta(vec![1, 2], vec![3])).unwrap();
    for end in 0..delta_encoded.len() {
        assert!(delta_op::decode(&delta_encoded[..end]).is_err());
    }

    let path_encoded = u64_set::encode(&U64Set {
        entries: DeltaSet::try_from_slots(vec![Some(1), None, Some(2)]).unwrap(),
        delta: Some(set_delta(vec![3], vec![1])),
    })
    .unwrap();
    for end in 0..path_encoded.len() {
        assert!(u64_set::decode(&path_encoded[..end]).is_err());
    }
}

#[test]
fn primitive_encodings_match_golden_bytes() {
    let bytes_value = Bytes {
        delta: Some(vec![0xaa, 0xbb]),
    };
    let mut expected = vec![1];
    expected.extend_from_slice(&2_u64.to_le_bytes());
    expected.extend_from_slice(&[0xaa, 0xbb]);
    assert_eq!(bytes::encode(&bytes_value).unwrap(), expected);

    let int64_value = I64 {
        value: -2,
        delta: 0,
        limits: (i64::MIN, i64::MAX),
    };
    let mut expected = vec![7];
    expected.extend_from_slice(&(-2_i64).to_le_bytes());
    expected.extend_from_slice(&0_i64.to_le_bytes());
    expected.extend_from_slice(&i64::MIN.to_le_bytes());
    expected.extend_from_slice(&i64::MAX.to_le_bytes());
    assert_eq!(int64::encode(&int64_value).unwrap(), expected);

    let uint64_value = U64 {
        value: 1,
        delta: Some(DeltaOp::Add(2)),
        limits: (3, 4),
    };
    let mut expected = vec![7];
    expected.extend_from_slice(&1_u64.to_le_bytes());
    expected.extend_from_slice(&2_u64.to_le_bytes());
    expected.extend_from_slice(&3_u64.to_le_bytes());
    expected.extend_from_slice(&4_u64.to_le_bytes());
    assert_eq!(uint64::encode(&uint64_value).unwrap(), expected);

    let u256_value = U256 {
        value: w(1),
        delta: Some(DeltaOp::Add(Word256::zero())),
        limits: (Word256::zero(), Word256::max()),
    };
    let mut expected = vec![7];
    expected.extend_from_slice(&word_le_bytes(w(1)));
    expected.extend_from_slice(&word_le_bytes(Word256::zero()));
    expected.extend_from_slice(&word_le_bytes(Word256::zero()));
    expected.extend_from_slice(&word_le_bytes(Word256::max()));
    assert_eq!(u256::encode(&u256_value).unwrap(), expected);
}

#[test]
fn path_and_batch_encodings_match_golden_bytes() {
    let delta = set_delta(vec![1], vec![2]);
    let mut expected_delta = Vec::new();
    expected_delta.extend_from_slice(&1_u64.to_le_bytes());
    expected_delta.extend_from_slice(&1_u64.to_le_bytes());
    expected_delta.extend_from_slice(&1_u64.to_le_bytes());
    expected_delta.extend_from_slice(&2_u64.to_le_bytes());
    assert_eq!(delta_op::encode(&delta).unwrap(), expected_delta);

    let path = U64Set {
        entries: DeltaSet::try_from_slots(vec![Some(10), None, Some(30)]).unwrap(),
        delta: None,
    };
    let mut expected_path = vec![0];
    expected_path.extend_from_slice(&3_u64.to_le_bytes());
    expected_path.push(0b0000_0101);
    expected_path.extend_from_slice(&10_u64.to_le_bytes());
    expected_path.extend_from_slice(&30_u64.to_le_bytes());
    assert_eq!(u64_set::encode(&path).unwrap(), expected_path);

    let bytes_value = Bytes {
        delta: Some(vec![0xaa]),
    };
    let uint64_value = U64 {
        value: 7,
        delta: None,
        limits: (u64::MIN, u64::MAX),
    };
    let values: [&dyn InternalEncode; 2] = [&bytes_value, &uint64_value];

    let mut expected_batch = Vec::new();
    expected_batch.extend_from_slice(&2_u64.to_le_bytes());
    expected_batch.extend_from_slice(&0_u64.to_le_bytes());
    expected_batch.extend_from_slice(&10_u64.to_le_bytes());
    expected_batch.push(1);
    expected_batch.extend_from_slice(&1_u64.to_le_bytes());
    expected_batch.push(0xaa);
    expected_batch.push(7);
    expected_batch.extend_from_slice(&7_u64.to_le_bytes());
    expected_batch.extend_from_slice(&0_u64.to_le_bytes());
    expected_batch.extend_from_slice(&u64::MIN.to_le_bytes());
    expected_batch.extend_from_slice(&u64::MAX.to_le_bytes());
    assert_eq!(batch::encode(&values).unwrap(), expected_batch);
}

#[test]
fn large_batch_uses_non_overlapping_parallel_sections() {
    let stored: Vec<U64> = (0..2_048)
        .map(|_| U64 {
            value: 7,
            delta: None,
            limits: (u64::MIN, u64::MAX),
        })
        .collect();
    let values = stored
        .iter()
        .map(|value| value as &dyn InternalEncode)
        .collect::<Vec<_>>();
    let encoded = batch::encode(&values).unwrap();

    let header_size = (values.len() + 1) * 8;
    assert_eq!(
        u64::from_le_bytes(encoded[..8].try_into().unwrap()),
        values.len() as u64
    );
    assert_eq!(u64::from_le_bytes(encoded[8..16].try_into().unwrap()), 0);
    let last_offset_start = values.len() * 8;
    assert_eq!(
        u64::from_le_bytes(
            encoded[last_offset_start..last_offset_start + 8]
                .try_into()
                .unwrap()
        ),
        ((values.len() - 1) * 33) as u64
    );
    assert!(uint64::decode(&encoded[header_size..header_size + 33]).unwrap() == stored[0]);
    assert!(uint64::decode(&encoded[encoded.len() - 33..]).unwrap() == stored[stored.len() - 1]);
}

#[test]
fn large_and_small_batches_encode_alike() {
    let stored: Vec<I64> = (0..2_100)
        .map(|i| I64 {
            value: i,
            delta: -i,
            limits: (i64::MIN, i64::MAX),
        })
        .collect();
    let values = stored
        .iter()
        .map(|value| value as &dyn InternalEncode)
        .collect::<Vec<_>>();
    let whole = batch::encode(&values).unwrap();
    assert_eq!(whole.len() as u64, batch::encoded_size(&values).unwrap());
    let payload_start = (values.len() + 1) * 8;
    for (i, value) in stored.iter().enumerate() {
        let start = payload_start + i * 33;
        assert_eq!(&whole[start..start + 33], &int64::encode(value).unwrap()[..]);
    }

    let mut padded = vec![0xcc; whole.len() + 4];
    assert_eq!(batch::encode_to(&values, &mut padded), Ok(whole.len() as u64));
    assert_eq!(&padded[..whole.len()], &whole[..]);
    assert!(padded[whole.len()..].iter().all(|byte| *byte == 0xcc));
}

#[test]
fn batch_reports_the_first_failing_value() {
    let dead = TrackedValue {
        id: 0,
        value: Value::Absent,
        reads: 0,
        checks: 0,
        writes: 0,
        deltas: 0,
        creates: 0,
        is_new: false,
        tombstone: true,
    };
    let ok = I64::default();
    let values: [&dyn InternalEncode; 2] = [&ok, &dead];
    assert_eq!(
        batch::encoded_size(&values),
        Err("tombstone must retain a value")
    );
    let mut output = vec![0u8; 256];
    assert_eq!(
        batch::encode_to(&values, &mut output),
        Err("tombstone must retain a value")
    );
    assert!(output.iter().all(|byte| *byte == 0));
    assert_eq!(batch::encode(&values), Err("tombstone must retain a value"));

    let empty: [&dyn InternalEncode; 0] = [];
    assert_eq!(batch::encode(&empty).unwrap(), 0_u64.to_le_bytes().to_vec());
}

#[test]
fn path_delta_round_trips() {
    let delta = PathDelta {
        added: vec![5, 6],
        removed: vec![7],
    };
    let encoded = path_delta::encode(&delta).unwrap();
    assert_eq!(encoded.len() as u64, path_delta::encoded_size(&delta).unwrap());
    assert!(path_delta::decode(&encoded).unwrap() == delta);
    let mut short = vec![0xaa; encoded.len() - 1];
    assert_eq!(
        path_delta::encode_to(&delta, &mut short),
        Err("output buffer too small")
    );
    assert!(short.iter().all(|byte| *byte == 0xaa));
}

#[test]
fn every_value_type_round_trips() {
    let values = vec![
        Value::Absent,
        Bytes::new(vec![1, 2, 3]).unwrap().into(),
        I64::new(-10, 10).unwrap().into(),
        U64::new(0, 100).unwrap().into(),
        U256::new(Word256::zero(), w(100)).unwrap().into(),
        U64Set::new().unwrap().into(),
    ];

    for value in values {
        let expected = record(value);
        let encoded = tracked_value::encode(&expected).unwrap();
        assert_eq!(
            encoded.len() as u64,
            tracked_value::encoded_size(&expected).unwrap()
        );
        assert_same(&tracked_value::decode(&encoded).unwrap(), &expected);
    }
}

#[test]
fn tombstone_round_trips_with_retained_value() {
    let mut expected = record(U64::new(0, 100).unwrap().into());
    expected.tombstone = true;

    assert_same(
        &tracked_value::decode(&tracked_value::encode(&expected).unwrap()).unwrap(),
        &expected,
    );
}

#[test]
fn malformed_and_truncated_encodings_are_rejected() {
    let expected = record(Bytes::new(vec![1, 2, 3]).unwrap().into());
    let encoded = tracked_value::encode(&expected).unwrap();
    for end in 0..encoded.len() {
        assert!(tracked_value::decode(&encoded[..end]).is_err());
    }

    let mut invalid_tag = encoded.clone();
    invalid_tag[0] = u8::MAX;
    assert_eq!(
        tracked_value::decode(&invalid_tag).err(),
        Some("invalid Tracked value tag")
    );

    let mut invalid_flags = encoded;
    invalid_flags[1] = 4;
    assert_eq!(
        tracked_value::decode(&invalid_flags).err(),
        Some("invalid Tracked flags")
    );
}

#[test]
fn short_buffer_is_rejected_without_writing() {
    let value = record(Bytes::new(vec![1, 2, 3]).unwrap().into());
    let mut output = vec![0xaa; tracked_value::encoded_size(&value).unwrap() as usize - 1];

    assert_eq!(
        tracked_value::encode_to(&value, &mut output),
        Err("output buffer too small")
    );
    assert!(output.iter().all(|byte| *byte == 0xaa));
}

#[test]
fn deleted_value_without_a_retained_value_is_refused() {
    let mut value = record(Value::Absent);
    value.tombstone = true;
    assert_eq!(
        tracked_value::encoded_size(&value),
        Err("tombstone must retain a value")
    );
    assert_eq!(
        tracked_value::encode(&value).err(),
        Some("tombstone must retain a value")
    );
}

#[test]
fn uint64_without_pending_delta_keeps_a_zero_delta_word() {
    let value = U64 {
        value: 9,
        delta: None,
        limits: (1, 20),
    };
    assert_eq!(uint64::encoded_size(&value), Ok(33));
    let mut expected = vec![7];
    expected.extend_from_slice(&9_u64.to_le_bytes());
    expected.extend_from_slice(&0_u64.to_le_bytes());
    expected.extend_from_slice(&1_u64.to_le_bytes());
    expected.extend_from_slice(&20_u64.to_le_bytes());
    let encoded = uint64::encode(&value).unwrap();
    assert_eq!(encoded, expected);
    let decoded = uint64::decode(&encoded).unwrap();
    assert_eq!(decoded.delta, None);
    assert_eq!(decoded.value, 9);
    assert_eq!(decoded.limits, (1, 20));
}
