use rust_common_lib::collections::delta_set::DeltaSet;
use rust_common_lib::crdt::codecs::rlp::{bytes, int64, path_meta, u256, u64_set, uint64, StorageError};
use rust_common_lib::crdt::state::DeltaOp;
use rust_common_lib::crdt::types::word::Word256;
use rust_common_lib::crdt::types::{Bytes, PathDelta, PathMeta, I64, U256, U64, U64Set};

fn shifted_one(bits: usize) -> Word256 {
    let mut limbs = [0u64; 4];
    limbs[bits / 64] = 1u64 << (bits % 64);
    Word256 { limbs }
}

#[test]
fn i64_storage_round_trip_ignores_delta() {
    let dirty = I64 {
        value: -100,
        delta: 25,
        limits: (-1_000, 1_000),
    };

    let clean = I64 {
        value: dirty.value,
        delta: 0,
        limits: dirty.limits,
    };

    let mut dirty_bytes = Vec::new();
    int64::encode(&dirty, &mut dirty_bytes);
    let mut clean_bytes = Vec::new();
    int64::encode(&clean, &mut clean_bytes);
    assert_eq!(dirty_bytes, clean_bytes);
    let (decoded, rest) = int64::decode(&dirty_bytes).unwrap();

    assert!(rest.is_empty());
    assert!(decoded == clean);
    assert_eq!(int64::length(&dirty), dirty_bytes.len());
}

#[test]
fn u256_storage_round_trip_ignores_delta() {
    let dirty = U256 {
        value: shifted_one(200),
        delta: Some(DeltaOp::Add(Word256::from_u64(25))),
        limits: (Word256::zero(), Word256::max()),
    };
    let clean = U256 {
        value: dirty.value,
        delta: None,
        limits: dirty.limits,
    };

    let mut dirty_bytes = Vec::new();
    u256::encode(&dirty, &mut dirty_bytes);
    let mut clean_bytes = Vec::new();
    u256::encode(&clean, &mut clean_bytes);
    assert_eq!(dirty_bytes, clean_bytes);
    let (decoded, rest) = u256::decode(&dirty_bytes).unwrap();

    assert!(rest.is_empty());
    assert!(decoded == clean);
    assert_eq!(u256::length(&dirty), dirty_bytes.len());
}

#[test]
fn u64_set_path_meta_storage_round_trip_ignores_delta() {
    let dirty = U64Set {
        entries: DeltaSet::try_from_elements(vec![10, 20, 30]).unwrap(),
        delta: Some(vec![DeltaOp::Add(40), DeltaOp::Sub(10)]),
    };

    let clean = U64Set {
        entries: dirty.entries.clone(),
        delta: None,
    };

    let mut dirty_bytes = Vec::new();
    u64_set::encode(&dirty, &mut dirty_bytes);
    let mut clean_bytes = Vec::new();
    u64_set::encode(&clean, &mut clean_bytes);
    assert_eq!(dirty_bytes, clean_bytes);
    let (decoded, rest) = u64_set::decode(&dirty_bytes).unwrap();

    assert!(rest.is_empty());
    assert!(decoded == clean);
    assert_eq!(u64_set::length(&dirty), dirty_bytes.len());
}

#[test]
fn path_meta_path_meta_storage_round_trip_ignores_delta() {
    let dirty = PathMeta {
        entries: DeltaSet::try_from_elements(vec![10, 20, 30]).unwrap(),
        delta: Some(PathDelta {
            added: vec![40],
            removed: vec![10],
        }),
    };

    let clean = PathMeta {
        entries: dirty.entries.clone(),
        delta: None,
    };

    let mut dirty_bytes = Vec::new();
    path_meta::encode(&dirty, &mut dirty_bytes);
    let mut clean_bytes = Vec::new();
    path_meta::encode(&clean, &mut clean_bytes);
    assert_eq!(dirty_bytes, clean_bytes);
    let (decoded, rest) = path_meta::decode(&dirty_bytes).unwrap();

    assert!(rest.is_empty());
    assert!(decoded == clean);
    assert_eq!(path_meta::length(&dirty), dirty_bytes.len());
}

#[test]
fn i64_storage_matches_golden_bytes() {
    let value = I64 {
        value: -100,
        delta: 7,
        limits: (-1_000, 1_000),
    };
    let mut bytes = Vec::new();
    int64::encode(&value, &mut bytes);
    assert_eq!(
        bytes,
        vec![0xca, 0x01, 0x81, 0xc7, 0x01, 0x82, 0x07, 0xcf, 0x82, 0x07, 0xd0]
    );

    let extremes = I64 {
        value: i64::MIN,
        delta: 0,
        limits: (i64::MIN, i64::MAX),
    };
    let mut bytes = Vec::new();
    int64::encode(&extremes, &mut bytes);
    let (decoded, _) = int64::decode(&bytes).unwrap();
    assert!(decoded == extremes);
}

#[test]
fn storage_decoding_keeps_the_rest_and_rejects_bad_items() {
    let value = I64 {
        value: 3,
        delta: 0,
        limits: (0, 9),
    };
    let mut bytes = Vec::new();
    int64::encode(&value, &mut bytes);
    bytes.extend_from_slice(&[0xaa, 0xbb]);
    let (decoded, rest) = int64::decode(&bytes).unwrap();
    assert!(decoded == value);
    assert_eq!(rest, &[0xaa, 0xbb][..]);

    // A value flag of 2 is well-formed RLP but not a valid counter.
    assert_eq!(
        int64::decode(&[0xc5, 0x02, 0x01, 0x01, 0x01, 0x01]).err(),
        Some(StorageError::Invalid("invalid I64 encoding"))
    );
    // Without flags the defaults are taken.
    let (defaults, _) = int64::decode(&[0xc5, 0x80, 0x80, 0x80, 0x80, 0x80]).unwrap();
    assert!(
        defaults
            == I64 {
                value: 0,
                delta: 0,
                limits: (i64::MIN, i64::MAX),
            }
    );
    assert!(matches!(int64::decode(&[0x80]), Err(StorageError::Rlp(_))));
    assert!(matches!(u256::decode(&[]), Err(StorageError::Rlp(_))));

    let duplicate = [0xc2, 0x07, 0x07];
    assert_eq!(
        u64_set::decode(&duplicate).err(),
        Some(StorageError::Invalid("duplicate U64Set entry"))
    );
    assert_eq!(
        path_meta::decode(&duplicate).err(),
        Some(StorageError::Invalid("duplicate PathMeta entry"))
    );
}

#[test]
fn stored_set_drops_empty_slots() {
    let set = U64Set {
        entries: DeltaSet::try_from_slots(vec![Some(5), None, Some(300)]).unwrap(),
        delta: None,
    };
    let mut bytes = Vec::new();
    u64_set::encode(&set, &mut bytes);
    assert_eq!(bytes, vec![0xc4, 0x05, 0x82, 0x01, 0x2c]);
    let (decoded, _) = u64_set::decode(&bytes).unwrap();
    assert_eq!(decoded.entries.slots(), &[Some(5), Some(300)][..]);

    let many: Vec<u64> = (1..=100).collect();
    let big = U64Set {
        entries: DeltaSet::try_from_elements(many.clone()).unwrap(),
        delta: None,
    };
    let mut bytes = Vec::new();
    u64_set::encode(&big, &mut bytes);
    assert_eq!(bytes[0], 0xf8);
    assert_eq!(u64_set::length(&big), bytes.len());
    let (decoded, _) = u64_set::decode(&bytes).unwrap();
    assert_eq!(decoded.entries.iter_live(), many);
}

#[test]
fn bytes_storage_round_trip() {
    let value = Bytes {
        delta: Some(vec![1, 2, 3]),
    };

    let mut encoded = Vec::new();
    bytes::encode(&value, &mut encoded);
    let (decoded, rest) = bytes::decode(&encoded).unwrap();

    assert!(rest.is_empty());
    assert!(decoded == value);
    assert_eq!(bytes::length(&value), encoded.len());
}

#[test]
fn u64_storage_round_trip_ignores_delta() {
    let dirty = U64 {
        value: 100,
        delta: Some(DeltaOp::Add(25)),
        limits: (0, 1_000),
    };
    let clean = U64 {
        value: dirty.value,
        delta: None,
        limits: dirty.limits,
    };

    let mut dirty_bytes = Vec::new();
    uint64::encode(&dirty, &mut dirty_bytes);
    let mut clean_bytes = Vec::new();
    uint64::encode(&clean, &mut clean_bytes);
    assert_eq!(dirty_bytes, clean_bytes);
    let (decoded, rest) = uint64::decode(&dirty_bytes).unwrap();

    assert!(rest.is_empty());
    assert!(decoded == clean);
    assert_eq!(uint64::length(&dirty), dirty_bytes.len());
}

#[test]
fn bytes_storage_matches_golden_bytes() {
    let mut encoded = Vec::new();
    bytes::encode(&Bytes { delta: Some(vec![1, 2, 3]) }, &mut encoded);
    assert_eq!(encoded, vec![0xc5, 0x01, 0x83, 0x01, 0x02, 0x03]);

    let mut single = Vec::new();
    bytes::encode(&Bytes { delta: Some(vec![0x7f]) }, &mut single);
    assert_eq!(single, vec![0xc2, 0x01, 0x7f]);

    let mut absent = Vec::new();
    bytes::encode(&Bytes { delta: None }, &mut absent);
    assert_eq!(absent, vec![0xc2, 0x80, 0x80]);
    let (decoded, _) = bytes::decode(&absent).unwrap();
    assert_eq!(decoded.delta, None);

    let long = Bytes {
        delta: Some(vec![0xab; 60]),
    };
    let mut encoded = Vec::new();
    bytes::encode(&long, &mut encoded);
    assert_eq!(&encoded[..4], &[0xf8, 0x3f, 0x01, 0xb8][..]);
    assert_eq!(bytes::length(&long), encoded.len());
    let (decoded, _) = bytes::decode(&encoded).unwrap();
    assert!(decoded == long);

    assert_eq!(
        bytes::decode(&[0xc2, 0x02, 0x80]).err(),
        Some(StorageError::Invalid("invalid Bytes encoding"))
    );
    assert!(matches!(bytes::decode(&[0xc2, 0x01, 0xc0]), Err(StorageError::Rlp(_))));
}

#[test]
fn u64_storage_matches_golden_bytes() {
    let value = U64 {
        value: 300,
        delta: None,
        limits: (0, 1_000),
    };
    let mut encoded = Vec::new();
    uint64::encode(&value, &mut encoded);
    assert_eq!(
        encoded,
        vec![0xc9, 0x01, 0x82, 0x01, 0x2c, 0x01, 0x80, 0x82, 0x03, 0xe8]
    );
    let (defaults, _) = uint64::decode(&[0xc5, 0x80, 0x80, 0x80, 0x80, 0x80]).unwrap();
    assert!(
        defaults
            == U64 {
                value: 0,
                delta: None,
                limits: (0, u64::MAX),
            }
    );
    assert_eq!(
        uint64::decode(&[0xc5, 0x01, 0x01, 0x02, 0x01, 0x01]).err(),
        Some(StorageError::Invalid("invalid U64 encoding"))
    );
}
