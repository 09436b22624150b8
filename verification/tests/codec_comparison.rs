use rust_common_lib::crdt::codecs::internal;
use rust_common_lib::crdt::codecs::rlp;
use rust_common_lib::crdt::crdt::Crdt;
use rust_common_lib::crdt::state::DeltaOp;
use rust_common_lib::crdt::types::word::Word256;
use rust_common_lib::crdt::types::{Bytes, I64, U256, U64, U64Set};

/// Encodes `value` both ways, checks that the compact form decodes back to
/// it and that the stored form is read back whole, and reports both sizes.
fn compare<T: PartialEq>(
    name: &str,
    value: &T,
    internal_size: fn(&T) -> internal::Result<u64>,
    internal_encode: fn(&T) -> internal::Result<Vec<u8>>,
    internal_encode_to: fn(&T, &mut [u8]) -> internal::Result<u64>,
    internal_decode: fn(&[u8]) -> internal::Result<T>,
    rlp_encode: fn(&T, &mut Vec<u8>),
    rlp_length: fn(&T) -> usize,
    rlp_decode: fn(&[u8]) -> Result<(T, &[u8]), rlp::StorageError>,
) {
    let mut stored = Vec::new();
    rlp_encode(value, &mut stored);
    assert_eq!(rlp_length(value), stored.len());
    let (_, rest) = rlp_decode(&stored).unwrap();
    assert!(rest.is_empty());

    let compact = internal_encode(value).unwrap();
    assert!(internal_decode(&compact).unwrap() == *value);
    let size = usize::try_from(internal_size(value).unwrap()).unwrap();
    assert_eq!(size, compact.len());
    let mut output = vec![0; size];
    assert_eq!(internal_encode_to(value, &mut output).unwrap(), size as u64);
    assert_eq!(output, compact);

    println!("{name}: size RLP={} B, internal={} B", stored.len(), compact.len());
}

#[test]
fn compare_internal_codec_with_rlp_on_same_objects() {
    let mut bytes = Bytes::default();
    bytes.add_delta(&[1; 128]).unwrap();
    bytes.apply_delta();
    bytes.add_delta(&[2; 64]).unwrap();
    compare(
        "Bytes",
        &bytes,
        internal::bytes::encoded_size,
        internal::bytes::encode,
        internal::bytes::encode_to,
        internal::bytes::decode,
        rlp::bytes::encode,
        rlp::bytes::length,
        rlp::bytes::decode,
    );

    let mut int64 = I64::default();
    int64.add_delta(&1_000).unwrap();
    int64.apply_delta();
    int64.add_delta(&-250).unwrap();
    compare(
        "I64",
        &int64,
        internal::int64::encoded_size,
        internal::int64::encode,
        internal::int64::encode_to,
        internal::int64::decode,
        rlp::int64::encode,
        rlp::int64::length,
        rlp::int64::decode,
    );

    let mut uint64 = U64::default();
    uint64.add_delta(&DeltaOp::Add(1_000)).unwrap();
    uint64.apply_delta();
    uint64.add_delta(&DeltaOp::Add(250)).unwrap();
    compare(
        "U64",
        &uint64,
        internal::uint64::encoded_size,
        internal::uint64::encode,
        internal::uint64::encode_to,
        internal::uint64::decode,
        rlp::uint64::encode,
        rlp::uint64::length,
        rlp::uint64::decode,
    );

    let mut u256 = U256::default();
    u256.add_delta(&DeltaOp::Add(Word256::from_u64(1_000))).unwrap();
    u256.apply_delta();
    u256.add_delta(&DeltaOp::Add(Word256::from_u64(250))).unwrap();
    compare(
        "U256",
        &u256,
        internal::u256::encoded_size,
        internal::u256::encode,
        internal::u256::encode_to,
        internal::u256::decode,
        rlp::u256::encode,
        rlp::u256::length,
        rlp::u256::decode,
    );

    let mut path = U64Set::new().unwrap();
    let initial_delta = (0..64).map(DeltaOp::Add).collect::<Vec<_>>();
    path.add_delta(&initial_delta).unwrap();
    path.apply_delta();
    let pending_delta = (100..132)
        .map(DeltaOp::Add)
        .chain((0..16).map(DeltaOp::Sub))
        .collect::<Vec<_>>();
    path.add_delta(&pending_delta).unwrap();
    compare(
        "U64Set",
        &path,
        internal::u64_set::encoded_size,
        internal::u64_set::encode,
        internal::u64_set::encode_to,
        internal::u64_set::decode,
        rlp::u64_set::encode,
        rlp::u64_set::length,
        rlp::u64_set::decode,
    );
}
