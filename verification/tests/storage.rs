use padagonia::storage::{
    check_block_checksum, check_header, check_store_size, check_trailing_bytes, validate_decoded_blocks,
    validate_store,
};
use padagonia::{
    Block, BlockKind, BlockPayload, FileHeader, LabelId, Provenance, Store, StoreError, StringTable,
    MAX_BLOCK_COUNT, MAX_STORE_BYTES,
};

fn prov() -> Provenance {
    Provenance::new("agent", "model", 1.0f32.to_bits(), 0.0f32.to_bits(), 1, vec![])
}

#[test]
fn store_size_limit_is_inclusive() {
    assert!(check_store_size(MAX_STORE_BYTES).is_ok());
    assert!(matches!(
        check_store_size(MAX_STORE_BYTES + 1),
        Err(StoreError::StoreTooLarge { bytes }) if bytes == MAX_STORE_BYTES + 1
    ));
}

#[test]
fn header_checks_magic_version_and_block_count() {
    assert!(check_header(&FileHeader::new(StringTable::new(), 3)).is_ok());
    let mut old = FileHeader::new(StringTable::new(), 3);
    old.version = 1;
    assert!(matches!(check_header(&old), Err(StoreError::BadHeader)));
    let mut newer = FileHeader::new(StringTable::new(), 3);
    newer.version = 9;
    assert!(matches!(check_header(&newer), Err(StoreError::BadHeader)));
    let mut foreign = FileHeader::new(StringTable::new(), 3);
    foreign.magic[0] = b'X';
    assert!(matches!(check_header(&foreign), Err(StoreError::BadHeader)));
    let many = FileHeader::new(StringTable::new(), MAX_BLOCK_COUNT + 1);
    assert!(matches!(check_header(&many), Err(StoreError::TooManyBlocks { count }) if count == MAX_BLOCK_COUNT + 1));
}

#[test]
fn trailing_bytes_are_refused() {
    assert!(check_trailing_bytes(0).is_ok());
    assert!(matches!(check_trailing_bytes(8), Err(StoreError::TrailingBytes { bytes: 8 })));
}

#[test]
fn corrupted_block_is_refused_with_its_index() {
    let block = Block::new(BlockKind::Facts, vec![1, 2, 3]);
    assert!(check_block_checksum(0, &block).is_ok());
    let mut bad = Block::new(BlockKind::Facts, vec![1, 2, 3]);
    bad.payload[1] ^= 0xff;
    assert!(matches!(check_block_checksum(4, &bad), Err(StoreError::CrcMismatch { block_index: 4 })));
}

#[test]
fn validate_store_refuses_non_finite_embeddings_and_mixed_dimensions() {
    let mut store = Store::new();
    store.add_node("A", vec![], Some(vec![1.0f32.to_bits(), 2.0f32.to_bits()]), prov());
    assert!(validate_store(&store).is_ok());
    store.add_node("A", vec![], Some(vec![1.0f32.to_bits()]), prov());
    assert!(matches!(validate_store(&store), Err(StoreError::InvalidValue { .. })));

    let mut nan = Store::new();
    nan.add_node("A", vec![], Some(vec![f32::NAN.to_bits()]), prov());
    assert!(matches!(validate_store(&nan), Err(StoreError::InvalidValue { .. })));
}

#[test]
fn validate_store_refuses_blank_provenance() {
    let mut store = Store::new();
    store.add_node(
        "A",
        vec![],
        None,
        Provenance::new(" ", "model", 1.0f32.to_bits(), 0.0f32.to_bits(), 1, vec![]),
    );
    assert!(matches!(validate_store(&store), Err(StoreError::InvalidValue { .. })));
}

#[test]
fn mismatched_kind_and_unknown_label_are_refused() {
    let table = StringTable::new();
    let mismatched = vec![(BlockKind::Facts, BlockPayload::Nodes { label: LabelId(0), nodes: vec![] })];
    assert!(matches!(
        validate_decoded_blocks(&mismatched, &table),
        Err(StoreError::InconsistentBlockPayload)
    ));
    let unknown = vec![(BlockKind::Nodes(LabelId(100)), BlockPayload::Nodes { label: LabelId(100), nodes: vec![] })];
    assert!(matches!(
        validate_decoded_blocks(&unknown, &table),
        Err(StoreError::UnknownStringId { id: 100 })
    ));
    let facts = vec![(BlockKind::Facts, BlockPayload::Facts { entries: vec![] })];
    assert!(validate_decoded_blocks(&facts, &table).is_ok());
}
