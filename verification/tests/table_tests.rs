use raft::table::{IndexDecodeError, IndexEntry, TableIndex};

fn entry(id: &str, offset: u64) -> IndexEntry {
    IndexEntry { id: id.to_string(), offset, length: 4, created_at: 10, updated_at: 11 }
}

#[test]
fn empty_file_is_an_empty_index() {
    let index = TableIndex::decode(&[]).unwrap();
    assert_eq!(index.len(), 0);
    assert_eq!(index.encode(), vec![0u8; 8]);
}

#[test]
fn insert_replaces_same_identifier() {
    let mut index = TableIndex::new();
    index.insert(entry("a", 1));
    index.insert(entry("b", 2));
    index.insert(entry("a", 3));
    assert_eq!(index.len(), 2);
    assert_eq!(index.get_metadata("a").unwrap().offset, 3);
    let mut ids = index.list_ids();
    ids.sort();
    assert_eq!(ids, vec!["a".to_string(), "b".to_string()]);
}

#[test]
fn encoded_layout_and_roundtrip() {
    let mut index = TableIndex::new();
    index.insert(entry("é", 0x0102));
    let bytes = index.encode();
    let mut expected = vec![1, 0, 0, 0, 0, 0, 0, 0, 2, 0, 0, 0, 0xc3, 0xa9];
    expected.extend_from_slice(&[2, 1, 0, 0, 0, 0, 0, 0]);
    expected.extend_from_slice(&[4, 0, 0, 0, 0, 0, 0, 0]);
    expected.extend_from_slice(&[10, 0, 0, 0, 0, 0, 0, 0]);
    expected.extend_from_slice(&[11, 0, 0, 0, 0, 0, 0, 0]);
    assert_eq!(bytes, expected);
    let back = TableIndex::decode(&bytes).unwrap();
    let e = back.get_metadata("é").unwrap();
    assert_eq!((e.offset, e.length, e.created_at, e.updated_at), (0x0102, 4, 10, 11));
}

#[test]
fn decode_errors() {
    assert_eq!(TableIndex::decode(&[1, 0, 0]).err(), Some(IndexDecodeError::Truncated));
    assert_eq!(TableIndex::decode(&[1, 0, 0, 0, 0, 0, 0, 0, 1, 0]).err(), Some(IndexDecodeError::Truncated));
    assert_eq!(
        TableIndex::decode(&[1, 0, 0, 0, 0, 0, 0, 0, 1, 0, 0, 0, 0xff]).err(),
        Some(IndexDecodeError::InvalidUtf8)
    );
    assert_eq!(
        TableIndex::decode(&[1, 0, 0, 0, 0, 0, 0, 0, 1, 0, 0, 0, b'a', 1, 2]).err(),
        Some(IndexDecodeError::Truncated)
    );
}

#[test]
fn create_update_delete_records() {
    let mut index = TableIndex::new();
    let id = index.record_create(0, 5, 100, 100_000, &[1, 2, 3, 4, 5, 6, 7, 8, 9, 10]);
    assert_eq!(id.len(), 36);
    assert_eq!(&id[14..15], "7");
    assert!(index.contains(&id));
    assert!(index.record_update(&id, 5, 7, 200));
    let e = index.get_metadata(&id).unwrap();
    assert_eq!((e.offset, e.length, e.created_at, e.updated_at), (5, 7, 100, 200));
    assert!(!index.record_update("missing", 0, 0, 0));
    assert!(index.remove(&id));
    assert!(!index.remove(&id));
    assert!(index.get_metadata(&id).is_none());
}

#[test]
fn two_created_records_get_different_identifiers() {
    let mut index = TableIndex::new();
    let a = index.record_create(0, 1, 1, 1_000, &[0; 10]);
    let b = index.record_create(1, 1, 1, 1_000, &[0, 0, 0, 0, 0, 0, 0, 0, 0, 1]);
    assert_ne!(a, b);
    assert_eq!(index.len(), 2);
}

#[test]
fn created_identifier_is_the_version_7_uuid_of_time_and_random_bytes() {
    let mut index = TableIndex::new();
    let id = index.record_create(0, 1, 1, 0x0123_4567_89ab, &[0xfe, 0x01, 0xff, 3, 4, 5, 6, 7, 8, 9]);
    assert_eq!(id, "01234567-89ab-7e01-bf03-040506070809");
    assert!(index.contains("01234567-89ab-7e01-bf03-040506070809"));
}
