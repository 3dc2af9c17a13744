use tuliprox_store::paths::get_file_path_for_db_index;
use tuliprox_store::sorted_index::{
    IndexFormatError, SortedIndexReader, SortedIndexWriter, ValueLocation,
};
use tuliprox_store::tree_format::{ValueInfo, ValueStorageMode};

fn key_bytes(s: &str) -> Vec<u8> {
    serde_json::to_vec(s).unwrap()
}

fn id_bytes(id: u32) -> Vec<u8> {
    serde_json::to_vec(&id).unwrap()
}

#[test]
fn test_sorted_index_write_read() {
    let mut writer = SortedIndexWriter::new();
    writer
        .push(&key_bytes("apple"), &id_bytes(1), ValueLocation::Single { offset: 100, length: 50 })
        .unwrap();
    writer
        .push(
            &key_bytes("banana"),
            &id_bytes(2),
            ValueLocation::Packed { block_offset: 200, index: 3, length: 75 },
        )
        .unwrap();
    writer
        .push(&key_bytes("cherry"), &id_bytes(3), ValueLocation::Single { offset: 300, length: 100 })
        .unwrap();
    let (bytes, count) = writer.finish();
    assert_eq!(count, 3);

    let mut reader = SortedIndexReader::open(bytes).unwrap();
    let mut entries = Vec::new();
    while let Some(e) = reader.read_next().unwrap() {
        entries.push(e);
    }

    assert_eq!(entries.len(), 3);
    assert_eq!(serde_json::from_slice::<String>(&entries[0].sort_key).unwrap(), "apple".to_string());
    assert_eq!(serde_json::from_slice::<u32>(&entries[0].primary_key).unwrap(), 1u32);
    match entries[0].location {
        ValueLocation::Single { offset, length } => {
            assert_eq!(offset, 100);
            assert_eq!(length, 50);
        }
        _ => panic!("Expected Single location"),
    }

    assert_eq!(serde_json::from_slice::<String>(&entries[1].sort_key).unwrap(), "banana".to_string());
    assert_eq!(serde_json::from_slice::<u32>(&entries[1].primary_key).unwrap(), 2u32);
    match entries[1].location {
        ValueLocation::Packed { block_offset, index, length } => {
            assert_eq!(block_offset, 200);
            assert_eq!(index, 3);
            assert_eq!(length, 75);
        }
        _ => panic!("Expected Packed location"),
    }

    assert_eq!(serde_json::from_slice::<String>(&entries[2].sort_key).unwrap(), "cherry".to_string());
    assert_eq!(serde_json::from_slice::<u32>(&entries[2].primary_key).unwrap(), 3u32);
    match entries[2].location {
        ValueLocation::Single { offset, length } => {
            assert_eq!(offset, 300);
            assert_eq!(length, 100);
        }
        _ => panic!("Expected Single location"),
    }
}

#[test]
fn test_empty_index() {
    let writer = SortedIndexWriter::new();
    let (bytes, count) = writer.finish();
    assert_eq!(count, 0);

    let mut reader = SortedIndexReader::open(bytes).unwrap();
    assert!(reader.is_empty());
    let remaining = reader.remaining();
    assert_eq!(remaining, 0);

    assert!(reader.read_next().unwrap().is_none());
}

#[test]
fn test_index_path_derivation() {
    let idx_path = get_file_path_for_db_index("/data/my_tree.bin");
    assert_eq!(idx_path, "/data/my_tree.idx");

    let idx_path2 = get_file_path_for_db_index("/data/items");
    assert_eq!(idx_path2, "/data/items.idx");
}

#[test]
fn index_header_layout() {
    let mut w = SortedIndexWriter::new();
    w.push(b"k", b"p", ValueLocation::Single { offset: 1, length: 2 }).unwrap();
    let (bytes, _) = w.finish();
    assert_eq!(&bytes[0..4], b"SIDX");
    assert_eq!(&bytes[4..8], &3u32.to_le_bytes());
    assert_eq!(&bytes[8..16], &1u64.to_le_bytes());
    // [1]["k"][1]["p"][0][offset][length]
    assert_eq!(bytes.len(), 16 + 4 + 1 + 4 + 1 + 13);
    assert_eq!(bytes[16 + 10], 0);
}

#[test]
fn location_bytes_roundtrip() {
    let a = ValueLocation::Single { offset: 0x1122_3344_5566_7788, length: 0xAABB_CCDD };
    let b = ValueLocation::Packed { block_offset: 4096, index: 513, length: 77 };
    let ab = a.to_bytes();
    assert_eq!(ab.len(), 13);
    assert_eq!(ab[0], 0);
    assert_eq!(&ab[1..9], &0x1122_3344_5566_7788u64.to_le_bytes());
    let bb = b.to_bytes();
    assert_eq!(bb.len(), 15);
    assert_eq!(bb[0], 1);
    let mut both = ab.clone();
    both.extend_from_slice(&bb);
    let (l1, p1) = ValueLocation::from_bytes(&both, 0).unwrap();
    assert_eq!(l1, a);
    assert_eq!(p1, 13);
    let (l2, p2) = ValueLocation::from_bytes(&both, p1).unwrap();
    assert_eq!(l2, b);
    assert_eq!(p2, 28);
}

#[test]
fn location_errors() {
    assert_eq!(ValueLocation::from_bytes(&[7u8, 0, 0], 0), Err(IndexFormatError::UnknownLocationMode(7)));
    assert_eq!(ValueLocation::from_bytes(&[0u8, 1, 2], 0), Err(IndexFormatError::Truncated));
    assert_eq!(ValueLocation::from_bytes(&[1u8; 14], 0), Err(IndexFormatError::Truncated));
    assert_eq!(ValueLocation::from_bytes(&[], 0), Err(IndexFormatError::Truncated));
}

#[test]
fn index_open_errors() {
    assert!(matches!(SortedIndexReader::open(vec![0u8; 8]), Err(IndexFormatError::Truncated)));
    let mut bad_magic = SortedIndexWriter::new().finish().0;
    bad_magic[0] = b'X';
    assert!(matches!(SortedIndexReader::open(bad_magic), Err(IndexFormatError::BadMagic)));
    let mut bad_version = SortedIndexWriter::new().finish().0;
    bad_version[4] = 2;
    assert!(matches!(SortedIndexReader::open(bad_version), Err(IndexFormatError::UnsupportedVersion(2))));
}

#[test]
fn truncated_entry_is_reported_and_not_counted() {
    let mut w = SortedIndexWriter::new();
    w.push(b"key", b"pk", ValueLocation::Single { offset: 5, length: 6 }).unwrap();
    let (mut bytes, _) = w.finish();
    bytes.truncate(bytes.len() - 3);
    let mut r = SortedIndexReader::open(bytes).unwrap();
    assert_eq!(r.read_next().err(), Some(IndexFormatError::Truncated));
    assert_eq!(r.remaining(), 1);
}

#[test]
fn locations_and_value_infos_convert_both_ways() {
    let single = ValueInfo { mode: ValueStorageMode::Single(8192), length: 17, compressed_cache: None };
    let loc = ValueLocation::of_info(&single);
    assert_eq!(loc, ValueLocation::Single { offset: 8192, length: 17 });
    let back = loc.to_info();
    assert_eq!(back.mode, ValueStorageMode::Single(8192));
    assert_eq!(back.length, 17);
    let packed = ValueInfo { mode: ValueStorageMode::Packed(4096, 3), length: 9, compressed_cache: Some((1, vec![1])) };
    let loc = ValueLocation::of_info(&packed);
    assert_eq!(loc, ValueLocation::Packed { block_offset: 4096, index: 3, length: 9 });
    let back = loc.to_info();
    assert_eq!(back.mode, ValueStorageMode::Packed(4096, 3));
    assert!(back.compressed_cache.is_none());
}
