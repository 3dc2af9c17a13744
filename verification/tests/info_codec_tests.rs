use tuliprox_store::info_codec::{decode_value_infos, encode_value_infos, INFO_WIDTH};
use tuliprox_store::tree_format::{TreeFormatError, ValueInfo, ValueStorageMode};

#[test]
fn value_infos_read_back_as_written() {
    let infos = vec![
        ValueInfo { mode: ValueStorageMode::Single(8192), length: 300, compressed_cache: Some((1, vec![9])) },
        ValueInfo { mode: ValueStorageMode::Packed(12288, 7), length: 12, compressed_cache: None },
    ];
    let bytes = encode_value_infos(&infos);
    assert_eq!(bytes.len(), 2 * INFO_WIDTH);
    assert_eq!(&bytes[..INFO_WIDTH], &[0, 0, 32, 0, 0, 0, 0, 0, 0, 0, 0, 44, 1, 0, 0]);
    let back = decode_value_infos(&bytes).unwrap();
    assert_eq!(back.len(), 2);
    assert_eq!((back[0].mode, back[0].length), (ValueStorageMode::Single(8192), 300));
    assert_eq!((back[1].mode, back[1].length), (ValueStorageMode::Packed(12288, 7), 12));
    assert!(back[0].compressed_cache.is_none());
}

#[test]
fn cut_records_are_refused() {
    assert!(matches!(decode_value_infos(&[0u8; 14]), Err(TreeFormatError::Truncated)));
    assert!(decode_value_infos(&[]).unwrap().is_empty());
}
