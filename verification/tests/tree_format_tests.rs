use tuliprox_store::tree_format::{
    compress_if_beneficial, decode_file_header, decode_node_block, encode_file_header,
    encode_internal_block, encode_leaf_block, encode_packed_block, encode_value_record,
    node_block_more, node_block_size, place_leaf_values, plan_leaf_values, read_packed_value, value_from_record,
    TreeFormatError, ValueInfo, ValueStorageMode, BLOCK_SIZE, UNPLACED,
};

#[test]
fn file_header_roundtrip_and_layout() {
    let h = encode_file_header(4096);
    assert_eq!(h.len(), BLOCK_SIZE);
    assert_eq!(&h[0..4], b"BTRE");
    assert_eq!(&h[4..8], &1u32.to_le_bytes());
    assert_eq!(&h[8..16], &4096u64.to_le_bytes());
    assert!(h[16..].iter().all(|b| *b == 0));
    assert_eq!(decode_file_header(&h), Ok(4096));
    assert_eq!(decode_file_header(&encode_file_header(123_456_789)), Ok(123_456_789));
}

#[test]
fn file_header_errors() {
    assert_eq!(decode_file_header(&[0u8; 15]), Err(TreeFormatError::Truncated));
    let mut h = encode_file_header(4096);
    h[1] = b'x';
    assert_eq!(decode_file_header(&h), Err(TreeFormatError::BadMagic));
    let mut h = encode_file_header(4096);
    h[4] = 2;
    assert_eq!(decode_file_header(&h), Err(TreeFormatError::UnsupportedVersion(2)));
}

#[test]
fn leaf_block_roundtrip() {
    let keys = vec![9u8; 100];
    let info = vec![7u8; 5000];
    let b = encode_leaf_block(&keys, &info).unwrap();
    assert_eq!(b.len(), 2 * BLOCK_SIZE);
    assert_eq!(b[0], 1);
    assert_eq!(b.len() as u64, node_block_size(100, 5000));
    let n = decode_node_block(&b).unwrap();
    assert!(n.is_leaf);
    assert_eq!(n.keys, keys);
    assert_eq!(n.payload, info);
}

#[test]
fn internal_block_roundtrip_and_overflow() {
    let keys = vec![1u8, 2, 3];
    let ptrs = vec![4u8; 16];
    let b = encode_internal_block(&keys, &ptrs).unwrap();
    assert_eq!(b.len(), BLOCK_SIZE);
    assert_eq!(b[0], 0);
    let n = decode_node_block(&b).unwrap();
    assert!(!n.is_leaf);
    assert_eq!(n.keys, keys);
    assert_eq!(n.payload, ptrs);
    assert_eq!(
        encode_internal_block(&vec![0u8; 4000], &vec![0u8; 100]).err(),
        Some(TreeFormatError::InternalNodeOverflow)
    );
    assert!(encode_internal_block(&vec![0u8; 4000], &vec![0u8; 87]).is_ok());
}

#[test]
fn node_block_truncated() {
    assert_eq!(decode_node_block(&[1u8, 2, 0]).err(), Some(TreeFormatError::Truncated));
    let mut b = vec![1u8];
    b.extend_from_slice(&10u32.to_le_bytes());
    b.extend_from_slice(&[0u8; 5]);
    assert_eq!(decode_node_block(&b).err(), Some(TreeFormatError::Truncated));
}

#[test]
fn node_block_size_rounds_up() {
    assert_eq!(node_block_size(0, 0), 4096);
    assert_eq!(node_block_size(4087, 0), 4096);
    assert_eq!(node_block_size(4088, 0), 8192);
}

#[test]
fn packed_block_roundtrip() {
    let values = vec![b"alpha".to_vec(), Vec::new(), vec![3u8; 300]];
    let block = encode_packed_block(&values);
    assert_eq!(block.len(), BLOCK_SIZE);
    assert_eq!(&block[0..4], &3u32.to_le_bytes());
    for (i, v) in values.iter().enumerate() {
        assert_eq!(&read_packed_value(&block, i as u16).unwrap(), v);
    }
    // an index past the count reads the zero length that follows
    assert_eq!(read_packed_value(&block, 3).unwrap(), Vec::<u8>::new());
}

#[test]
fn packed_block_corruption() {
    let mut block = vec![0u8; BLOCK_SIZE];
    block[4..8].copy_from_slice(&5000u32.to_le_bytes());
    assert_eq!(read_packed_value(&block, 0).err(), Some(TreeFormatError::PackedBlockCorrupted));
    assert_eq!(read_packed_value(&block, 1).err(), Some(TreeFormatError::PackedBlockCorrupted));
}

#[test]
fn compression_is_used_only_when_it_pays() {
    let small = vec![0u8; 63];
    assert_eq!(compress_if_beneficial(&small), (0, small.clone()));
    let repetitive = vec![b'a'; 1000];
    let (flag, payload) = compress_if_beneficial(&repetitive);
    assert_eq!(flag, 1);
    assert!(payload.len() < 850);
    assert_eq!(&payload[0..4], &1000u32.to_le_bytes());
    let noise: Vec<u8> = (0..200u32).map(|i| (i.wrapping_mul(2654435761) >> 13) as u8).collect();
    let (flag, payload) = compress_if_beneficial(&noise);
    assert_eq!(flag, 0);
    assert_eq!(payload, noise);
}

#[test]
fn value_record_roundtrip() {
    for raw in [vec![5u8; 10], vec![b'z'; 4000], b"hello world".to_vec()] {
        let rec = encode_value_record(&raw);
        assert_eq!(value_from_record(&rec).unwrap(), raw);
    }
    let rec = encode_value_record(&vec![b'q'; 500]);
    assert_eq!(rec[0], 1);
    assert!(rec.len() < 500);
    let bad = vec![1u8, 10, 0, 0, 0, 0xff];
    assert_eq!(value_from_record(&bad).err(), Some(TreeFormatError::Decompression));
    assert_eq!(value_from_record(&[0u8, 1, 2]).unwrap(), vec![1u8, 2]);
}

#[test]
fn plan_packs_small_values_and_stores_large_alone() {
    let mut values: Vec<Vec<u8>> = Vec::new();
    for _ in 0..15 {
        values.push(vec![1u8; 256]);
    }
    values.push(vec![2u8; 300]);
    values.push(vec![3u8; 10]);
    let infos = plan_leaf_values(&values).unwrap();
    assert_eq!(infos.len(), 17);
    // 4 + 15 * 260 = 3904 fits; a 16th 260-byte entry would not
    for (i, info) in infos.iter().take(15).enumerate() {
        assert_eq!(info.mode, ValueStorageMode::Packed(0, i as u16));
        assert_eq!(info.length, 256);
        assert!(info.compressed_cache.is_none());
    }
    assert_eq!(infos[15].mode, ValueStorageMode::Single(UNPLACED));
    assert!(infos[15].length < 301);
    assert!(matches!(&infos[15].compressed_cache, Some((1, _))));
    // 3904 + 14 fits in the current block
    assert_eq!(infos[16].mode, ValueStorageMode::Packed(0, 15));

    let more: Vec<Vec<u8>> = (0..16).map(|_| vec![0u8; 256]).collect();
    let infos = plan_leaf_values(&more).unwrap();
    assert_eq!(infos[15].mode, ValueStorageMode::Packed(1, 0));
}

#[test]
fn placing_gives_blocks_then_single_offsets() {
    let mut infos = vec![
        ValueInfo { mode: ValueStorageMode::Packed(0, 0), length: 10, compressed_cache: None },
        ValueInfo { mode: ValueStorageMode::Single(UNPLACED), length: 500, compressed_cache: None },
        ValueInfo { mode: ValueStorageMode::Packed(0, 1), length: 10, compressed_cache: None },
        ValueInfo { mode: ValueStorageMode::Packed(1, 0), length: 10, compressed_cache: None },
        ValueInfo { mode: ValueStorageMode::Single(UNPLACED), length: 20, compressed_cache: None },
    ];
    let end = place_leaf_values(&mut infos, 8192);
    assert_eq!(infos[0].mode, ValueStorageMode::Packed(8192, 0));
    assert_eq!(infos[1].mode, ValueStorageMode::Single(8192 + 4096));
    assert_eq!(infos[2].mode, ValueStorageMode::Packed(8192, 1));
    assert_eq!(infos[3].mode, ValueStorageMode::Packed(8192 + 4096 + 500, 0));
    assert_eq!(infos[4].mode, ValueStorageMode::Single(8192 + 4096 + 500 + 4096));
    assert_eq!(end, 8192 + 4096 + 500 + 4096 + 20);
}

#[test]
fn node_block_reads_in_three_steps() {
    let block = encode_leaf_block(&[7, 8, 9], &[1, 2]).unwrap();
    assert_eq!(node_block_more(&[]), 5);
    assert_eq!(node_block_more(&block[..5]), 3 + 4);
    assert_eq!(node_block_more(&block[..12]), 2);
    assert_eq!(node_block_more(&block[..14]), 0);
    assert_eq!(node_block_more(&block), 0);
}
