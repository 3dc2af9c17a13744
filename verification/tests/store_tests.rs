use tuliprox_store::bplustree::BPlusTree;
use tuliprox_store::disk_query::{DiskNode, QueryStep};
use tuliprox_store::info_codec::{decode_child_offsets, decode_value_infos};
use tuliprox_store::store::lay_out_image;
use tuliprox_store::tree_format::{
    decode_file_header, decode_node_block, read_packed_value, value_from_record, ValueInfo,
    TreeFormatError, ValueStorageMode, BLOCK_SIZE, HEADER_SIZE,
};

fn json_keys(keys: &[u32]) -> Option<Vec<u8>> {
    serde_json::to_vec(keys).ok()
}

fn json_value(value: &String) -> Option<Vec<u8>> {
    serde_json::to_vec(value).ok()
}

fn read_node(img: &[u8], offset: u64) -> DiskNode<u32> {
    let b = decode_node_block(&img[offset as usize..]).expect("node");
    let keys: Vec<u32> = serde_json::from_slice(&b.keys).unwrap();
    if b.is_leaf {
        let value_info = decode_value_infos(&b.payload).unwrap();
        DiskNode { is_leaf: true, keys, value_info, pointers: None }
    } else {
        let pointers: Vec<u64> = decode_child_offsets(&b.payload).unwrap();
        DiskNode { is_leaf: false, keys, value_info: Vec::new(), pointers: Some(pointers) }
    }
}

fn load(img: &[u8], info: &ValueInfo) -> String {
    let raw = match info.mode {
        ValueStorageMode::Single(o) => {
            value_from_record(&img[o as usize..o as usize + info.length as usize]).unwrap()
        }
        ValueStorageMode::Packed(o, idx) => {
            read_packed_value(&img[o as usize..o as usize + BLOCK_SIZE], idx).unwrap()
        }
    };
    serde_json::from_slice(&raw).unwrap()
}

fn lookup(img: &[u8], key: u32, le: bool) -> Option<String> {
    let mut offset = decode_file_header(img).unwrap();
    loop {
        let node = read_node(img, offset);
        let step = if le { node.query_le_step(&key) } else { node.query_step(&key) };
        match step {
            QueryStep::Found(i) => return Some(load(img, &node.value_info[i])),
            QueryStep::Missing => return None,
            QueryStep::Descend(o) => offset = o,
        }
    }
}

#[test]
fn stored_image_reads_back_every_value() {
    let mut tree = BPlusTree::<u32, String>::new();
    for i in 0u32..=500 {
        let value = if i % 50 == 0 {
            // long and repetitive: stored alone, compressed
            format!("{}{}", "x".repeat(2000), i)
        } else if i % 77 == 0 {
            // long and varied: stored alone as it is
            (0..400u32).map(|j| char::from(b'a' + ((j * 7 + i) % 26) as u8)).collect()
        } else {
            format!("Entry {i}")
        };
        tree.insert(i, value);
    }
    let (img, end) = tree.store_image(json_keys, json_value).expect("store");
    assert_eq!(decode_file_header(&img), Ok(HEADER_SIZE));
    assert_eq!(end as usize, img.len());
    for i in 0u32..=500 {
        let expected = tree.query(&i).unwrap().clone();
        assert_eq!(lookup(&img, i, false), Some(expected), "key {i}");
    }
    assert_eq!(lookup(&img, 501, false), None);
    assert_eq!(lookup(&img, 10_000, true), tree.query(&500).cloned());
}

#[test]
fn empty_tree_image_has_an_empty_root_leaf() {
    let tree = BPlusTree::<u32, String>::new();
    let (img, end) = tree.store_image(json_keys, json_value).expect("store");
    assert_eq!(end, HEADER_SIZE + BLOCK_SIZE as u64);
    assert_eq!(img.len(), 2 * BLOCK_SIZE);
    let root = read_node(&img, HEADER_SIZE);
    assert!(root.is_leaf);
    assert!(root.keys.is_empty());
    assert_eq!(lookup(&img, 1, false), None);
}

#[test]
fn three_small_values_share_one_pack_block() {
    let mut t = BPlusTree::<u32, u32>::new();
    t.insert(1, 10);
    t.insert(2, 20);
    t.insert(3, 30);
    let (img, end) = t.store_image(json_keys, |v: &u32| Some(v.to_le_bytes().to_vec())).expect("store");
    assert_eq!(end, 12288);
    assert_eq!(img.len(), 12288);
    // the single root leaf occupies block 4096..8192
    assert_eq!(img[4096], 1);
    // all three values share one pack block at 8192
    assert_eq!(&img[8192..8196], &3u32.to_le_bytes());
    assert_eq!(read_packed_value(&img[8192..12288], 1), Ok(20u32.to_le_bytes().to_vec()));
}

#[test]
fn refused_serialization_fails_the_store() {
    let mut t = BPlusTree::<u32, String>::new();
    t.insert(1, "one".to_string());
    assert_eq!(t.store_image(|_: &[u32]| None, |_: &String| None).err(), Some(TreeFormatError::Serialization));
}

#[test]
fn laid_out_leaf_reads_back_its_values() {
    let long: Vec<u8> = (0..300u32).map(|j| ((j * 37 + 11) % 251) as u8).collect();
    let leaf = vec![true];
    let children: Vec<Vec<usize>> = vec![vec![]];
    let keys = vec![b"k".to_vec()];
    let values = vec![vec![b"abc".to_vec(), long.clone(), b"de".to_vec()]];
    let (img, end) = lay_out_image(&leaf, &children, &keys, &values).expect("layout");
    // header, one leaf block, one pack block, then the long value's record
    assert_eq!(end as usize, img.len());
    assert_eq!(end, 3 * 4096 + 301);
    assert_eq!(decode_file_header(&img), Ok(HEADER_SIZE));
    let node = decode_node_block(&img[4096..]).expect("node");
    assert!(node.is_leaf);
    assert_eq!(node.keys, b"k".to_vec());
    let infos = decode_value_infos(&node.payload).unwrap();
    assert_eq!(infos.len(), 3);
    assert_eq!(infos[0].mode, ValueStorageMode::Packed(8192, 0));
    assert_eq!(infos[1].mode, ValueStorageMode::Single(12288));
    assert_eq!(infos[1].length, 301);
    assert_eq!(infos[2].mode, ValueStorageMode::Packed(8192, 1));
    assert_eq!(read_packed_value(&img[8192..12288], 0), Ok(b"abc".to_vec()));
    assert_eq!(read_packed_value(&img[8192..12288], 1), Ok(b"de".to_vec()));
    assert_eq!(value_from_record(&img[12288..12589]), Ok(long));
}

#[test]
fn laid_out_inner_node_points_at_its_children() {
    let leaf = vec![false, true, true];
    let children: Vec<Vec<usize>> = vec![vec![1, 2], vec![], vec![]];
    let keys = vec![b"m".to_vec(), b"a".to_vec(), b"z".to_vec()];
    let values = vec![vec![], vec![b"1".to_vec()], vec![b"2".to_vec()]];
    let (img, end) = lay_out_image(&leaf, &children, &keys, &values).expect("layout");
    assert_eq!(end, 6 * 4096);
    let root = decode_node_block(&img[4096..]).expect("root");
    assert!(!root.is_leaf);
    assert_eq!(decode_child_offsets(&root.payload), Ok(vec![8192, 12288]));
    let right = decode_node_block(&img[12288..]).expect("leaf");
    assert_eq!(right.keys, b"z".to_vec());
    let infos = decode_value_infos(&right.payload).unwrap();
    assert_eq!(infos[0].mode, ValueStorageMode::Packed(20480, 0));
    assert_eq!(read_packed_value(&img[20480..24576], 0), Ok(b"2".to_vec()));
}

#[test]
fn inner_node_past_one_block_is_refused() {
    let leaf = vec![false, true];
    let children: Vec<Vec<usize>> = vec![vec![1; 600], vec![]];
    let keys = vec![vec![0u8; 10], vec![]];
    let values = vec![vec![], vec![]];
    assert_eq!(
        lay_out_image(&leaf, &children, &keys, &values).err(),
        Some(TreeFormatError::InternalNodeOverflow)
    );
}
