use tuliprox_store::compact::CompactWriter;
use tuliprox_store::info_codec::decode_value_infos;
use tuliprox_store::tree_format::{
    decode_file_header, decode_node_block, value_from_record, ValueStorageMode, BLOCK_SIZE, HEADER_SIZE,
};

#[test]
fn values_then_their_leaf_read_back() {
    let mut w = CompactWriter::new(2);
    assert_eq!(w.add_value(b"one"), Ok(false));
    assert_eq!(w.add_value(b"two"), Ok(true));
    assert_eq!(w.leaf_infos[0].mode, ValueStorageMode::Single(HEADER_SIZE));
    assert_eq!(w.leaf_infos[1].mode, ValueStorageMode::Single(HEADER_SIZE + 4));
    let off = w.close_leaf(b"[1,2]").expect("leaf");
    assert_eq!(off, HEADER_SIZE + 8);
    assert!(w.leaf_infos.is_empty());
    assert_eq!(w.image.len(), BLOCK_SIZE + 8 + BLOCK_SIZE);
    assert_eq!(decode_file_header(&w.image), Ok(HEADER_SIZE));
    let node = decode_node_block(&w.image[off as usize..]).expect("node");
    assert!(node.is_leaf);
    assert_eq!(node.keys, b"[1,2]".to_vec());
    let infos = decode_value_infos(&node.payload).unwrap();
    assert_eq!(infos.len(), 2);
    let ValueStorageMode::Single(o) = infos[1].mode else { panic!("not single") };
    let rec = &w.image[o as usize..o as usize + infos[1].length as usize];
    assert_eq!(value_from_record(rec), Ok(b"two".to_vec()));
}
