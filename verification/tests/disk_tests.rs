use tuliprox_store::bplustree::BPlusTree;
use tuliprox_store::disk_query::{next_group, DiskNode, QueryStep};
use tuliprox_store::tree_format::{
    layout_offsets, leaf_value_writes, write_at, ValueInfo, ValueStorageMode, BLOCK_SIZE,
};

fn info(mode: ValueStorageMode, length: u32) -> ValueInfo {
    ValueInfo { mode, length, compressed_cache: None }
}

fn leaf(keys: Vec<u32>) -> DiskNode<u32> {
    let value_info = keys.iter().map(|k| info(ValueStorageMode::Single(*k as u64 * 100), 1)).collect();
    DiskNode { is_leaf: true, keys, value_info, pointers: None }
}

#[test]
fn breadth_first_lists_levels_with_child_positions() {
    let mut tree = BPlusTree::<u32, u32>::new();
    for i in 0u32..3000 {
        tree.insert(i, i);
    }
    let nodes = tree.nodes_breadth_first();
    assert!(!nodes[0].is_leaf);
    let mut next = 1usize;
    let mut leaf_keys = Vec::new();
    for n in &nodes {
        for (j, c) in n.children.iter().enumerate() {
            assert_eq!(*c, next + j);
        }
        next += n.children.len();
        if n.is_leaf {
            assert!(n.children.is_empty());
            assert_eq!(n.keys.len(), n.values.len());
            leaf_keys.extend_from_slice(n.keys);
        }
    }
    assert_eq!(next, nodes.len());
    // all leaves sit on the last level, so they come in key order
    assert_eq!(leaf_keys, (0u32..3000).collect::<Vec<_>>());
}

#[test]
fn store_flag_follows_changes() {
    let mut tree = BPlusTree::<u32, u32>::new();
    assert!(tree.needs_store());
    tree.mark_stored();
    assert!(!tree.needs_store());
    tree.insert(1, 1);
    assert!(tree.needs_store());
}

#[test]
fn offsets_run_one_after_the_other() {
    let (offs, end) = layout_offsets(&[4096, 8192, 4096], 4096);
    assert_eq!(offs, vec![4096, 8192, 16384]);
    assert_eq!(end, 20480);
    let (offs, end) = layout_offsets(&[], 7);
    assert!(offs.is_empty());
    assert_eq!(end, 7);
}

#[test]
fn value_writes_of_a_leaf() {
    let values = vec![b"a".to_vec(), b"bb".to_vec(), b"ccc".to_vec(), b"dd".to_vec()];
    let infos = vec![
        info(ValueStorageMode::Packed(8192, 1), 1),
        info(ValueStorageMode::Single(5000), 3),
        info(ValueStorageMode::Packed(8192, 0), 3),
        ValueInfo {
            mode: ValueStorageMode::Single(6000),
            length: 4,
            compressed_cache: Some((1, vec![9u8, 9, 9])),
        },
    ];
    let writes = leaf_value_writes(&infos, &values);
    assert_eq!(writes.len(), 3);
    assert_eq!(writes[0], (5000, vec![0u8, b'b', b'b']));
    assert_eq!(writes[1], (6000, vec![1u8, 9, 9, 9]));
    assert_eq!(writes[2].0, 8192);
    let block = &writes[2].1;
    assert_eq!(block.len(), BLOCK_SIZE);
    // sorted by index: "ccc" (index 0) before "a" (index 1)
    let mut expected = Vec::new();
    expected.extend_from_slice(&2u32.to_le_bytes());
    expected.extend_from_slice(&3u32.to_le_bytes());
    expected.extend_from_slice(b"ccc");
    expected.extend_from_slice(&1u32.to_le_bytes());
    expected.extend_from_slice(b"a");
    assert_eq!(&block[..expected.len()], &expected[..]);
}

#[test]
fn write_at_fills_gaps_and_overwrites() {
    let mut img = vec![1u8, 2, 3];
    write_at(&mut img, 5, &[9, 9]);
    assert_eq!(img, vec![1, 2, 3, 0, 0, 9, 9]);
    write_at(&mut img, 1, &[7]);
    assert_eq!(img, vec![1, 7, 3, 0, 0, 9, 9]);
    write_at(&mut img, 6, &[4, 4, 4]);
    assert_eq!(img, vec![1, 7, 3, 0, 0, 9, 4, 4, 4]);
}

#[test]
fn query_steps_in_leaves_and_inner_nodes() {
    let l = leaf(vec![10, 20, 30]);
    assert_eq!(l.query_step(&20), QueryStep::Found(1));
    assert_eq!(l.query_step(&25), QueryStep::Missing);
    assert_eq!(l.query_le_step(&25), QueryStep::Found(1));
    assert_eq!(l.query_le_step(&5), QueryStep::Missing);
    assert_eq!(l.query_le_step(&99), QueryStep::Found(2));
    let inner = DiskNode::<u32> {
        is_leaf: false,
        keys: vec![100, 200],
        value_info: Vec::new(),
        pointers: Some(vec![4096, 8192, 12288]),
    };
    assert_eq!(inner.query_step(&50), QueryStep::Descend(4096));
    assert_eq!(inner.query_step(&100), QueryStep::Descend(8192));
    assert_eq!(inner.query_step(&250), QueryStep::Descend(12288));
    let short = DiskNode::<u32> {
        is_leaf: false,
        keys: vec![100, 200],
        value_info: Vec::new(),
        pointers: Some(vec![4096, 8192]),
    };
    assert_eq!(short.query_step(&250), QueryStep::Missing);
    assert_eq!(short.query_le_step(&250), QueryStep::Descend(8192));
    let none = DiskNode::<u32> { is_leaf: false, keys: vec![1], value_info: Vec::new(), pointers: None };
    assert_eq!(none.query_step(&1), QueryStep::Missing);
}

#[test]
fn upsert_leaf_replaces_and_inserts() {
    let mut l = leaf(vec![10, 20, 30]);
    l.upsert_leaf(vec![
        (20, info(ValueStorageMode::Single(1), 7)),
        (15, info(ValueStorageMode::Single(2), 8)),
        (40, info(ValueStorageMode::Single(3), 9)),
        (15, info(ValueStorageMode::Single(4), 10)),
    ]);
    assert_eq!(l.keys, vec![10, 15, 20, 30, 40]);
    let modes: Vec<_> = l.value_info.iter().map(|i| (i.mode, i.length)).collect();
    assert_eq!(
        modes,
        vec![
            (ValueStorageMode::Single(1000), 1),
            (ValueStorageMode::Single(4), 10),
            (ValueStorageMode::Single(1), 7),
            (ValueStorageMode::Single(3000), 1),
            (ValueStorageMode::Single(3), 9),
        ]
    );
}

#[test]
fn leaf_overflow_is_halved_repeatedly() {
    let mut l = leaf((0u32..10).collect());
    let parts = l.split_leaf_overflow(3);
    // 10 -> cut at 5, 5 -> cut at 2
    assert_eq!(parts.len(), 2);
    assert_eq!(parts[0].0, 5);
    assert_eq!(parts[0].1.keys, vec![5, 6, 7, 8, 9]);
    assert_eq!(parts[1].0, 2);
    assert_eq!(parts[1].1.keys, vec![2, 3, 4]);
    assert_eq!(l.keys, vec![0, 1]);
    assert_eq!(l.value_info.len(), 2);
    let mut small = leaf(vec![1, 2]);
    assert!(small.split_leaf_overflow(3).is_empty());
    assert_eq!(small.keys, vec![1, 2]);
}

#[test]
fn inner_overflow_sends_the_middle_key_up() {
    let mut n = DiskNode::<u32> {
        is_leaf: false,
        keys: vec![10, 20, 30, 40, 50],
        value_info: Vec::new(),
        pointers: Some(vec![0, 1, 2, 3, 4, 5]),
    };
    let parts = n.split_inner_overflow(2);
    // 5 keys: key 30 goes up, [40, 50] split off; 2 keys left
    assert_eq!(parts.len(), 1);
    assert_eq!(parts[0].0, 30);
    assert_eq!(parts[0].1.keys, vec![40, 50]);
    assert_eq!(parts[0].1.pointers, Some(vec![3, 4, 5]));
    assert_eq!(n.keys, vec![10, 20]);
    assert_eq!(n.pointers, Some(vec![0, 1, 2]));
}

#[test]
fn promotions_go_in_key_order() {
    let mut n = DiskNode::<u32> {
        is_leaf: false,
        keys: vec![10, 30],
        value_info: Vec::new(),
        pointers: Some(vec![100, 300, 500]),
    };
    n.insert_promotions(vec![(20, 200), (40, 400)]);
    assert_eq!(n.keys, vec![10, 20, 30, 40]);
    assert_eq!(n.pointers, Some(vec![100, 300, 200, 500, 400]));
}

#[test]
fn ordered_leaf_check() {
    assert!(leaf(vec![1, 5, 9]).is_ordered_leaf());
    assert!(leaf(vec![]).is_ordered_leaf());
    assert!(!leaf(vec![1, 9, 5]).is_ordered_leaf());
    assert!(!leaf(vec![4, 4]).is_ordered_leaf());
    let mut short = leaf(vec![1, 2]);
    short.value_info.pop();
    assert!(!short.is_ordered_leaf());
}

#[test]
fn update_leaf_sets_infos_of_present_keys_only() {
    let mut l = leaf(vec![10, 20, 30]);
    let r = l.update_leaf(vec![
        (20, info(ValueStorageMode::Single(1), 7)),
        (10, info(ValueStorageMode::Packed(4096, 2), 8)),
        (20, info(ValueStorageMode::Single(5), 9)),
    ]);
    assert!(r.is_ok());
    assert_eq!(l.keys, vec![10, 20, 30]);
    let modes: Vec<_> = l.value_info.iter().map(|i| (i.mode, i.length)).collect();
    assert_eq!(
        modes,
        vec![
            (ValueStorageMode::Packed(4096, 2), 8),
            (ValueStorageMode::Single(5), 9),
            (ValueStorageMode::Single(3000), 1),
        ]
    );
    let mut l = leaf(vec![10, 20, 30]);
    let r = l.update_leaf(vec![(25, info(ValueStorageMode::Single(1), 7))]);
    assert!(matches!(r, Err(tuliprox_store::bplustree::BPlusTreeError::KeyNotFound)));
    assert_eq!(l.keys, vec![10, 20, 30]);
}

#[test]
fn next_group_takes_the_run_of_one_child() {
    let keys = vec![10u32, 20, 30];
    let items = vec![1u32, 5, 10, 15, 25, 40, 50];
    assert_eq!(next_group(&keys, &items, 0), (0, 2));
    assert_eq!(next_group(&keys, &items, 2), (1, 4));
    assert_eq!(next_group(&keys, &items, 4), (2, 5));
    assert_eq!(next_group(&keys, &items, 5), (3, 7));
}

#[test]
fn child_pointers_are_read_and_replaced() {
    let mut inner = DiskNode::<u32> { is_leaf: false, keys: vec![10], value_info: vec![], pointers: Some(vec![4096, 8192]) };
    assert_eq!(inner.child_at(1), Some(8192));
    assert_eq!(inner.child_at(2), None);
    inner.set_child(1, 12288);
    assert_eq!(inner.pointers, Some(vec![4096, 12288]));
    assert_eq!(leaf(vec![1]).child_at(0), None);
}

#[test]
fn root_over_puts_the_base_first() {
    let root = DiskNode::<u32>::root_over(4096, vec![(50, 8192), (90, 12288)]);
    assert!(!root.is_leaf);
    assert_eq!(root.keys, vec![50, 90]);
    assert_eq!(root.pointers, Some(vec![4096, 8192, 12288]));
    assert!(root.value_info.is_empty());
}
