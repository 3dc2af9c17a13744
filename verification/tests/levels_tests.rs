use tuliprox_store::levels::build_levels;
use tuliprox_store::tree_format::TreeFormatError;

#[test]
fn levels_group_children_until_one_root() {
    let leaves: Vec<(u32, u64)> = (0..7u32).map(|i| (i * 10, 100 + u64::from(i))).collect();
    let (nodes, root) = build_levels(&leaves, 8192, 3).unwrap();
    assert_eq!(nodes.len(), 4);
    assert_eq!(nodes[0].keys, vec![10, 20]);
    assert_eq!(nodes[0].pointers, vec![100, 101, 102]);
    assert_eq!(nodes[0].offset, 8192);
    assert_eq!(nodes[1].keys, vec![40, 50]);
    assert_eq!(nodes[1].offset, 8192 + 4096);
    assert_eq!(nodes[2].keys, Vec::<u32>::new());
    assert_eq!(nodes[2].pointers, vec![106]);
    assert_eq!(nodes[3].keys, vec![30, 60]);
    assert_eq!(nodes[3].pointers, vec![8192, 8192 + 4096, 8192 + 2 * 4096]);
    assert_eq!(root, 8192 + 3 * 4096);
}

#[test]
fn one_leaf_is_its_own_root_and_none_gives_the_start() {
    let (nodes, root) = build_levels(&vec![(5u32, 4096u64)], 9000, 3).unwrap();
    assert!(nodes.is_empty());
    assert_eq!(root, 4096);
    let (nodes, root) = build_levels(&Vec::<(u32, u64)>::new(), 9000, 3).unwrap();
    assert!(nodes.is_empty());
    assert_eq!(root, 9000);
}

#[test]
fn levels_past_the_largest_offset_fail() {
    let leaves = vec![(1u32, 0u64), (2, 1)];
    assert!(matches!(build_levels(&leaves, u64::MAX - 10, 3), Err(TreeFormatError::OffsetOverflow)));
}
