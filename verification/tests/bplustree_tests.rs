use tuliprox_store::bplustree::{calc_order, get_entry_index_upper_bound, BPlusTree, BPlusTreeError};
use tuliprox_store::page::PageError;
use tuliprox_store::tree_format::{node_block_size, ValueInfo, ValueStorageMode, BLOCK_SIZE};

#[derive(Debug, Clone, PartialEq, Eq)]
struct Record {
    id: u32,
    data: String,
}

#[test]
fn insert_duplicate_test() {
    let content = "Entry";
    let mut tree = BPlusTree::<u32, Record>::new();
    for i in 0u32..=500 {
        tree.insert(i, Record { id: i, data: format!("{content} {i}") });
    }
    for i in 0u32..=500 {
        tree.insert(i, Record { id: i, data: format!("{content} {}", i + 1) });
    }

    for (keys, values) in tree.traverse() {
        keys.iter().zip(values.iter()).for_each(|(k, v)| {
            assert!(format!("{content} {}", k + 1).eq(&v.data), "Wrong entry");
        });
    }
}

#[test]
fn test_node_serialization_overhead() {
    // Simulate a leaf node with u32 keys and ValueInfo
    let key_counts = [10u32, 30, 50, 80, 100];

    for count in key_counts {
        let keys: Vec<u32> = (0..count).collect();
        let value_info: Vec<ValueInfo> = (0..count)
            .map(|i| ValueInfo {
                mode: ValueStorageMode::Packed(i as u64 * 4096, (i % 16) as u16),
                length: 100,
                compressed_cache: None,
            })
            .collect();

        let keys_serialized = serde_json::to_vec(&keys).unwrap();
        let info_tuples: Vec<(u8, u64, u16, u32)> = value_info
            .iter()
            .map(|v| match v.mode {
                ValueStorageMode::Packed(o, idx) => (1u8, o, idx, v.length),
                ValueStorageMode::Single(o) => (0u8, o, 0, v.length),
            })
            .collect();
        let info_serialized = serde_json::to_vec(&info_tuples).unwrap();

        // Total content: flag(1) + keys_len(4) + keys + info_len(4) + info
        let total = 1 + 4 + keys_serialized.len() + 4 + info_serialized.len();
        let fits_in_block = total <= BLOCK_SIZE;
        let blocks = node_block_size(keys_serialized.len(), info_serialized.len());
        assert_eq!(blocks as usize % BLOCK_SIZE, 0);
        assert_eq!(fits_in_block, blocks as usize == BLOCK_SIZE);

        println!(
            "Keys={}: keys_bytes={}, info_bytes={}, total={}, fits_in_block={}",
            count,
            keys_serialized.len(),
            info_serialized.len(),
            total,
            fits_in_block
        );
    }
}

#[test]
fn insert_then_query_finds_every_key() {
    let mut tree = BPlusTree::<u64, u64>::new();
    assert!(tree.is_empty());
    assert_eq!(tree.len(), 0);
    for i in 0u64..2000 {
        tree.insert((i * 7919) % 2000, i);
    }
    assert!(!tree.is_empty());
    assert_eq!(tree.len(), 2000);
    for i in 0u64..2000 {
        let k = (i * 7919) % 2000;
        assert_eq!(tree.query(&k), Some(&i));
    }
    assert_eq!(tree.query(&5000), None);
}

#[test]
fn read_after_write_replaces_only_the_written_key() {
    let mut tree = BPlusTree::<u32, String>::new();
    tree.insert(1, "one".to_string());
    tree.insert(2, "two".to_string());
    tree.insert(1, "uno".to_string());
    assert_eq!(tree.query(&1).map(String::as_str), Some("uno"));
    assert_eq!(tree.query(&2).map(String::as_str), Some("two"));
    assert_eq!(tree.len(), 2);
}

#[test]
fn iteration_gives_entries_in_key_order() {
    let mut tree = BPlusTree::<i64, i64>::new();
    for i in (-300i64..300).rev() {
        tree.insert(i, i * 2);
    }
    let mut it = tree.iter();
    let mut expected = -300i64;
    while let Some((k, v)) = it.next() {
        assert_eq!(*k, expected);
        assert_eq!(*v, expected * 2);
        expected += 1;
    }
    assert_eq!(expected, 300);
    assert!(it.next().is_none());
}

#[test]
fn traverse_gives_the_leaves_in_key_order() {
    let mut tree = BPlusTree::<u16, u16>::new();
    for i in 0u16..1000 {
        tree.insert(999 - i, i);
    }
    let mut all = Vec::new();
    for (keys, values) in tree.traverse() {
        assert_eq!(keys.len(), values.len());
        for (k, v) in keys.iter().zip(values.iter()) {
            all.push((*k, *v));
        }
    }
    assert_eq!(all.len(), 1000);
    for (i, (k, v)) in all.iter().enumerate() {
        assert_eq!(*k as usize, i);
        assert_eq!(*v as usize, 999 - i);
    }
}

#[test]
fn find_le_gives_the_greatest_key_at_most() {
    let mut tree = BPlusTree::<u32, u32>::new();
    assert_eq!(tree.find_le(&10), None);
    for i in 1u32..=400 {
        tree.insert(i * 10, i);
    }
    assert_eq!(tree.find_le(&5), None);
    assert_eq!(tree.find_le(&10), Some((&10, &1)));
    assert_eq!(tree.find_le(&15), Some((&10, &1)));
    assert_eq!(tree.find_le(&1999), Some((&1990, &199)));
    assert_eq!(tree.find_le(&100000), Some((&4000, &400)));
}

#[test]
fn orders_follow_the_key_size() {
    assert_eq!(calc_order::<u32>(), ((4096 - 73) / (4 + 8 + 22), (4096 - 73) / (4 + 12 + 22)));
    assert_eq!(calc_order::<u64>(), ((4096 - 73) / (8 + 8 + 22), (4096 - 73) / (8 + 12 + 22)));
    assert_eq!(calc_order::<[u8; 4096]>(), (2, 2));
}

#[test]
fn tree_error_messages_and_io_conversion() {
    assert_eq!(BPlusTreeError::KeyNotFound.message(), "Key not found");
    assert_eq!(BPlusTreeError::Corrupted("bad".to_string()).message(), "Data corrupted: bad");
    assert_eq!(
        BPlusTreeError::InvalidStructure("no child".to_string()).message(),
        "Invalid structure: no child"
    );
    let e = BPlusTreeError::KeyNotFound.to_io();
    assert_eq!(e.kind(), std::io::ErrorKind::NotFound);
    assert_eq!(e.to_string(), "Key not found");
    let e = BPlusTreeError::Corrupted("bad".to_string()).to_io();
    assert_eq!(e.kind(), std::io::ErrorKind::InvalidData);
    assert_eq!(e.to_string(), "Data corrupted: bad");
    let e = BPlusTreeError::from(std::io::Error::new(std::io::ErrorKind::PermissionDenied, "x")).to_io();
    assert_eq!(e.kind(), std::io::ErrorKind::PermissionDenied);
}

#[test]
fn page_errors_become_tree_errors() {
    assert!(matches!(
        BPlusTreeError::from_page_error(PageError::Corrupted),
        BPlusTreeError::Corrupted(m) if m == "Page data corrupted"
    ));
    assert!(matches!(
        BPlusTreeError::from_page_error(PageError::NoSpace),
        BPlusTreeError::InvalidStructure(m) if m == "NoSpace"
    ));
    assert!(matches!(
        BPlusTreeError::from_page_error(PageError::InvalidIndex),
        BPlusTreeError::InvalidStructure(m) if m == "InvalidIndex"
    ));
}

#[test]
fn upper_bound_steps_over_equal_keys() {
    let keys = [10u32, 20, 20, 30];
    assert_eq!(get_entry_index_upper_bound(&keys, &20), 3);
    assert_eq!(get_entry_index_upper_bound(&keys, &5), 0);
    assert_eq!(get_entry_index_upper_bound(&keys, &25), 3);
    assert_eq!(get_entry_index_upper_bound(&keys, &30), 4);
}

#[test]
fn last_insert_of_a_key_wins() {
    let mut tree = BPlusTree::<u32, u32>::new();
    let items = [(5u32, 1u32), (3, 2), (5, 3), (9, 4), (3, 5), (5, 6)];
    for (k, v) in items {
        tree.insert(k, v);
    }
    assert_eq!(tree.len(), 3);
    assert_eq!(tree.query(&5), Some(&6));
    assert_eq!(tree.query(&3), Some(&5));
    assert_eq!(tree.query(&9), Some(&4));
    assert_eq!(tree.query(&4), None);
}

#[test]
fn traverse_gives_as_many_values_as_keys_per_leaf() {
    let mut tree = BPlusTree::<u32, u32>::new();
    for i in 0u32..2000 {
        tree.insert(i, i * 2);
    }
    let mut next = 0u32;
    for (keys, values) in tree.traverse() {
        assert_eq!(keys.len(), values.len());
        for (k, v) in keys.iter().zip(values.iter()) {
            assert_eq!(*k, next);
            assert_eq!(*v, next * 2);
            next += 1;
        }
    }
    assert_eq!(next, 2000);
}
