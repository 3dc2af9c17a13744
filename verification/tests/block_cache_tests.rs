use tuliprox_store::block_cache::BlockCache;

#[test]
fn put_then_take_finds_the_block() {
    let mut c = BlockCache::new(2);
    c.put(4096, vec![1, 2, 3]);
    assert_eq!(c.len(), 1);
    assert_eq!(c.take(4096), Some(vec![1, 2, 3]));
    assert_eq!(c.len(), 0);
    assert_eq!(c.take(4096), None);
}

#[test]
fn full_cache_drops_the_block_used_longest_ago() {
    let mut c = BlockCache::new(2);
    c.put(1, vec![1]);
    c.put(2, vec![2]);
    // using block 1 makes it the latest
    let b = c.take(1).unwrap();
    c.put(1, b);
    c.put(3, vec![3]);
    assert_eq!(c.len(), 2);
    assert_eq!(c.take(2), None);
    assert_eq!(c.take(1), Some(vec![1]));
    assert_eq!(c.take(3), Some(vec![3]));
}

#[test]
fn putting_a_cached_offset_replaces_its_bytes() {
    let mut c = BlockCache::new(3);
    c.put(7, vec![0]);
    c.put(8, vec![8]);
    c.put(7, vec![9]);
    assert_eq!(c.len(), 2);
    assert_eq!(c.take(7), Some(vec![9]));
}
