//! A cache of node blocks read from a tree file, with room for a fixed
//! number of blocks; when it is full, the block used longest ago goes.
use vstd::prelude::*;
use indexmap::IndexMap;

verus! {

/// How many node blocks a lookup keeps cached.
pub const CACHE_CAPACITY: usize = 1024;

/// The insertion-ordered map of the `indexmap` crate.
#[verifier::external_type_specification]
#[verifier::external_body]
#[verifier::reject_recursive_types(K)]
#[verifier::reject_recursive_types(V)]
#[verifier::reject_recursive_types(S)]
pub struct ExIndexMap<K, V, S>(IndexMap<K, V, S>);

/// The entries of a map of block offsets to block bytes, in the map's order.
pub uninterp spec fn cached_blocks(m: IndexMap<u64, Vec<u8>>) -> Seq<(u64, Seq<u8>)>;

/// No offset is in two entries.
pub open spec fn offsets_distinct(s: Seq<(u64, Seq<u8>)>) -> bool {
    forall|i: int, j: int| 0 <= i < j < s.len() ==> (#[trigger] s[i]).0 != (#[trigger] s[j]).0
}

/// The position of the entry for `offset`, if there is one.
pub open spec fn offset_pos(s: Seq<(u64, Seq<u8>)>, offset: u64) -> Option<int> {
    if exists|i: int| 0 <= i < s.len() && #[trigger] s[i].0 == offset {
        Some(choose|i: int| 0 <= i < s.len() && #[trigger] s[i].0 == offset)
    } else {
        None
    }
}

/// Calls `IndexMap::new`: a map with no entries.
#[verifier::external_body]
fn index_map_new() -> (r: IndexMap<u64, Vec<u8>>)
    ensures
        cached_blocks(r) == Seq::<(u64, Seq<u8>)>::empty(),
{
    IndexMap::new()
}

/// Calls `IndexMap::len`: the number of entries.
#[verifier::external_body]
fn index_map_len(m: &IndexMap<u64, Vec<u8>>) -> (r: usize)
    ensures
        r == cached_blocks(*m).len(),
{
    m.len()
}

/// Calls `IndexMap::shift_remove`: removes the entry of `key`, the entries
/// after it keeping their order, and gives its value; `None` where there
/// is no such entry, the map unchanged.
#[verifier::external_body]
fn index_map_shift_remove(m: &mut IndexMap<u64, Vec<u8>>, key: u64) -> (r: Option<Vec<u8>>)
    requires
        offsets_distinct(cached_blocks(*old(m))),
    ensures
        offsets_distinct(cached_blocks(*final(m))),
        match offset_pos(cached_blocks(*old(m)), key) {
            Some(i) => r matches Some(v) && v@ == cached_blocks(*old(m))[i].1 && cached_blocks(*final(m))
                == cached_blocks(*old(m)).remove(i),
            None => r is None && cached_blocks(*final(m)) == cached_blocks(*old(m)),
        },
{
    m.shift_remove(&key)
}

/// Calls `IndexMap::insert`: an entry of `key` already there keeps its
/// place and gets `value`, giving the old value; else the entry goes last.
#[verifier::external_body]
fn index_map_insert(m: &mut IndexMap<u64, Vec<u8>>, key: u64, value: Vec<u8>) -> (r: Option<Vec<u8>>)
    requires
        offsets_distinct(cached_blocks(*old(m))),
    ensures
        offsets_distinct(cached_blocks(*final(m))),
        match offset_pos(cached_blocks(*old(m)), key) {
            Some(i) => r matches Some(v) && v@ == cached_blocks(*old(m))[i].1 && cached_blocks(*final(m))
                == cached_blocks(*old(m)).update(i, (key, value@)),
            None => r is None && cached_blocks(*final(m)) == cached_blocks(*old(m)).push((key, value@)),
        },
{
    m.insert(key, value)
}

/// Calls `IndexMap::shift_remove_index`: removes the entry at `index`, the
/// entries after it keeping their order; `None` where there is no such entry.
#[verifier::external_body]
fn index_map_shift_remove_index(m: &mut IndexMap<u64, Vec<u8>>, index: usize) -> (r: Option<(u64, Vec<u8>)>)
    requires
        offsets_distinct(cached_blocks(*old(m))),
    ensures
        offsets_distinct(cached_blocks(*final(m))),
        index < cached_blocks(*old(m)).len() ==> (r matches Some((k, v)) && k == cached_blocks(
            *old(m),
        )[index as int].0 && v@ == cached_blocks(*old(m))[index as int].1 && cached_blocks(*final(m))
            == cached_blocks(*old(m)).remove(index as int)),
        index >= cached_blocks(*old(m)).len() ==> (r is None && cached_blocks(*final(m))
            == cached_blocks(*old(m))),
{
    m.shift_remove_index(index)
}

/// The blocks after `offset` was put in with `data`: when the cache is
/// full, the block used longest ago goes first; a block already there keeps
/// its place and gets the new bytes, another goes last.
pub open spec fn blocks_after_put(s: Seq<(u64, Seq<u8>)>, capacity: int, offset: u64, data: Seq<u8>) -> Seq<(u64, Seq<u8>)> {
    let s1 = if s.len() >= capacity && s.len() > 0 {
        s.drop_first()
    } else {
        s
    };
    match offset_pos(s1, offset) {
        Some(i) => s1.update(i, (offset, data)),
        None => s1.push((offset, data)),
    }
}

/// A cache of block bytes by their offset in the file.
pub struct BlockCache {
    map: IndexMap<u64, Vec<u8>>,
    capacity: usize,
}

impl BlockCache {
    /// The cached blocks, the one used longest ago first.
    pub closed spec fn blocks(&self) -> Seq<(u64, Seq<u8>)> {
        cached_blocks(self.map)
    }

    /// How many blocks the cache holds at most.
    pub closed spec fn room(&self) -> int {
        self.capacity as int
    }

    /// The cache holds each offset once and no more blocks than it has room for.
    pub closed spec fn wf(&self) -> bool {
        &&& offsets_distinct(self.blocks())
        &&& self.blocks().len() <= self.capacity
        &&& self.capacity >= 1
    }

    /// An empty cache with room for `capacity` blocks.
    pub fn new(capacity: usize) -> (r: Self)
        requires
            capacity >= 1,
        ensures
            r.wf(),
            r.blocks() == Seq::<(u64, Seq<u8>)>::empty(),
            r.room() == capacity,
    {
        BlockCache { map: index_map_new(), capacity }
    }

    /// The number of cached blocks.
    pub fn len(&self) -> (r: usize)
        ensures
            r == self.blocks().len(),
    {
        index_map_len(&self.map)
    }

    /// Takes the block at `offset` out of the cache, if it is there; the
    /// caller puts it back once it has used it, which makes it the block
    /// used last.
    pub fn take(&mut self, offset: u64) -> (r: Option<Vec<u8>>)
        requires
            old(self).wf(),
        ensures
            final(self).wf(),
            final(self).room() == old(self).room(),
            match offset_pos(old(self).blocks(), offset) {
                Some(i) => r matches Some(v) && v@ == old(self).blocks()[i].1 && final(self).blocks()
                    == old(self).blocks().remove(i),
                None => r is None && final(self).blocks() == old(self).blocks(),
            },
    {
        index_map_shift_remove(&mut self.map, offset)
    }

    /// Puts the block at `offset` into the cache, making room first when
    /// it is full.
    pub fn put(&mut self, offset: u64, data: Vec<u8>)
        requires
            old(self).wf(),
        ensures
            final(self).wf(),
            final(self).room() == old(self).room(),
            final(self).blocks() == blocks_after_put(old(self).blocks(), old(self).room(), offset, data@),
    {
        let ghost d = data@;
        if index_map_len(&self.map) >= self.capacity {
            let _ = index_map_shift_remove_index(&mut self.map, 0);
        }
        let ghost s1 = cached_blocks(self.map);
        let _ = index_map_insert(&mut self.map, offset, data);
        proof {
            match offset_pos(s1, offset) {
                Some(i) => {},
                None => {
                    assert(s1.len() < self.capacity);
                },
            }
        }
    }
}

/// What a read gives back of a put: right after a block was put in, the
/// cache holds it under its offset, and still holds no more than it has
/// room for.
pub proof fn lemma_put_then_find(s: Seq<(u64, Seq<u8>)>, capacity: int, offset: u64, data: Seq<u8>)
    requires
        offsets_distinct(s),
        s.len() <= capacity,
        capacity >= 1,
    ensures
        ({
            let t = blocks_after_put(s, capacity, offset, data);
            &&& offset_pos(t, offset) matches Some(i) && t[i] == (offset, data)
            &&& t.len() <= capacity
        }),
{
    let s1 = if s.len() >= capacity && s.len() > 0 {
        s.drop_first()
    } else {
        s
    };
    let t = blocks_after_put(s, capacity, offset, data);
    assert(offsets_distinct(s1)) by {
        assert forall|i: int, j: int| 0 <= i < j < s1.len() implies (#[trigger] s1[i]).0 != (#[trigger] s1[j]).0 by {
            if s.len() >= capacity && s.len() > 0 {
                assert(s1[i] == s[i + 1] && s1[j] == s[j + 1]);
            }
        }
    }
    match offset_pos(s1, offset) {
        Some(i) => {
            assert(t[i] == (offset, data));
            assert(offsets_distinct(t)) by {
                assert forall|a: int, b: int| 0 <= a < b < t.len() implies (#[trigger] t[a]).0 != (#[trigger] t[b]).0 by {
                    if a != i && b != i {
                        assert(t[a] == s1[a] && t[b] == s1[b]);
                    } else if a == i {
                        assert(t[b] == s1[b]);
                    } else {
                        assert(t[a] == s1[a]);
                    }
                }
            }
            assert(t[i].0 == offset);
            assert(exists|k: int| 0 <= k < t.len() && #[trigger] t[k].0 == offset);
            let k = choose|k: int| 0 <= k < t.len() && #[trigger] t[k].0 == offset;
            assert(t[k].0 == offset);
            if k < i {
                assert(t[k].0 != t[i].0);
            } else if i < k {
                assert(t[i].0 != t[k].0);
            }
        },
        None => {
            let n = s1.len() as int;
            assert(t[n] == (offset, data));
            assert(t[n].0 == offset);
            assert(exists|k: int| 0 <= k < t.len() && #[trigger] t[k].0 == offset);
            let k = choose|k: int| 0 <= k < t.len() && #[trigger] t[k].0 == offset;
            if k != n {
                assert(t[k] == s1[k]);
                assert(false);
            }
        },
    }
}

} // verus!
