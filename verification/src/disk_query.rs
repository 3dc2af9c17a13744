//! Lookups in the tree file, one node at a time: the caller reads the node
//! at an offset, decodes it, and asks here where to go next.
use vstd::prelude::*;
use crate::bplustree::{binary_search_key, keys_sorted, BPlusTreeError};
use crate::keys::{
    at, floor_entry, insert_entry, lemma_filter_prefix, lemma_insert_entry_map, lemma_read_after_write,
    lemma_sorted_split, lookup, sorted, upto, TreeKey,
};
use crate::tree_format::ValueInfo;

verus! {

/// A node as read from the tree file, its keys decoded: a leaf with the
/// infos of its values, or an inner node with the offsets of its children.
pub struct DiskNode<K> {
    pub is_leaf: bool,
    pub keys: Vec<K>,
    pub value_info: Vec<ValueInfo>,
    pub pointers: Option<Vec<u64>>,
}

/// What a lookup does after reading a node.
#[derive(Debug, Clone, Copy, PartialEq, Eq, Structural)]
pub enum QueryStep {
    /// The value is the one of value info number `i` of the leaf.
    Found(usize),
    /// The tree holds no value for the lookup.
    Missing,
    /// The lookup goes on at the node at this offset.
    Descend(u64),
}

/// The number of keys ranked at most `r`.
pub open spec fn count_upto<K: TreeKey>(keys: Seq<K>, r: int) -> int
    decreases keys.len(),
{
    if keys.len() == 0 {
        0
    } else {
        count_upto(keys.drop_last(), r) + if keys.last().rank() <= r {
            1int
        } else {
            0int
        }
    }
}

/// The step of an exact lookup of `key` at a node: in a leaf, the value
/// info of the key if the key is there and has one; in an inner node, the
/// child after the keys ranked at most `key`.
pub open spec fn query_step_spec<K: TreeKey>(
    is_leaf: bool,
    keys: Seq<K>,
    info_count: int,
    pointers: Option<Seq<u64>>,
    key: K,
) -> QueryStep {
    let c = count_upto(keys, key.rank());
    if is_leaf {
        if c > 0 && keys[c - 1].rank() == key.rank() && c - 1 < info_count {
            QueryStep::Found((c - 1) as usize)
        } else {
            QueryStep::Missing
        }
    } else {
        match pointers {
            Some(p) => if c < p.len() {
                QueryStep::Descend(p[c])
            } else {
                QueryStep::Missing
            },
            None => QueryStep::Missing,
        }
    }
}

/// The step of a lookup of the greatest key at most `key`: in a leaf, the
/// value info of the last key ranked at most `key`; in an inner node, the
/// child after those keys, or the last child where there is no such child.
pub open spec fn query_le_step_spec<K: TreeKey>(
    is_leaf: bool,
    keys: Seq<K>,
    info_count: int,
    pointers: Option<Seq<u64>>,
    key: K,
) -> QueryStep {
    let c = count_upto(keys, key.rank());
    if is_leaf {
        if c > 0 && c - 1 < info_count {
            QueryStep::Found((c - 1) as usize)
        } else {
            QueryStep::Missing
        }
    } else {
        match pointers {
            Some(p) => if c < p.len() {
                QueryStep::Descend(p[c])
            } else if p.len() > 0 {
                QueryStep::Descend(p.last())
            } else {
                QueryStep::Missing
            },
            None => QueryStep::Missing,
        }
    }
}

/// The pointers of a node as a sequence.
pub open spec fn pointer_view(p: Option<Vec<u64>>) -> Option<Seq<u64>> {
    match p {
        Some(v) => Some(v@),
        None => None,
    }
}

/// In sorted keys, the keys ranked at most `r` are the first ones.
pub proof fn lemma_count_upto_prefix<K: TreeKey>(keys: Seq<K>, r: int, p: int)
    requires
        0 <= p <= keys.len(),
        forall|i: int| 0 <= i < p ==> #[trigger] keys[i].rank() <= r,
        forall|i: int| p <= i < keys.len() ==> #[trigger] keys[i].rank() > r,
    ensures
        count_upto(keys, r) == p,
    decreases keys.len(),
{
    if keys.len() > 0 {
        let d = keys.drop_last();
        if p == keys.len() {
            lemma_count_upto_prefix(d, r, p - 1);
        } else {
            lemma_count_upto_prefix(d, r, p);
        }
    }
}

/// In sorted keys, the keys ranked at most `r` are the first ones: the
/// first `count_upto` keys are ranked at most `r`, the others above it.
pub proof fn lemma_count_upto_split<K: TreeKey>(keys: Seq<K>, r: int)
    requires
        keys_sorted(keys),
    ensures
        0 <= count_upto(keys, r) <= keys.len(),
        forall|i: int| 0 <= i < count_upto(keys, r) ==> #[trigger] keys[i].rank() <= r,
        forall|i: int| count_upto(keys, r) <= i < keys.len() ==> #[trigger] keys[i].rank() > r,
    decreases keys.len(),
{
    if keys.len() > 0 {
        let d = keys.drop_last();
        let n = keys.len() - 1;
        assert(keys_sorted(d)) by {
            assert forall|i: int, j: int| 0 <= i < j < d.len() implies #[trigger] d[i].rank()
                < #[trigger] d[j].rank() by {
                assert(d[i] == keys[i] && d[j] == keys[j]);
            }
        }
        lemma_count_upto_split(d, r);
        let cd = count_upto(d, r);
        if keys.last().rank() <= r {
            if cd < n {
                assert(d[cd] == keys[cd]);
                assert(keys[cd].rank() < keys[n].rank());
            }
            assert(count_upto(keys, r) == n + 1);
        } else {
            assert(count_upto(keys, r) == cd);
        }
        assert forall|i: int| 0 <= i < count_upto(keys, r) implies #[trigger] keys[i].rank() <= r by {
            if i < n {
                assert(keys[i] == d[i]);
            }
        }
        assert forall|i: int| count_upto(keys, r) <= i < keys.len() implies #[trigger] keys[i].rank() > r by {
            if i < n {
                assert(keys[i] == d[i]);
            }
        }
    }
}

/// The position after the keys ranked at most `key`, found by binary
/// search; on keys that are not sorted it is some position up to their number.
fn upper_bound<K: TreeKey>(keys: &[K], key: &K) -> (r: usize)
    ensures
        r <= keys@.len(),
        keys_sorted(keys@) ==> r == count_upto(keys@, key.rank()),
{
    let mut left: usize = 0;
    let mut right: usize = keys.len();
    while left < right
        invariant
            left <= right <= keys@.len(),
            keys_sorted(keys@) ==> forall|i: int| 0 <= i < left ==> #[trigger] keys@[i].rank() <= key.rank(),
            keys_sorted(keys@) ==> forall|i: int|
                right <= i < keys@.len() ==> #[trigger] keys@[i].rank() > key.rank(),
        decreases right - left,
    {
        let mid = left + (right - left) / 2;
        if !key.key_lt(&keys[mid]) {
            proof {
                if keys_sorted(keys@) {
                    assert forall|i: int| 0 <= i < mid + 1 implies #[trigger] keys@[i].rank() <= key.rank() by {
                        if i < mid {
                            assert(keys@[i].rank() < keys@[mid as int].rank());
                        }
                    }
                }
            }
            left = mid + 1;
        } else {
            proof {
                if keys_sorted(keys@) {
                    assert forall|i: int| mid <= i < keys@.len() implies #[trigger] keys@[i].rank() > key.rank() by {
                        if i > mid {
                            assert(keys@[mid as int].rank() < keys@[i].rank());
                        }
                    }
                }
            }
            right = mid;
        }
    }
    proof {
        if keys_sorted(keys@) {
            lemma_count_upto_prefix(keys@, key.rank(), left as int);
        }
    }
    left
}

impl<K: TreeKey> DiskNode<K> {
    /// Where an exact lookup of `key` goes from this node. On a node whose
    /// keys are not sorted (a damaged file) the step is some step the node
    /// allows: a value info it has, or one of its child offsets.
    pub fn query_step(&self, key: &K) -> (r: QueryStep)
        ensures
            keys_sorted(self.keys@) ==> r == query_step_spec(
                self.is_leaf,
                self.keys@,
                self.value_info@.len() as int,
                pointer_view(self.pointers),
                *key,
            ),
            r matches QueryStep::Found(i) ==> self.is_leaf && i < self.value_info@.len()
                && self.keys@[i as int].rank() == key.rank(),
            r matches QueryStep::Descend(o) ==> !self.is_leaf && (self.pointers matches Some(p)
                && p@.contains(o)),
            keys_sorted(self.keys@) && self.is_leaf && self.keys@.len() == self.value_info@.len() ==> lookup(
                self.leaf_entries(),
                *key,
            ) == match r {
                QueryStep::Found(i) => Some(self.value_info@[i as int]),
                _ => None,
            },
            keys_sorted(self.keys@) && !self.is_leaf && self.pointers is Some && self.pointers->0@.len()
                == self.keys@.len() + 1 ==> r == QueryStep::Descend(
                self.pointers->0@[child_of(self.keys@, *key)],
            ),
    {
        proof {
            if keys_sorted(self.keys@) {
                if self.is_leaf && self.keys@.len() == self.value_info@.len() {
                    assert(self.keys@.len() == self.keys.len());
                    lemma_query_step_leaf(self.keys@, self.value_info@, pointer_view(self.pointers), *key);
                }
                if self.pointers is Some && self.pointers->0@.len() == self.keys@.len() + 1 {
                    lemma_query_le_step_inner(
                        self.keys@,
                        self.value_info@.len() as int,
                        self.pointers->0@,
                        *key,
                    );
                }
            }
        }
        let c = upper_bound(self.keys.as_slice(), key);
        if self.is_leaf {
            if c > 0 && self.keys[c - 1].key_eq(key) && c - 1 < self.value_info.len() {
                QueryStep::Found(c - 1)
            } else {
                QueryStep::Missing
            }
        } else {
            match &self.pointers {
                Some(p) => {
                    if c < p.len() {
                        proof {
                            assert(p@[c as int] == p@[c as int]);
                        }
                        QueryStep::Descend(p[c])
                    } else {
                        QueryStep::Missing
                    }
                },
                None => QueryStep::Missing,
            }
        }
    }

    /// Where a lookup of the greatest key at most `key` goes from this
    /// node. On a node whose keys are not sorted the step is some step the
    /// node allows.
    pub fn query_le_step(&self, key: &K) -> (r: QueryStep)
        ensures
            keys_sorted(self.keys@) ==> r == query_le_step_spec(
                self.is_leaf,
                self.keys@,
                self.value_info@.len() as int,
                pointer_view(self.pointers),
                *key,
            ),
            r matches QueryStep::Found(i) ==> self.is_leaf && i < self.value_info@.len(),
            r matches QueryStep::Descend(o) ==> !self.is_leaf && (self.pointers matches Some(p)
                && p@.contains(o)),
            keys_sorted(self.keys@) && self.is_leaf && self.keys@.len() == self.value_info@.len() ==> (
            match r {
                QueryStep::Found(i) => floor_entry(self.leaf_entries(), *key) == Some(
                    (self.keys@[i as int], self.value_info@[i as int]),
                ),
                _ => floor_entry(self.leaf_entries(), *key) is None,
            }),
            keys_sorted(self.keys@) && self.is_leaf && self.keys@.len() == self.value_info@.len() ==> forall|i: int|
                0 <= i < self.keys@.len() && #[trigger] self.keys@[i].rank() == key.rank() ==> r
                    == QueryStep::Found(i as usize),
            keys_sorted(self.keys@) && !self.is_leaf && self.pointers is Some && self.pointers->0@.len()
                == self.keys@.len() + 1 ==> r == QueryStep::Descend(
                self.pointers->0@[child_of(self.keys@, *key)],
            ),
    {
        proof {
            if keys_sorted(self.keys@) {
                if self.is_leaf && self.keys@.len() == self.value_info@.len() {
                    assert(self.keys@.len() == self.keys.len());
                    lemma_query_le_step_leaf(self.keys@, self.value_info@, pointer_view(self.pointers), *key);
                }
                if self.pointers is Some && self.pointers->0@.len() == self.keys@.len() + 1 {
                    lemma_query_le_step_inner(
                        self.keys@,
                        self.value_info@.len() as int,
                        self.pointers->0@,
                        *key,
                    );
                }
            }
        }
        let c = upper_bound(self.keys.as_slice(), key);
        if self.is_leaf {
            if c == 0 {
                QueryStep::Missing
            } else if c - 1 < self.value_info.len() {
                QueryStep::Found(c - 1)
            } else {
                QueryStep::Missing
            }
        } else {
            match &self.pointers {
                Some(p) => {
                    if c < p.len() {
                        proof {
                            assert(p@[c as int] == p@[c as int]);
                        }
                        QueryStep::Descend(p[c])
                    } else if p.len() > 0 {
                        proof {
                            assert(p@[p@.len() - 1] == p@.last());
                        }
                        QueryStep::Descend(p[p.len() - 1])
                    } else {
                        QueryStep::Missing
                    }
                },
                None => QueryStep::Missing,
            }
        }
    }
}

/// A floor lookup in a leaf whose keys are sorted and each have a value
/// info: the step finds the entry with the greatest key at most `key`, or
/// nothing where every key is above `key`; a key the leaf holds is found at
/// its own position, and the step never leaves the leaf.
pub proof fn lemma_query_le_step_leaf<K: TreeKey>(
    keys: Seq<K>,
    infos: Seq<ValueInfo>,
    pointers: Option<Seq<u64>>,
    key: K,
)
    requires
        keys_sorted(keys),
        keys.len() == infos.len(),
        keys.len() <= usize::MAX,
    ensures
        ({
            let r = query_le_step_spec(true, keys, infos.len() as int, pointers, key);
            let es = zip_entries(keys, infos);
            &&& r !is Descend
            &&& r matches QueryStep::Found(i) ==> {
                &&& i < keys.len()
                &&& keys[i as int].rank() <= key.rank()
                &&& forall|j: int| i < j < keys.len() ==> #[trigger] keys[j].rank() > key.rank()
                &&& floor_entry(es, key) == Some((keys[i as int], infos[i as int]))
            }
            &&& r is Missing ==> {
                &&& forall|j: int| 0 <= j < keys.len() ==> #[trigger] keys[j].rank() > key.rank()
                &&& floor_entry(es, key) is None
            }
            &&& forall|i: int|
                0 <= i < keys.len() && #[trigger] keys[i].rank() == key.rank() ==> r == QueryStep::Found(
                    i as usize,
                )
        }),
{
    let rk = key.rank();
    let c = count_upto(keys, rk);
    let es = zip_entries(keys, infos);
    lemma_count_upto_split(keys, rk);
    assert forall|i: int| 0 <= i < c implies (#[trigger] upto::<K, ValueInfo>(rk))(es[i]) by {
        assert(es[i].0 == keys[i]);
    }
    assert forall|i: int| c <= i < es.len() implies !(#[trigger] upto::<K, ValueInfo>(rk))(es[i]) by {
        assert(es[i].0 == keys[i]);
    }
    lemma_filter_prefix(es, upto::<K, ValueInfo>(rk), c);
    if c > 0 {
        assert(es.subrange(0, c).last() == es[c - 1]);
    }
    assert forall|i: int| 0 <= i < keys.len() && #[trigger] keys[i].rank() == rk implies query_le_step_spec(
        true,
        keys,
        infos.len() as int,
        pointers,
        key,
    ) == QueryStep::Found(i as usize) by {
        if i >= c {
            assert(keys[i].rank() > rk);
        }
        if i < c - 1 {
            assert(keys[i].rank() < keys[c - 1].rank());
        }
    }
}

/// An exact lookup in a leaf whose keys are sorted and each have a value
/// info: the step finds the value info of `key` where the leaf holds it,
/// at the key's own position, and nothing where it does not.
pub proof fn lemma_query_step_leaf<K: TreeKey>(
    keys: Seq<K>,
    infos: Seq<ValueInfo>,
    pointers: Option<Seq<u64>>,
    key: K,
)
    requires
        keys_sorted(keys),
        keys.len() == infos.len(),
        keys.len() <= usize::MAX,
    ensures
        ({
            let r = query_step_spec(true, keys, infos.len() as int, pointers, key);
            &&& r !is Descend
            &&& forall|i: int|
                0 <= i < keys.len() && #[trigger] keys[i].rank() == key.rank() ==> r == QueryStep::Found(
                    i as usize,
                )
            &&& r is Missing ==> forall|j: int| 0 <= j < keys.len() ==> #[trigger] keys[j].rank() != key.rank()
            &&& lookup(zip_entries(keys, infos), key) == match r {
                QueryStep::Found(i) => Some(infos[i as int]),
                _ => None,
            }
        }),
{
    let rk = key.rank();
    let c = count_upto(keys, rk);
    let es = zip_entries(keys, infos);
    lemma_count_upto_split(keys, rk);
    lemma_zip_sorted(keys, infos);
    let pos = if c > 0 && keys[c - 1].rank() == rk { c - 1 } else { c };
    assert forall|i: int| 0 <= i < pos implies #[trigger] es[i].0.rank() < rk by {
        assert(es[i].0 == keys[i]);
    }
    assert forall|i: int| pos <= i < es.len() implies #[trigger] es[i].0.rank() >= rk by {
        assert(es[i].0 == keys[i]);
    }
    lemma_sorted_split(es, rk, pos);
    assert forall|i: int| 0 <= i < keys.len() && #[trigger] keys[i].rank() == rk implies query_step_spec(
        true,
        keys,
        infos.len() as int,
        pointers,
        key,
    ) == QueryStep::Found(i as usize) by {
        if i >= c {
            assert(keys[i].rank() > rk);
        }
        if i < c - 1 {
            assert(keys[i].rank() < keys[c - 1].rank());
        }
    }
    if pos < es.len() && es[pos].0.rank() == rk {
        assert(es.filter(at(rk))[0] == es[pos]);
    }
}

/// A lookup at an inner node whose keys are sorted and which has one child
/// more than keys goes on at the child after the keys at most `key`: the
/// first child, where every key is above `key`. A floor lookup and an exact
/// lookup take the same child.
pub proof fn lemma_query_le_step_inner<K: TreeKey>(keys: Seq<K>, info_count: int, p: Seq<u64>, key: K)
    requires
        keys_sorted(keys),
        p.len() == keys.len() + 1,
    ensures
        ({
            let c = child_of(keys, key);
            &&& 0 <= c <= keys.len()
            &&& forall|j: int| 0 <= j < c ==> #[trigger] keys[j].rank() <= key.rank()
            &&& forall|j: int| c <= j < keys.len() ==> #[trigger] keys[j].rank() > key.rank()
            &&& query_le_step_spec(false, keys, info_count, Some(p), key) == QueryStep::Descend(p[c])
            &&& query_step_spec(false, keys, info_count, Some(p), key) == QueryStep::Descend(p[c])
        }),
        (forall|j: int| 0 <= j < keys.len() ==> #[trigger] keys[j].rank() > key.rank()) ==> query_le_step_spec(
            false,
            keys,
            info_count,
            Some(p),
            key,
        ) == QueryStep::Descend(p[0]),
{
    lemma_count_upto_split(keys, key.rank());
    let c = child_of(keys, key);
    if forall|j: int| 0 <= j < keys.len() ==> #[trigger] keys[j].rank() > key.rank() {
        if c > 0 {
            assert(keys[c - 1].rank() <= key.rank());
        }
    }
}

/// Keys paired with what stands beside them, position by position.
pub open spec fn zip_entries<K, W>(ks: Seq<K>, ws: Seq<W>) -> Seq<(K, W)> {
    Seq::new(ks.len(), |i: int| (ks[i], ws[i]))
}

/// The entries after putting in `items` one after the other, a later item
/// replacing an earlier entry of the same key.
pub open spec fn insert_all<K: TreeKey, W>(es: Seq<(K, W)>, items: Seq<(K, W)>) -> Seq<(K, W)>
    decreases items.len(),
{
    if items.len() == 0 {
        es
    } else {
        let before = insert_all(es, items.drop_last());
        insert_entry(before, items.last().0, items.last().1)
    }
}

/// Sorted entries stay sorted when items are put in.
pub proof fn lemma_insert_all_sorted<K: TreeKey, W>(es: Seq<(K, W)>, items: Seq<(K, W)>)
    requires
        sorted(es),
    ensures
        sorted(insert_all(es, items)),
    decreases items.len(),
{
    if items.len() > 0 {
        lemma_insert_all_sorted(es, items.drop_last());
        lemma_insert_entry_map(insert_all(es, items.drop_last()), items.last().0, items.last().1);
    }
}

/// The value of the last item with key `q`, if any item has it.
pub open spec fn last_item_for<K: TreeKey, W>(items: Seq<(K, W)>, q: K) -> Option<W>
    decreases items.len(),
{
    if items.len() == 0 {
        None
    } else if items.last().0 == q {
        Some(items.last().1)
    } else {
        last_item_for(items.drop_last(), q)
    }
}

/// What a read gives back after an upsert: a key that some item carries is
/// found with the value of the last such item, every other key as before.
pub proof fn lemma_upsert_reads_back<K: TreeKey, W>(es: Seq<(K, W)>, items: Seq<(K, W)>, q: K)
    requires
        sorted(es),
    ensures
        lookup(insert_all(es, items), q) == match last_item_for(items, q) {
            Some(w) => Some(w),
            None => lookup(es, q),
        },
    decreases items.len(),
{
    if items.len() > 0 {
        lemma_upsert_reads_back(es, items.drop_last(), q);
        lemma_insert_all_sorted(es, items.drop_last());
        lemma_read_after_write(insert_all(es, items.drop_last()), items.last().0, items.last().1, q);
    }
}

/// Sorted keys and entries built from them are sorted alike.
proof fn lemma_zip_sorted<K: TreeKey, W>(ks: Seq<K>, ws: Seq<W>)
    requires
        ks.len() == ws.len(),
    ensures
        keys_sorted(ks) <==> sorted(zip_entries(ks, ws)),
{
    let z = zip_entries(ks, ws);
    if keys_sorted(ks) {
        assert forall|i: int, j: int| 0 <= i < j < z.len() implies #[trigger] z[i].0.rank()
            < #[trigger] z[j].0.rank() by {
            assert(ks[i].rank() < ks[j].rank());
        }
    }
    if sorted(z) {
        assert forall|i: int, j: int| 0 <= i < j < ks.len() implies #[trigger] ks[i].rank()
            < #[trigger] ks[j].rank() by {
            assert(z[i].0 == ks[i] && z[j].0 == ks[j]);
        }
    }
}

impl<K: TreeKey> DiskNode<K> {
    /// The node's keys are strictly increasing and each has one value info:
    /// what an update of a leaf read from a file needs of it.
    pub fn is_ordered_leaf(&self) -> (r: bool)
        ensures
            r == (keys_sorted(self.keys@) && self.keys@.len() == self.value_info@.len()),
    {
        if self.keys.len() != self.value_info.len() {
            return false;
        }
        let n = self.keys.len();
        let mut i: usize = 1;
        while i < n
            invariant
                n == self.keys@.len(),
                1 <= i,
                forall|a: int, b: int| 0 <= a < b < i && b < n ==> #[trigger] self.keys@[a].rank() < #[trigger] self.keys@[b].rank(),
            decreases n - i,
        {
            if !self.keys[i - 1].key_lt(&self.keys[i]) {
                return false;
            }
            proof {
                assert forall|a: int, b: int| 0 <= a < b < i + 1 && b < n implies #[trigger] self.keys@[a].rank() < #[trigger] self.keys@[b].rank() by {
                    if b == i && a < i - 1 {
                        assert(self.keys@[a].rank() < self.keys@[i - 1].rank());
                    }
                }
            }
            i = i + 1;
        }
        true
    }
}

impl<K: TreeKey> DiskNode<K> {
    /// The leaf's entries: each key with its value info.
    pub open spec fn leaf_entries(&self) -> Seq<(K, ValueInfo)> {
        zip_entries(self.keys@, self.value_info@)
    }

    /// Puts `items` into a leaf one after the other: a key already there
    /// gets the new value info, another key is put in at its place.
    pub fn upsert_leaf(&mut self, items: Vec<(K, ValueInfo)>)
        requires
            keys_sorted(old(self).keys@),
            old(self).keys@.len() == old(self).value_info@.len(),
        ensures
            final(self).is_leaf == old(self).is_leaf,
            final(self).pointers == old(self).pointers,
            final(self).keys@.len() == final(self).value_info@.len(),
            keys_sorted(final(self).keys@),
            final(self).leaf_entries() == insert_all(old(self).leaf_entries(), items@),
    {
        let ghost all = items@;
        let ghost start = self.leaf_entries();
        let total: usize = items.len();
        let mut rest = items;
        let mut rev: Vec<(K, ValueInfo)> = Vec::new();
        while rest.len() > 0
            invariant
                all.len() == rest@.len() + rev@.len(),
                forall|k: int| 0 <= k < rest@.len() ==> #[trigger] rest@[k] == all[k],
                forall|k: int| 0 <= k < rev@.len() ==> #[trigger] rev@[k] == all[all.len() - 1 - k],
            decreases rest@.len(),
        {
            let x = rest.pop().unwrap();
            rev.push(x);
        }
        let mut n: usize = 0;
        proof {
            lemma_zip_sorted(self.keys@, self.value_info@);
            assert(all.take(0) =~= Seq::<(K, ValueInfo)>::empty());
        }
        while rev.len() > 0
            invariant
                n + rev@.len() == all.len(),
                all.len() == total,
                forall|k: int| 0 <= k < rev@.len() ==> #[trigger] rev@[k] == all[all.len() - 1 - k],
                self.is_leaf == old(self).is_leaf,
                self.pointers == old(self).pointers,
                start == old(self).leaf_entries(),
                self.keys@.len() == self.value_info@.len(),
                keys_sorted(self.keys@),
                self.leaf_entries() == insert_all(start, all.take(n as int)),
            decreases rev@.len(),
        {
            let ghost r0 = rev@;
            let (key, info) = rev.pop().unwrap();
            let ghost es = self.leaf_entries();
            proof {
                assert((key, info) == r0[r0.len() - 1]);
                assert((key, info) == all[n as int]);
                assert(all.take(n + 1).drop_last() =~= all.take(n as int));
                assert(all.take(n + 1).last() == all[n as int]);
                lemma_zip_sorted(self.keys@, self.value_info@);
            }
            match binary_search_key(self.keys.as_slice(), &key) {
                Ok(idx) => {
                    proof {
                        lemma_sorted_split(es, key.rank(), idx as int);
                        K::lemma_rank_injective(&self.keys@[idx as int], &key);
                    }
                    self.value_info.set(idx, info);
                    proof {
                        assert(self.leaf_entries() =~= es.subrange(0, idx as int) + seq![(key, info)]
                            + es.subrange(idx + 1, es.len() as int));
                    }
                },
                Err(idx) => {
                    proof {
                        lemma_sorted_split(es, key.rank(), idx as int);
                    }
                    self.keys.insert(idx, key);
                    self.value_info.insert(idx, info);
                    proof {
                        assert(self.leaf_entries() =~= es.subrange(0, idx as int) + seq![(key, info)]
                            + es.subrange(idx as int, es.len() as int));
                    }
                },
            }
            n = n + 1;
            proof {
                lemma_insert_entry_map(es, key, info);
                lemma_zip_sorted(self.keys@, self.value_info@);
            }
        }
        proof {
            assert(all.take(all.len() as int) =~= all);
        }
    }
}

/// Every item's key is a key of the leaf.
pub open spec fn all_keys_present<K, W>(keys: Seq<K>, items: Seq<(K, W)>) -> bool {
    forall|i: int| 0 <= i < items.len() ==> #[trigger] keys.contains(items[i].0)
}

impl<K: TreeKey> DiskNode<K> {
    /// Gives keys of a leaf new value infos, one item after the other; fails
    /// with `KeyNotFound` when an item's key is not in the leaf.
    pub fn update_leaf(&mut self, items: Vec<(K, ValueInfo)>) -> (r: Result<(), BPlusTreeError>)
        requires
            keys_sorted(old(self).keys@),
            old(self).keys@.len() == old(self).value_info@.len(),
        ensures
            final(self).is_leaf == old(self).is_leaf,
            final(self).pointers == old(self).pointers,
            final(self).keys@ == old(self).keys@,
            r is Ok <==> all_keys_present(old(self).keys@, items@),
            r matches Err(e) ==> e is KeyNotFound,
            r is Ok ==> final(self).leaf_entries() == insert_all(old(self).leaf_entries(), items@),
            r is Ok ==> final(self).value_info@.len() == old(self).value_info@.len(),
    {
        let ghost all = items@;
        let ghost start = self.leaf_entries();
        let ghost keys0 = self.keys@;
        let total: usize = items.len();
        let mut rest = items;
        let mut rev: Vec<(K, ValueInfo)> = Vec::new();
        while rest.len() > 0
            invariant
                all.len() == rest@.len() + rev@.len(),
                forall|k: int| 0 <= k < rest@.len() ==> #[trigger] rest@[k] == all[k],
                forall|k: int| 0 <= k < rev@.len() ==> #[trigger] rev@[k] == all[all.len() - 1 - k],
            decreases rest@.len(),
        {
            let x = rest.pop().unwrap();
            rev.push(x);
        }
        let mut n: usize = 0;
        proof {
            lemma_zip_sorted(self.keys@, self.value_info@);
            assert(all.take(0) =~= Seq::<(K, ValueInfo)>::empty());
        }
        while rev.len() > 0
            invariant
                n + rev@.len() == all.len(),
                all.len() == total,
                forall|k: int| 0 <= k < rev@.len() ==> #[trigger] rev@[k] == all[all.len() - 1 - k],
                self.is_leaf == old(self).is_leaf,
                self.pointers == old(self).pointers,
                self.keys@ == keys0,
                keys0 == old(self).keys@,
                start == old(self).leaf_entries(),
                self.keys@.len() == self.value_info@.len(),
                keys_sorted(self.keys@),
                self.leaf_entries() == insert_all(start, all.take(n as int)),
                forall|i: int| 0 <= i < n ==> #[trigger] keys0.contains(all[i].0),
                all == items@,
            decreases rev@.len(),
        {
            let ghost r0 = rev@;
            let (key, info) = rev.pop().unwrap();
            let ghost es = self.leaf_entries();
            proof {
                assert((key, info) == r0[r0.len() - 1]);
                assert((key, info) == all[n as int]);
                assert(all.take(n + 1).drop_last() =~= all.take(n as int));
                assert(all.take(n + 1).last() == all[n as int]);
                lemma_zip_sorted(self.keys@, self.value_info@);
            }
            match binary_search_key(self.keys.as_slice(), &key) {
                Ok(idx) => {
                    proof {
                        lemma_sorted_split(es, key.rank(), idx as int);
                        K::lemma_rank_injective(&self.keys@[idx as int], &key);
                        assert(keys0[idx as int] == key);
                    }
                    self.value_info.set(idx, info);
                    proof {
                        assert(self.leaf_entries() =~= es.subrange(0, idx as int) + seq![(key, info)]
                            + es.subrange(idx + 1, es.len() as int));
                    }
                },
                Err(idx) => {
                    proof {
                        if keys0.contains(key) {
                            let j = choose|j: int| 0 <= j < keys0.len() && keys0[j] == key;
                            if j < idx {
                                assert(keys0[j].rank() < key.rank());
                            } else {
                                assert(keys0[j].rank() > key.rank());
                            }
                        }
                        assert(!all_keys_present(old(self).keys@, all));
                    }
                    return Err(BPlusTreeError::KeyNotFound);
                },
            }
            n = n + 1;
            proof {
                lemma_insert_entry_map(es, key, info);
                lemma_zip_sorted(self.keys@, self.value_info@);
            }
        }
        proof {
            assert(all.take(all.len() as int) =~= all);
        }
        Ok(())
    }
}

/// Where a node of `n` keys is cut when it is halved while it holds more
/// than `order` keys: each cut keeps the lower half.
pub open spec fn halving_cuts(n: int, order: int) -> Seq<int>
    decreases n,
{
    if n > order && n > 0 {
        seq![n / 2] + halving_cuts(n / 2, order)
    } else {
        Seq::empty()
    }
}

/// The end of the part cut off at cut `i`: the node's size before the cut.
pub open spec fn cut_end(cuts: Seq<int>, n: int, i: int) -> int {
    if i == 0 {
        n
    } else {
        cuts[i - 1]
    }
}

/// The size a node is left with after all cuts.
pub open spec fn cut_rest(cuts: Seq<int>, n: int) -> int {
    cut_end(cuts, n, cuts.len() as int)
}

/// After `k` cuts the rest of the cuts are those of the size left.
pub open spec fn cuts_state(cuts: Seq<int>, n: int, order: int, k: int) -> bool {
    &&& 0 <= k <= cuts.len()
    &&& cuts == cuts.take(k) + halving_cuts(cut_end(cuts, n, k), order)
    &&& 0 <= cut_end(cuts, n, k) <= n
}

/// Halving a node of `n` keys while it holds more than `order`: every cut
/// splits the keys left before it into a lower part that stays and an upper
/// part that goes, the upper part as large as the lower one or one key
/// larger, never empty; the keys that stay at the end are at most `order`.
pub proof fn lemma_halving_cuts(n: int, order: int)
    requires
        n >= 0,
        order >= 0,
    ensures
        ({
            let cuts = halving_cuts(n, order);
            &&& cut_rest(cuts, n) <= order
            &&& forall|i: int|
                0 <= i < cuts.len() ==> {
                    &&& #[trigger] cut_end(cuts, n, i) > order
                    &&& 0 <= cuts[i] < cut_end(cuts, n, i)
                    &&& cuts[i] <= cut_end(cuts, n, i) - cuts[i] <= cuts[i] + 1
                }
        }),
    decreases n,
{
    let cuts = halving_cuts(n, order);
    if n > order && n > 0 {
        let h = n / 2;
        let t = halving_cuts(h, order);
        lemma_halving_cuts(h, order);
        assert(cuts == seq![h] + t);
        assert(0 <= h < n && h <= n - h <= h + 1);
        assert(cuts[0] == h);
        assert forall|i: int| 0 <= i < cuts.len() implies {
            &&& #[trigger] cut_end(cuts, n, i) > order
            &&& 0 <= cuts[i] < cut_end(cuts, n, i)
            &&& cuts[i] <= cut_end(cuts, n, i) - cuts[i] <= cuts[i] + 1
        } by {
            if i > 0 {
                assert(cuts[i] == t[i - 1]);
                assert(cut_end(cuts, n, i) == cut_end(t, h, i - 1));
            }
        }
        if t.len() > 0 {
            assert(cut_rest(cuts, n) == cut_rest(t, h));
        } else {
            assert(cut_rest(cuts, n) == h);
        }
    }
}

/// The cuts start from the whole node.
proof fn lemma_cuts_start(n: int, order: int)
    requires
        n >= 0,
    ensures
        cuts_state(halving_cuts(n, order), n, order, 0),
{
    let cuts = halving_cuts(n, order);
    assert(cuts =~= cuts.take(0) + halving_cuts(cut_end(cuts, n, 0), order));
}

/// One more cut: a node of more than `order` keys is cut in half; a node of
/// at most `order` keys is not cut any more.
proof fn lemma_cut_next(cuts: Seq<int>, n: int, order: int, k: int)
    requires
        cuts_state(cuts, n, order, k),
        order >= 0,
    ensures
        (cut_end(cuts, n, k) > order) <==> k < cuts.len(),
        k < cuts.len() ==> {
            &&& cuts[k] == cut_end(cuts, n, k) / 2
            &&& cut_end(cuts, n, k + 1) == cuts[k]
            &&& cuts_state(cuts, n, order, k + 1)
        },
{
    let c = cut_end(cuts, n, k);
    let t = halving_cuts(c, order);
    if c > order && c > 0 {
        assert(t == seq![c / 2] + halving_cuts(c / 2, order));
        assert(cuts[k] == t[0]);
        assert(cuts.take(k + 1) + halving_cuts(c / 2, order) =~= cuts.take(k) + t);
    } else {
        assert(t.len() == 0);
        assert(cuts =~= cuts.take(k));
    }
}

impl<K: TreeKey> DiskNode<K> {
    /// Halves a leaf while it holds more than `order` keys, keeping the lower
    /// half each time. Gives the cut-off upper parts in the order they were
    /// cut, each with its first key, which goes up to the parent.
    pub fn split_leaf_overflow(&mut self, order: usize) -> (r: Vec<(K, DiskNode<K>)>)
        requires
            old(self).keys@.len() == old(self).value_info@.len(),
        ensures
            ({
                let es = old(self).leaf_entries();
                let n = es.len() as int;
                let cuts = halving_cuts(n, order as int);
                &&& r@.len() == cuts.len()
                &&& final(self).is_leaf == old(self).is_leaf
                &&& final(self).pointers == old(self).pointers
                &&& final(self).keys@.len() == final(self).value_info@.len()
                &&& final(self).leaf_entries() == es.subrange(0, cut_rest(cuts, n))
                &&& forall|i: int|
                    0 <= i < r@.len() ==> {
                        &&& (#[trigger] r@[i]).1.is_leaf
                        &&& r@[i].1.pointers is None
                        &&& r@[i].1.keys@.len() == r@[i].1.value_info@.len()
                        &&& r@[i].1.leaf_entries() == es.subrange(cuts[i], cut_end(cuts, n, i))
                        &&& r@[i].0 == es[cuts[i]].0
                    }
            }),
    {
        let ghost es = self.leaf_entries();
        let ghost n = es.len() as int;
        let ghost cuts = halving_cuts(n, order as int);
        proof {
            lemma_cuts_start(n, order as int);
        }
        let mut out: Vec<(K, DiskNode<K>)> = Vec::new();
        while self.keys.len() > order
            invariant
                es == old(self).leaf_entries(),
                n == es.len(),
                cuts == halving_cuts(n, order as int),
                cuts_state(cuts, n, order as int, out@.len() as int),
                self.is_leaf == old(self).is_leaf,
                self.pointers == old(self).pointers,
                self.keys@.len() == self.value_info@.len(),
                self.leaf_entries() == es.subrange(0, cut_end(cuts, n, out@.len() as int)),
                forall|i: int|
                    0 <= i < out@.len() ==> {
                        &&& (#[trigger] out@[i]).1.is_leaf
                        &&& out@[i].1.pointers is None
                        &&& out@[i].1.keys@.len() == out@[i].1.value_info@.len()
                        &&& out@[i].1.leaf_entries() == es.subrange(cuts[i], cut_end(cuts, n, i))
                        &&& out@[i].0 == es[cuts[i]].0
                    },
            decreases self.keys@.len(),
        {
            let ghost k = out@.len() as int;
            let ghost cur = cut_end(cuts, n, k);
            let ghost before = self.leaf_entries();
            proof {
                lemma_cut_next(cuts, n, order as int, k);
            }
            let median = self.keys.len() / 2;
            let ghost k0 = self.keys@;
            let ghost v0 = self.value_info@;
            let right_keys = self.keys.split_off(median);
            let right_infos = self.value_info.split_off(median);
            let promoted = right_keys[0].copy_key();
            let right = DiskNode { is_leaf: true, keys: right_keys, value_info: right_infos, pointers: None };
            proof {
                assert(before == zip_entries(k0, v0));
                assert(before =~= es.subrange(0, cur));
                assert(0 <= cur <= n);
                assert(before.len() == cur);
                assert(before.len() == k0.len());
                assert(k0.len() == v0.len());
                assert(right.keys@ == k0.subrange(median as int, cur));
                assert(right.value_info@ == v0.subrange(median as int, cur));
                assert(self.keys@ == k0.subrange(0, median as int));
                assert(self.value_info@ == v0.subrange(0, median as int));
                assert forall|i: int| 0 <= i < cur - median implies #[trigger] right.leaf_entries()[i]
                    == es.subrange(median as int, cur)[i] by {
                    assert(right.keys@[i] == k0[median + i]);
                    assert(right.value_info@[i] == v0[median + i]);
                    assert(before[median + i] == es[median + i]);
                }
                assert(right.leaf_entries() =~= es.subrange(median as int, cur));
                assert forall|i: int| 0 <= i < median implies #[trigger] self.leaf_entries()[i]
                    == es.subrange(0, median as int)[i] by {
                    assert(self.keys@[i] == k0[i]);
                    assert(self.value_info@[i] == v0[i]);
                    assert(before[i] == es[i]);
                }
                assert(self.leaf_entries() =~= es.subrange(0, median as int));
                assert(before[median as int] == es[median as int]);
                assert(promoted == k0[median as int]);
            }
            out.push((promoted, right));
            proof {
                assert(out@[k] == (promoted, right));
            }
        }
        proof {
            lemma_cut_next(cuts, n, order as int, out@.len() as int);
        }
        out
    }

    /// Halves an inner node while it holds more than `order` keys: the key
    /// at the cut goes up to the parent, the keys above it and the children
    /// after it go to a new node. Gives the new nodes in the order they were
    /// cut, each with the key that goes up.
    pub fn split_inner_overflow(&mut self, order: usize) -> (r: Vec<(K, DiskNode<K>)>)
        requires
            old(self).pointers matches Some(p) && p@.len() == old(self).keys@.len() + 1,
        ensures
            ({
                let ks = old(self).keys@;
                let ps = old(self).pointers->0@;
                let n = ks.len() as int;
                let cuts = halving_cuts(n, order as int);
                let rest = cut_rest(cuts, n);
                &&& r@.len() == cuts.len()
                &&& final(self).is_leaf == old(self).is_leaf
                &&& final(self).value_info == old(self).value_info
                &&& final(self).keys@ == ks.subrange(0, rest)
                &&& (final(self).pointers matches Some(fp) && fp@ == ps.subrange(0, rest + 1))
                &&& forall|i: int|
                    0 <= i < r@.len() ==> {
                        &&& !(#[trigger] r@[i]).1.is_leaf
                        &&& r@[i].1.value_info@.len() == 0
                        &&& r@[i].0 == ks[cuts[i]]
                        &&& r@[i].1.keys@ == ks.subrange(cuts[i] + 1, cut_end(cuts, n, i))
                        &&& (r@[i].1.pointers matches Some(rp) && rp@ == ps.subrange(
                            cuts[i] + 1,
                            cut_end(cuts, n, i) + 1,
                        ))
                    }
            }),
    {
        let ghost ks = self.keys@;
        let ghost ps = self.pointers->0@;
        let ghost n = ks.len() as int;
        let ghost cuts = halving_cuts(n, order as int);
        proof {
            lemma_cuts_start(n, order as int);
        }
        let mut pointers = match self.pointers.take() {
            Some(p) => p,
            None => Vec::new(),
        };
        let mut out: Vec<(K, DiskNode<K>)> = Vec::new();
        proof {
            assert(pointers@ =~= ps.subrange(0, n + 1));
            assert(self.keys@ =~= ks.subrange(0, n));
        }
        while self.keys.len() > order
            invariant
                ks == old(self).keys@,
                ps == old(self).pointers->0@,
                n == ks.len(),
                ps.len() == n + 1,
                cuts == halving_cuts(n, order as int),
                cuts_state(cuts, n, order as int, out@.len() as int),
                self.is_leaf == old(self).is_leaf,
                self.value_info == old(self).value_info,
                self.keys@ == ks.subrange(0, cut_end(cuts, n, out@.len() as int)),
                pointers@ == ps.subrange(0, cut_end(cuts, n, out@.len() as int) + 1),
                forall|i: int|
                    0 <= i < out@.len() ==> {
                        &&& !(#[trigger] out@[i]).1.is_leaf
                        &&& out@[i].1.value_info@.len() == 0
                        &&& out@[i].0 == ks[cuts[i]]
                        &&& out@[i].1.keys@ == ks.subrange(cuts[i] + 1, cut_end(cuts, n, i))
                        &&& (out@[i].1.pointers matches Some(rp) && rp@ == ps.subrange(
                            cuts[i] + 1,
                            cut_end(cuts, n, i) + 1,
                        ))
                    },
            decreases self.keys@.len(),
        {
            let ghost k = out@.len() as int;
            let ghost cur = cut_end(cuts, n, k);
            proof {
                lemma_cut_next(cuts, n, order as int, k);
            }
            let median = self.keys.len() / 2;
            let promoted = self.keys.remove(median);
            let right_keys = self.keys.split_off(median);
            let right_pointers = pointers.split_off(median + 1);
            let right = DiskNode {
                is_leaf: false,
                keys: right_keys,
                value_info: Vec::new(),
                pointers: Some(right_pointers),
            };
            proof {
                assert(right.keys@ =~= ks.subrange(median + 1, cur));
                assert(self.keys@ =~= ks.subrange(0, median as int));
                assert(pointers@ =~= ps.subrange(0, median + 1));
                assert(right_pointers@ =~= ps.subrange(median + 1, cur + 1));
            }
            out.push((promoted, right));
            proof {
                assert(out@[k] == (promoted, right));
            }
        }
        proof {
            lemma_cut_next(cuts, n, order as int, out@.len() as int);
        }
        self.pointers = Some(pointers);
        out
    }
}

/// The index of the child that a key goes to: the number of keys ranked at
/// most it.
pub open spec fn child_of<K: TreeKey>(keys: Seq<K>, k: K) -> int {
    count_upto(keys, k.rank())
}

/// The keys and child offsets of an inner node after the keys that went up
/// from split children were put in one after the other, each key after the
/// keys ranked at most it and its child right after it.
pub open spec fn promote_all<K: TreeKey>(ks: Seq<K>, ps: Seq<u64>, proms: Seq<(K, u64)>) -> (Seq<K>, Seq<u64>)
    decreases proms.len(),
{
    if proms.len() == 0 {
        (ks, ps)
    } else {
        let (k2, p2) = promote_all(ks, ps, proms.drop_last());
        let c = count_upto(k2, proms.last().0.rank());
        (k2.insert(c, proms.last().0), p2.insert(c + 1, proms.last().1))
    }
}

/// No promoted key shares a rank with a key of the node or with another
/// promoted key.
pub open spec fn promotions_fresh<K: TreeKey>(ks: Seq<K>, proms: Seq<(K, u64)>) -> bool {
    &&& forall|i: int, m: int|
        0 <= i < ks.len() && 0 <= m < proms.len() ==> #[trigger] ks[i].rank() != #[trigger] proms[m].0.rank()
    &&& forall|m1: int, m2: int|
        0 <= m1 < m2 < proms.len() ==> #[trigger] proms[m1].0.rank() != #[trigger] proms[m2].0.rank()
}

/// Key `k` stands among `keys` with child `o` right after it.
pub open spec fn key_before_child<K>(keys: Seq<K>, ptrs: Seq<u64>, k: K, o: u64) -> bool {
    exists|c: int| 0 <= c < keys.len() && keys[c] == k && ptrs[c + 1] == o
}

/// Key `k` is one of the node's keys or one of the promoted keys.
pub open spec fn from_node_or_promoted<K>(ks: Seq<K>, proms: Seq<(K, u64)>, k: K) -> bool {
    ks.contains(k) || exists|m: int| 0 <= m < proms.len() && proms[m].0 == k
}

/// Putting promoted keys into an inner node with sorted keys, where no
/// promoted key is already there or promoted twice, keeps the keys sorted:
/// the node ends up with exactly its own keys and the promoted ones, in key
/// order, its first child unchanged, each old key still followed by its old
/// child and each promoted key followed by the child it came with.
pub proof fn lemma_promote_all_sorted<K: TreeKey>(ks: Seq<K>, ps: Seq<u64>, proms: Seq<(K, u64)>)
    requires
        keys_sorted(ks),
        ps.len() == ks.len() + 1,
        promotions_fresh(ks, proms),
    ensures
        ({
            let r = promote_all(ks, ps, proms);
            &&& keys_sorted(r.0)
            &&& r.0.len() == ks.len() + proms.len()
            &&& r.1.len() == r.0.len() + 1
            &&& r.1[0] == ps[0]
            &&& forall|i: int| 0 <= i < ks.len() ==> #[trigger] key_before_child(r.0, r.1, ks[i], ps[i + 1])
            &&& forall|m: int|
                0 <= m < proms.len() ==> #[trigger] key_before_child(r.0, r.1, proms[m].0, proms[m].1)
            &&& forall|c: int| 0 <= c < r.0.len() ==> #[trigger] from_node_or_promoted(ks, proms, r.0[c])
        }),
    decreases proms.len(),
{
    if proms.len() == 0 {
        assert forall|i: int| 0 <= i < ks.len() implies #[trigger] key_before_child(ks, ps, ks[i], ps[i + 1]) by {
            assert(ks[i] == ks[i]);
        }
        assert forall|c: int| 0 <= c < ks.len() implies #[trigger] from_node_or_promoted(ks, proms, ks[c]) by {
            assert(ks[c] == ks[c]);
        }
    } else {
        let pre = proms.drop_last();
        let l = proms.len() - 1;
        let x = proms[l];
        assert(promotions_fresh(ks, pre)) by {
            assert forall|i: int, m: int| 0 <= i < ks.len() && 0 <= m < pre.len() implies #[trigger] ks[i].rank()
                != #[trigger] pre[m].0.rank() by {
                assert(pre[m] == proms[m]);
            }
            assert forall|m1: int, m2: int| 0 <= m1 < m2 < pre.len() implies #[trigger] pre[m1].0.rank()
                != #[trigger] pre[m2].0.rank() by {
                assert(pre[m1] == proms[m1] && pre[m2] == proms[m2]);
            }
        }
        lemma_promote_all_sorted(ks, ps, pre);
        let k1 = promote_all(ks, ps, pre).0;
        let p1 = promote_all(ks, ps, pre).1;
        let rk = x.0.rank();
        let c = count_upto(k1, rk);
        lemma_count_upto_split(k1, rk);
        assert(proms.last() == x);
        let k2 = k1.insert(c, x.0);
        let p2 = p1.insert(c + 1, x.1);
        assert(promote_all(ks, ps, proms) == (k2, p2));
        k1.insert_ensures(c, x.0);
        p1.insert_ensures(c + 1, x.1);
        assert forall|j: int| 0 <= j < k1.len() implies #[trigger] k1[j].rank() != rk by {
            assert(from_node_or_promoted(ks, pre, k1[j]));
            if ks.contains(k1[j]) {
                let i = choose|i: int| 0 <= i < ks.len() && ks[i] == k1[j];
                assert(ks[i].rank() != proms[l].0.rank());
            } else {
                let m = choose|m: int| 0 <= m < pre.len() && pre[m].0 == k1[j];
                assert(pre[m] == proms[m]);
                assert(proms[m].0.rank() != proms[l].0.rank());
            }
        }
        assert forall|a: int, b: int| 0 <= a < b < k2.len() implies #[trigger] k2[a].rank()
            < #[trigger] k2[b].rank() by {
            if b < c {
                assert(k2[a] == k1[a] && k2[b] == k1[b]);
            } else if b == c {
                assert(k2[a] == k1[a]);
                assert(k1[a].rank() <= rk && k1[a].rank() != rk);
            } else if a < c {
                assert(k2[a] == k1[a] && k2[b] == k1[b - 1]);
            } else if a == c {
                assert(k2[b] == k1[b - 1]);
                assert(k1[b - 1].rank() > rk);
            } else {
                assert(k2[a] == k1[a - 1] && k2[b] == k1[b - 1]);
            }
        }
        assert forall|i: int| 0 <= i < ks.len() implies #[trigger] key_before_child(k2, p2, ks[i], ps[i + 1]) by {
            assert(key_before_child(k1, p1, ks[i], ps[i + 1]));
            let d = choose|d: int| 0 <= d < k1.len() && k1[d] == ks[i] && p1[d + 1] == ps[i + 1];
            if d < c {
                assert(k2[d] == k1[d] && p2[d + 1] == p1[d + 1]);
            } else {
                assert(k2[d + 1] == k1[d] && p2[d + 2] == p1[d + 1]);
            }
        }
        assert forall|m: int| 0 <= m < proms.len() implies #[trigger] key_before_child(
            k2,
            p2,
            proms[m].0,
            proms[m].1,
        ) by {
            if m == l {
                assert(k2[c] == x.0 && p2[c + 1] == x.1);
            } else {
                assert(pre[m] == proms[m]);
                assert(key_before_child(k1, p1, pre[m].0, pre[m].1));
                let d = choose|d: int| 0 <= d < k1.len() && k1[d] == pre[m].0 && p1[d + 1] == pre[m].1;
                if d < c {
                    assert(k2[d] == k1[d] && p2[d + 1] == p1[d + 1]);
                } else {
                    assert(k2[d + 1] == k1[d] && p2[d + 2] == p1[d + 1]);
                }
            }
        }
        assert forall|e: int| 0 <= e < k2.len() implies #[trigger] from_node_or_promoted(ks, proms, k2[e]) by {
            if e == c {
                assert(proms[l].0 == k2[e]);
            } else {
                let j = if e < c { e } else { e - 1 };
                assert(k2[e] == k1[j]);
                assert(from_node_or_promoted(ks, pre, k1[j]));
                if !ks.contains(k1[j]) {
                    let m = choose|m: int| 0 <= m < pre.len() && pre[m].0 == k1[j];
                    assert(pre[m] == proms[m]);
                }
            }
        }
    }
}

/// No more keys than there are are ranked at most a given rank.
proof fn lemma_count_upto_bound<K: TreeKey>(keys: Seq<K>, r: int)
    ensures
        0 <= count_upto(keys, r) <= keys.len(),
    decreases keys.len(),
{
    if keys.len() > 0 {
        lemma_count_upto_bound(keys.drop_last(), r);
    }
}

/// Counts the keys ranked at most `key`.
fn count_keys_upto<K: TreeKey>(keys: &[K], key: &K) -> (r: usize)
    ensures
        r == count_upto(keys@, key.rank()),
{
    let mut c: usize = 0;
    let mut i: usize = 0;
    while i < keys.len()
        invariant
            i <= keys@.len(),
            c == count_upto(keys@.take(i as int), key.rank()),
            c <= i,
        decreases keys@.len() - i,
    {
        proof {
            assert(keys@.take(i as int + 1).drop_last() =~= keys@.take(i as int));
            assert(keys@.take(i as int + 1).last() == keys@[i as int]);
        }
        if !key.key_lt(&keys[i]) {
            c = c + 1;
        }
        i = i + 1;
    }
    proof {
        assert(keys@.take(keys@.len() as int) =~= keys@);
    }
    c
}

impl<K: TreeKey> DiskNode<K> {
    /// Puts the keys that went up from split children into an inner node,
    /// each with the offset of its new child right after it.
    pub fn insert_promotions(&mut self, promotions: Vec<(K, u64)>)
        requires
            old(self).pointers matches Some(p) && p@.len() == old(self).keys@.len() + 1,
        ensures
            final(self).is_leaf == old(self).is_leaf,
            final(self).value_info == old(self).value_info,
            final(self).pointers matches Some(p) && (final(self).keys@, p@) == promote_all(
                old(self).keys@,
                old(self).pointers->0@,
                promotions@,
            ),
            final(self).pointers->0@.len() == final(self).keys@.len() + 1,
            keys_sorted(old(self).keys@) && promotions_fresh(old(self).keys@, promotions@) ==> {
                &&& keys_sorted(final(self).keys@)
                &&& final(self).pointers->0@[0] == old(self).pointers->0@[0]
                &&& forall|m: int|
                    0 <= m < promotions@.len() ==> #[trigger] key_before_child(
                        final(self).keys@,
                        final(self).pointers->0@,
                        promotions@[m].0,
                        promotions@[m].1,
                    )
                &&& forall|i: int|
                    0 <= i < old(self).keys@.len() ==> #[trigger] key_before_child(
                        final(self).keys@,
                        final(self).pointers->0@,
                        old(self).keys@[i],
                        old(self).pointers->0@[i + 1],
                    )
            },
    {
        proof {
            if keys_sorted(self.keys@) && promotions_fresh(self.keys@, promotions@) {
                lemma_promote_all_sorted(self.keys@, self.pointers->0@, promotions@);
            }
        }
        let ghost all = promotions@;
        let ghost ks0 = self.keys@;
        let ghost ps0 = self.pointers->0@;
        let total: usize = promotions.len();
        let mut pointers = match self.pointers.take() {
            Some(p) => p,
            None => Vec::new(),
        };
        let mut rest = promotions;
        let mut rev: Vec<(K, u64)> = Vec::new();
        while rest.len() > 0
            invariant
                all.len() == rest@.len() + rev@.len(),
                forall|k: int| 0 <= k < rest@.len() ==> #[trigger] rest@[k] == all[k],
                forall|k: int| 0 <= k < rev@.len() ==> #[trigger] rev@[k] == all[all.len() - 1 - k],
            decreases rest@.len(),
        {
            let x = rest.pop().unwrap();
            rev.push(x);
        }
        let mut n: usize = 0;
        proof {
            assert(all.take(0) =~= Seq::<(K, u64)>::empty());
        }
        while rev.len() > 0
            invariant
                n + rev@.len() == all.len(),
                all.len() == total,
                forall|k: int| 0 <= k < rev@.len() ==> #[trigger] rev@[k] == all[all.len() - 1 - k],
                self.is_leaf == old(self).is_leaf,
                self.value_info == old(self).value_info,
                self.pointers is None,
                ks0 == old(self).keys@,
                ps0 == old(self).pointers->0@,
                (self.keys@, pointers@) == promote_all(ks0, ps0, all.take(n as int)),
                pointers@.len() == self.keys@.len() + 1,
            decreases rev@.len(),
        {
            let ghost r0 = rev@;
            let (key, off) = rev.pop().unwrap();
            proof {
                assert((key, off) == r0[r0.len() - 1]);
                assert((key, off) == all[n as int]);
                assert(all.take(n + 1).drop_last() =~= all.take(n as int));
                assert(all.take(n + 1).last() == all[n as int]);
            }
            let c = count_keys_upto(self.keys.as_slice(), &key);
            proof {
                lemma_count_upto_bound(self.keys@, key.rank());
            }
            let plen = pointers.len();
            assert(c + 1 <= plen);
            self.keys.insert(c, key);
            pointers.insert(c + 1, off);
            n = n + 1;
        }
        proof {
            assert(all.take(all.len() as int) =~= all);
        }
        self.pointers = Some(pointers);
    }
}

/// The run of item keys from `start` on that goes to the same child of an
/// inner node with `keys` as `items[start]`: that child's index, and the end
/// of the run.
pub fn next_group<K: TreeKey>(keys: &[K], items: &[K], start: usize) -> (r: (usize, usize))
    requires
        start < items@.len(),
    ensures
        r.0 == child_of(keys@, items@[start as int]),
        start < r.1 <= items@.len(),
        forall|j: int| start <= j < r.1 ==> child_of(keys@, #[trigger] items@[j]) == r.0,
        r.1 < items@.len() ==> child_of(keys@, items@[r.1 as int]) != r.0,
{
    let c = count_keys_upto(keys, &items[start]);
    let mut end = start + 1;
    while end < items.len() && count_keys_upto(keys, &items[end]) == c
        invariant
            start < end <= items@.len(),
            c == child_of(keys@, items@[start as int]),
            forall|j: int| start <= j < end ==> child_of(keys@, #[trigger] items@[j]) == c,
        decreases items@.len() - end,
    {
        end = end + 1;
    }
    proof {
        if end < items@.len() {
            assert(child_of(keys@, items@[end as int]) != c);
        }
    }
    (c, end)
}

impl<K: TreeKey> DiskNode<K> {
    /// The offset of child `i` of an inner node, if it has one.
    pub fn child_at(&self, i: usize) -> (r: Option<u64>)
        ensures
            r == (match self.pointers {
                Some(p) => if i < p@.len() {
                    Some(p@[i as int])
                } else {
                    None::<u64>
                },
                None => None::<u64>,
            }),
    {
        match &self.pointers {
            Some(p) => if i < p.len() {
                Some(p[i])
            } else {
                None
            },
            None => None,
        }
    }

    /// A new inner node over the node at `base` and the nodes that
    /// `promotions` point to: their keys, and `base` before their offsets.
    pub fn root_over(base: u64, promotions: Vec<(K, u64)>) -> (r: DiskNode<K>)
        ensures
            !r.is_leaf,
            r.value_info@.len() == 0,
            r.keys@ == promotions@.map_values(|p: (K, u64)| p.0),
            r.pointers matches Some(p) && p@ == seq![base] + promotions@.map_values(|p: (K, u64)| p.1),
    {
        let ghost all = promotions@;
        let mut rest = promotions;
        let mut rev_keys: Vec<K> = Vec::new();
        let mut rev_ptrs: Vec<u64> = Vec::new();
        while rest.len() > 0
            invariant
                rest@.len() + rev_keys@.len() == all.len(),
                rev_ptrs@.len() == rev_keys@.len(),
                forall|k: int| 0 <= k < rest@.len() ==> #[trigger] rest@[k] == all[k],
                forall|k: int| 0 <= k < rev_keys@.len() ==> #[trigger] rev_keys@[k] == all[all.len() - 1 - k].0,
                forall|k: int| 0 <= k < rev_ptrs@.len() ==> #[trigger] rev_ptrs@[k] == all[all.len() - 1 - k].1,
            decreases rest@.len(),
        {
            let (k, p) = rest.pop().unwrap();
            rev_keys.push(k);
            rev_ptrs.push(p);
        }
        let mut keys: Vec<K> = Vec::new();
        let mut pointers: Vec<u64> = Vec::new();
        pointers.push(base);
        while rev_keys.len() > 0
            invariant
                keys@.len() + rev_keys@.len() == all.len(),
                rev_ptrs@.len() == rev_keys@.len(),
                pointers@.len() == keys@.len() + 1,
                pointers@[0] == base,
                forall|k: int| 0 <= k < rev_keys@.len() ==> #[trigger] rev_keys@[k] == all[all.len() - 1 - k].0,
                forall|k: int| 0 <= k < rev_ptrs@.len() ==> #[trigger] rev_ptrs@[k] == all[all.len() - 1 - k].1,
                forall|k: int| 0 <= k < keys@.len() ==> #[trigger] keys@[k] == all[k].0,
                forall|k: int| 0 <= k < keys@.len() ==> #[trigger] pointers@[k + 1] == all[k].1,
            decreases rev_keys@.len(),
        {
            let k = rev_keys.pop().unwrap();
            let p = rev_ptrs.pop().unwrap();
            keys.push(k);
            pointers.push(p);
        }
        proof {
            assert(keys@ =~= all.map_values(|p: (K, u64)| p.0));
            let want = seq![base] + all.map_values(|p: (K, u64)| p.1);
            assert forall|i: int| 0 <= i < pointers@.len() implies pointers@[i] == want[i] by {
                if i > 0 {
                    assert(pointers@[(i - 1) + 1] == all[i - 1].1);
                }
            }
            assert(pointers@ =~= want);
        }
        DiskNode { is_leaf: false, keys, value_info: Vec::new(), pointers: Some(pointers) }
    }

    /// Points child `i` of an inner node at `offset`.
    pub fn set_child(&mut self, i: usize, offset: u64)
        requires
            old(self).pointers matches Some(p) && i < p@.len(),
        ensures
            final(self).is_leaf == old(self).is_leaf,
            final(self).keys@ == old(self).keys@,
            final(self).value_info == old(self).value_info,
            final(self).pointers matches Some(p) && p@ == old(self).pointers->0@.update(i as int, offset),
    {
        let mut pointers = match self.pointers.take() {
            Some(p) => p,
            None => Vec::new(),
        };
        pointers.set(i, offset);
        self.pointers = Some(pointers);
    }
}

} // verus!
