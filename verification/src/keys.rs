//! Keys of the B+tree: totally ordered by an integer rank.
use vstd::prelude::*;

verus! {

/// A key type of the tree. Keys are ordered by their rank, and two keys
/// of the same rank are the same key.
pub trait TreeKey: Sized {
    /// The position of the key in the key order.
    spec fn rank(&self) -> int;

    /// Keys of equal rank are equal.
    proof fn lemma_rank_injective(a: &Self, b: &Self)
        requires
            a.rank() == b.rank(),
        ensures
            *a == *b,
    ;

    /// Whether `self` comes before `other`.
    fn key_lt(&self, other: &Self) -> (r: bool)
        ensures
            r == (self.rank() < other.rank()),
    ;

    /// Whether `self` and `other` are the same key.
    fn key_eq(&self, other: &Self) -> (r: bool)
        ensures
            r == (self.rank() == other.rank()),
    ;

    /// A copy of the key.
    fn copy_key(&self) -> (r: Self)
        ensures
            r == *self,
    ;
}

impl TreeKey for u32 {
    open spec fn rank(&self) -> int {
        *self as int
    }

    proof fn lemma_rank_injective(a: &Self, b: &Self) {
    }

    fn key_lt(&self, other: &Self) -> (r: bool) {
        *self < *other
    }

    fn key_eq(&self, other: &Self) -> (r: bool) {
        *self == *other
    }

    fn copy_key(&self) -> (r: Self) {
        *self
    }
}

impl TreeKey for u64 {
    open spec fn rank(&self) -> int {
        *self as int
    }

    proof fn lemma_rank_injective(a: &Self, b: &Self) {
    }

    fn key_lt(&self, other: &Self) -> (r: bool) {
        *self < *other
    }

    fn key_eq(&self, other: &Self) -> (r: bool) {
        *self == *other
    }

    fn copy_key(&self) -> (r: Self) {
        *self
    }
}

impl TreeKey for i64 {
    open spec fn rank(&self) -> int {
        *self as int
    }

    proof fn lemma_rank_injective(a: &Self, b: &Self) {
    }

    fn key_lt(&self, other: &Self) -> (r: bool) {
        *self < *other
    }

    fn key_eq(&self, other: &Self) -> (r: bool) {
        *self == *other
    }

    fn copy_key(&self) -> (r: Self) {
        *self
    }
}

impl TreeKey for u16 {
    open spec fn rank(&self) -> int {
        *self as int
    }

    proof fn lemma_rank_injective(a: &Self, b: &Self) {
    }

    fn key_lt(&self, other: &Self) -> (r: bool) {
        *self < *other
    }

    fn key_eq(&self, other: &Self) -> (r: bool) {
        *self == *other
    }

    fn copy_key(&self) -> (r: Self) {
        *self
    }
}

/// Entries of the tree are strictly increasing by key rank.
pub open spec fn sorted<K: TreeKey, V>(es: Seq<(K, V)>) -> bool {
    forall|i: int, j: int| 0 <= i < j < es.len() ==> #[trigger] es[i].0.rank() < #[trigger] es[j].0.rank()
}

/// Every entry has a key of rank in `[lo, hi)`, a missing bound being no bound.
pub open spec fn in_range<K: TreeKey, V>(es: Seq<(K, V)>, lo: Option<int>, hi: Option<int>) -> bool {
    forall|i: int|
        0 <= i < es.len() ==> (lo matches Some(l) ==> l <= #[trigger] es[i].0.rank()) && (
        hi matches Some(h) ==> es[i].0.rank() < h)
}

/// Whether a key of rank `r` lies in `[lo, hi)`.
pub open spec fn rank_in(r: int, lo: Option<int>, hi: Option<int>) -> bool {
    (lo matches Some(l) ==> l <= r) && (hi matches Some(h) ==> r < h)
}

/// Whether an entry's key is ranked below `r`.
pub open spec fn below<K: TreeKey, V>(r: int) -> spec_fn((K, V)) -> bool {
    |e: (K, V)| e.0.rank() < r
}

/// Whether an entry's key is ranked above `r`.
pub open spec fn above<K: TreeKey, V>(r: int) -> spec_fn((K, V)) -> bool {
    |e: (K, V)| e.0.rank() > r
}

/// Whether an entry's key is ranked at most `r`.
pub open spec fn upto<K: TreeKey, V>(r: int) -> spec_fn((K, V)) -> bool {
    |e: (K, V)| e.0.rank() <= r
}

/// Whether an entry's key is ranked `r`.
pub open spec fn at<K: TreeKey, V>(r: int) -> spec_fn((K, V)) -> bool {
    |e: (K, V)| e.0.rank() == r
}

/// The entries with keys ranked below `r`.
pub open spec fn entries_below<K: TreeKey, V>(es: Seq<(K, V)>, r: int) -> Seq<(K, V)> {
    es.filter(below(r))
}

/// The entries with keys ranked above `r`.
pub open spec fn entries_above<K: TreeKey, V>(es: Seq<(K, V)>, r: int) -> Seq<(K, V)> {
    es.filter(above(r))
}

/// The entries with keys ranked at most `r`.
pub open spec fn entries_upto<K: TreeKey, V>(es: Seq<(K, V)>, r: int) -> Seq<(K, V)> {
    es.filter(upto(r))
}

/// The entries after `(k, v)` was put in: the entries below `k`, then
/// `(k, v)`, then the entries above `k`; an entry of key `k` is replaced.
pub open spec fn insert_entry<K: TreeKey, V>(es: Seq<(K, V)>, k: K, v: V) -> Seq<(K, V)> {
    entries_below(es, k.rank()) + seq![(k, v)] + entries_above(es, k.rank())
}

/// The value stored under `k`, if any.
pub open spec fn lookup<K: TreeKey, V>(es: Seq<(K, V)>, k: K) -> Option<V> {
    let f = es.filter(at(k.rank()));
    if f.len() == 0 {
        None
    } else {
        Some(f[0].1)
    }
}

/// The entry with the greatest key that is at most `k`, if any.
pub open spec fn floor_entry<K: TreeKey, V>(es: Seq<(K, V)>, k: K) -> Option<(K, V)> {
    let f = entries_upto(es, k.rank());
    if f.len() == 0 {
        None
    } else {
        Some(f.last())
    }
}

/// The map from keys to values that the entries hold.
pub open spec fn entries_map<K: TreeKey, V>(es: Seq<(K, V)>) -> Map<K, V> {
    Map::new(|k: K| lookup(es, k) is Some, |k: K| lookup(es, k).unwrap())
}

/// Filtering keeps a sequence whose elements all pass.
pub proof fn lemma_filter_all<A>(s: Seq<A>, p: spec_fn(A) -> bool)
    requires
        forall|i: int| 0 <= i < s.len() ==> p(#[trigger] s[i]),
    ensures
        s.filter(p) == s,
    decreases s.len(),
{
    reveal(Seq::filter);
    if s.len() > 0 {
        lemma_filter_all(s.drop_last(), p);
        assert(s.drop_last().push(s.last()) =~= s);
    }
}

/// Filtering empties a sequence whose elements all fail.
pub proof fn lemma_filter_none<A>(s: Seq<A>, p: spec_fn(A) -> bool)
    requires
        forall|i: int| 0 <= i < s.len() ==> !p(#[trigger] s[i]),
    ensures
        s.filter(p) == Seq::<A>::empty(),
    decreases s.len(),
{
    reveal(Seq::filter);
    if s.len() > 0 {
        lemma_filter_none(s.drop_last(), p);
    }
}

/// Filtering a sequence whose first `n` elements pass and whose others fail
/// keeps the first `n`.
pub proof fn lemma_filter_prefix<A>(s: Seq<A>, p: spec_fn(A) -> bool, n: int)
    requires
        0 <= n <= s.len(),
        forall|i: int| 0 <= i < n ==> p(#[trigger] s[i]),
        forall|i: int| n <= i < s.len() ==> !p(#[trigger] s[i]),
    ensures
        s.filter(p) == s.subrange(0, n),
{
    let a = s.subrange(0, n);
    let b = s.subrange(n, s.len() as int);
    assert(a + b =~= s);
    Seq::filter_distributes_over_add(a, b, p);
    lemma_filter_all(a, p);
    lemma_filter_none(b, p);
    assert(a + Seq::<A>::empty() =~= a);
}

/// Filtering a sequence whose first `n` elements fail and whose others pass
/// keeps the others.
pub proof fn lemma_filter_suffix<A>(s: Seq<A>, p: spec_fn(A) -> bool, n: int)
    requires
        0 <= n <= s.len(),
        forall|i: int| 0 <= i < n ==> !p(#[trigger] s[i]),
        forall|i: int| n <= i < s.len() ==> p(#[trigger] s[i]),
    ensures
        s.filter(p) == s.subrange(n, s.len() as int),
{
    let a = s.subrange(0, n);
    let b = s.subrange(n, s.len() as int);
    assert(a + b =~= s);
    Seq::filter_distributes_over_add(a, b, p);
    lemma_filter_none(a, p);
    lemma_filter_all(b, p);
    assert(Seq::<A>::empty() + b =~= b);
}

/// Filtering a sequence whose elements pass only at position `n` keeps that element.
pub proof fn lemma_filter_single<A>(s: Seq<A>, p: spec_fn(A) -> bool, n: int)
    requires
        0 <= n < s.len(),
        p(s[n]),
        forall|i: int| 0 <= i < s.len() && i != n ==> !p(#[trigger] s[i]),
    ensures
        s.filter(p) == seq![s[n]],
{
    let a = s.subrange(0, n);
    let b = s.subrange(n + 1, s.len() as int);
    let m = seq![s[n]];
    assert(a + m + b =~= s);
    Seq::filter_distributes_over_add(a + m, b, p);
    Seq::filter_distributes_over_add(a, m, p);
    lemma_filter_none(a, p);
    lemma_filter_none(b, p);
    lemma_filter_all(m, p);
    assert(Seq::<A>::empty() + m + Seq::<A>::empty() =~= m);
}

/// In a sorted sequence split at `pos` around rank `r` (ranks below `r`
/// before `pos`, at least `r` from `pos` on), the entries below, at and
/// above `r`, and the floor entry of `r`, are where the split says.
pub proof fn lemma_sorted_split<K: TreeKey, V>(es: Seq<(K, V)>, r: int, pos: int)
    requires
        sorted(es),
        0 <= pos <= es.len(),
        forall|i: int| 0 <= i < pos ==> #[trigger] es[i].0.rank() < r,
        forall|i: int| pos <= i < es.len() ==> #[trigger] es[i].0.rank() >= r,
    ensures
        entries_below(es, r) == es.subrange(0, pos),
        pos < es.len() && es[pos].0.rank() == r ==> {
            &&& entries_above(es, r) == es.subrange(pos + 1, es.len() as int)
            &&& es.filter(at(r)) == seq![es[pos]]
            &&& entries_upto(es, r) == es.subrange(0, pos + 1)
        },
        !(pos < es.len() && es[pos].0.rank() == r) ==> {
            &&& entries_above(es, r) == es.subrange(pos, es.len() as int)
            &&& es.filter(at(r)) == Seq::<(K, V)>::empty()
            &&& entries_upto(es, r) == es.subrange(0, pos)
        },
{
    lemma_filter_prefix(es, below(r), pos);
    if pos < es.len() && es[pos].0.rank() == r {
        assert forall|i: int| pos + 1 <= i < es.len() implies #[trigger] es[i].0.rank() > r by {
            assert(es[pos].0.rank() < es[i].0.rank());
        }
        lemma_filter_suffix(es, above(r), pos + 1);
        lemma_filter_single(es, at(r), pos);
        lemma_filter_prefix(es, upto(r), pos + 1);
    } else {
        assert forall|i: int| pos <= i < es.len() implies #[trigger] es[i].0.rank() > r by {
            if pos < es.len() {
                assert(es[pos].0.rank() > r);
                if i > pos {
                    assert(es[pos].0.rank() < es[i].0.rank());
                }
            }
        }
        lemma_filter_suffix(es, above(r), pos);
        lemma_filter_none(es, at(r));
        lemma_filter_prefix(es, upto(r), pos);
    }
}

/// Putting an entry into a run that lies between entries wholly below it
/// and entries wholly above it only changes that run.
pub proof fn lemma_insert_entry_route<K: TreeKey, V>(
    a: Seq<(K, V)>,
    x: Seq<(K, V)>,
    b: Seq<(K, V)>,
    k: K,
    v: V,
)
    requires
        forall|i: int| 0 <= i < a.len() ==> #[trigger] a[i].0.rank() < k.rank(),
        forall|i: int| 0 <= i < b.len() ==> #[trigger] b[i].0.rank() > k.rank(),
    ensures
        insert_entry(a + x + b, k, v) == a + insert_entry(x, k, v) + b,
{
    let r = k.rank();
    Seq::filter_distributes_over_add(a + x, b, below(r));
    Seq::filter_distributes_over_add(a, x, below(r));
    Seq::filter_distributes_over_add(a + x, b, above(r));
    Seq::filter_distributes_over_add(a, x, above(r));
    lemma_filter_all(a, below(r));
    lemma_filter_none(b, below(r));
    lemma_filter_none(a, above(r));
    lemma_filter_all(b, above(r));
    assert(insert_entry(a + x + b, k, v) =~= a + insert_entry(x, k, v) + b);
}

/// Putting an entry no smaller than the first key of a sorted run keeps the
/// rank of the first entry.
pub proof fn lemma_insert_entry_first<K: TreeKey, V>(x: Seq<(K, V)>, k: K, v: V)
    requires
        sorted(x),
        x.len() > 0,
        x[0].0.rank() <= k.rank(),
    ensures
        insert_entry(x, k, v).len() > 0,
        insert_entry(x, k, v)[0].0.rank() == x[0].0.rank(),
{
    let r = k.rank();
    if x[0].0.rank() == r {
        assert forall|i: int| 0 <= i < x.len() implies !below::<K, V>(r)(#[trigger] x[i]) by {
            if i > 0 {
                assert(x[0].0.rank() < x[i].0.rank());
            }
        }
        lemma_filter_none(x, below(r));
    } else {
        let rest = x.drop_first();
        assert(seq![x[0]] + rest =~= x);
        rest.lemma_filter_prepend(x[0], below(r));
    }
}

/// The point where a sorted run passes rank `r`: ranks before it are below
/// `r`, ranks from it on are at least `r`.
pub proof fn lemma_sorted_split_point<K: TreeKey, V>(es: Seq<(K, V)>, r: int) -> (pos: int)
    requires
        sorted(es),
    ensures
        0 <= pos <= es.len(),
        forall|i: int| 0 <= i < pos ==> #[trigger] es[i].0.rank() < r,
        forall|i: int| pos <= i < es.len() ==> #[trigger] es[i].0.rank() >= r,
    decreases es.len(),
{
    if es.len() == 0 {
        0
    } else if es.last().0.rank() < r {
        assert forall|i: int| 0 <= i < es.len() implies #[trigger] es[i].0.rank() < r by {
            if i < es.len() - 1 {
                assert(es[i].0.rank() < es[es.len() - 1].0.rank());
            }
        }
        es.len() as int
    } else {
        let d = es.drop_last();
        assert(sorted(d)) by {
            assert forall|i: int, j: int| 0 <= i < j < d.len() implies #[trigger] d[i].0.rank() < #[trigger] d[j].0.rank() by {
                assert(d[i] == es[i] && d[j] == es[j]);
            }
        }
        let p = lemma_sorted_split_point(d, r);
        assert forall|i: int| 0 <= i < p implies #[trigger] es[i].0.rank() < r by {
            assert(d[i] == es[i]);
        }
        assert forall|i: int| p <= i < es.len() implies #[trigger] es[i].0.rank() >= r by {
            if i < es.len() - 1 {
                assert(d[i] == es[i]);
            }
        }
        p
    }
}

/// In a sorted run, the value found under the key of entry `i` is its value.
pub proof fn lemma_lookup_index<K: TreeKey, V>(es: Seq<(K, V)>, i: int)
    requires
        sorted(es),
        0 <= i < es.len(),
    ensures
        lookup(es, es[i].0) == Some(es[i].1),
{
    let r = es[i].0.rank();
    assert forall|j: int| 0 <= j < es.len() && j != i implies !at::<K, V>(r)(#[trigger] es[j]) by {
        if j < i {
            assert(es[j].0.rank() < es[i].0.rank());
        } else {
            assert(es[i].0.rank() < es[j].0.rank());
        }
    }
    lemma_filter_single(es, at(r), i);
}

/// A key whose rank no entry has is not found.
pub proof fn lemma_lookup_absent<K: TreeKey, V>(es: Seq<(K, V)>, q: K)
    requires
        forall|i: int| 0 <= i < es.len() ==> #[trigger] es[i].0.rank() != q.rank(),
    ensures
        lookup(es, q) is None,
{
    lemma_filter_none(es, at(q.rank()));
}

/// Putting `(k, v)` into a sorted run: the run stays sorted and, seen as a
/// map, gains `k` mapped to `v`.
pub proof fn lemma_insert_entry_map<K: TreeKey, V>(es: Seq<(K, V)>, k: K, v: V)
    requires
        sorted(es),
    ensures
        sorted(insert_entry(es, k, v)),
        entries_map(insert_entry(es, k, v)) == entries_map(es).insert(k, v),
        insert_entry(es, k, v).len() == if entries_map(es).contains_key(k) {
            es.len()
        } else {
            es.len() + 1
        },
{
    let r = k.rank();
    let pos = lemma_sorted_split_point(es, r);
    lemma_sorted_split(es, r, pos);
    let found = pos < es.len() && es[pos].0.rank() == r;
    let p2 = if found {
        pos + 1
    } else {
        pos
    };
    let e2 = insert_entry(es, k, v);
    assert(e2 =~= es.subrange(0, pos) + seq![(k, v)] + es.subrange(p2, es.len() as int));
    assert forall|i: int| p2 <= i < es.len() implies #[trigger] es[i].0.rank() > r by {
        if found {
            assert(es[pos].0.rank() < es[i].0.rank());
        }
    }
    assert(sorted(e2)) by {
        assert forall|i: int, j: int| 0 <= i < j < e2.len() implies #[trigger] e2[i].0.rank() < #[trigger] e2[j].0.rank() by {
            if j < pos {
                assert(e2[i] == es[i] && e2[j] == es[j]);
            } else if i > pos {
                assert(e2[i] == es[i - pos - 1 + p2] && e2[j] == es[j - pos - 1 + p2]);
            } else if i == pos {
                assert(e2[j] == es[j - pos - 1 + p2]);
            } else if j == pos {
                assert(e2[i] == es[i]);
            } else {
                assert(e2[i] == es[i] && e2[j] == es[j - pos - 1 + p2]);
            }
        }
    }
    let m1 = entries_map(es);
    let m2 = entries_map(e2);
    assert forall|q: K| #[trigger] m2.contains_key(q) == m1.insert(k, v).contains_key(q) && (m2.contains_key(q)
        ==> m2[q] == m1.insert(k, v)[q]) by {
        if q.rank() == r {
            K::lemma_rank_injective(&q, &k);
            assert(e2[pos] == (k, v));
            lemma_lookup_index(e2, pos);
        } else if q.rank() < r {
            let qp = lemma_sorted_split_point(es, q.rank());
            if qp < es.len() && es[qp].0.rank() == q.rank() {
                assert(qp < pos);
                lemma_lookup_index(es, qp);
                assert(e2[qp] == es[qp]);
                lemma_lookup_index(e2, qp);
                K::lemma_rank_injective(&q, &es[qp].0);
            } else {
                assert forall|i: int| 0 <= i < es.len() implies #[trigger] es[i].0.rank() != q.rank() by {
                    if i > qp {
                        if qp < es.len() {
                            assert(es[qp].0.rank() < es[i].0.rank());
                        }
                    }
                }
                lemma_lookup_absent(es, q);
                assert forall|i: int| 0 <= i < e2.len() implies #[trigger] e2[i].0.rank() != q.rank() by {
                    if i < pos {
                        assert(e2[i] == es[i]);
                    } else if i > pos {
                        assert(e2[i] == es[i - pos - 1 + p2]);
                    }
                }
                lemma_lookup_absent(e2, q);
            }
        } else {
            let qp = lemma_sorted_split_point(es, q.rank());
            if qp < es.len() && es[qp].0.rank() == q.rank() {
                assert(qp >= p2);
                lemma_lookup_index(es, qp);
                let j = qp - p2 + pos + 1;
                assert(e2[j] == es[qp]);
                lemma_lookup_index(e2, j);
                K::lemma_rank_injective(&q, &es[qp].0);
            } else {
                assert forall|i: int| 0 <= i < es.len() implies #[trigger] es[i].0.rank() != q.rank() by {
                    if i > qp {
                        if qp < es.len() {
                            assert(es[qp].0.rank() < es[i].0.rank());
                        }
                    }
                }
                lemma_lookup_absent(es, q);
                assert forall|i: int| 0 <= i < e2.len() implies #[trigger] e2[i].0.rank() != q.rank() by {
                    if i < pos {
                        assert(e2[i] == es[i]);
                    } else if i > pos {
                        assert(e2[i] == es[i - pos - 1 + p2]);
                    }
                }
                lemma_lookup_absent(e2, q);
            }
        }
    }
    assert(m2 =~= m1.insert(k, v));
    // the length
    if found {
        lemma_lookup_index(es, pos);
        K::lemma_rank_injective(&es[pos].0, &k);
    } else {
        assert forall|i: int| 0 <= i < es.len() implies #[trigger] es[i].0.rank() != k.rank() by {
            if i > pos {
                assert(es[pos].0.rank() < es[i].0.rank());
            }
        }
        lemma_lookup_absent(es, k);
    }
}


/// What a read gives back after a write: after `(k, v)` is put into a sorted
/// run, `k` is found with `v`, and every other key is found as before.
pub proof fn lemma_read_after_write<K: TreeKey, V>(es: Seq<(K, V)>, k: K, v: V, q: K)
    requires
        sorted(es),
    ensures
        lookup(insert_entry(es, k, v), q) == if q == k {
            Some(v)
        } else {
            lookup(es, q)
        },
{
    lemma_insert_entry_map(es, k, v);
    let m = entries_map(es);
    let m2 = entries_map(insert_entry(es, k, v));
    assert(m2.contains_key(q) == (lookup(insert_entry(es, k, v), q) is Some));
    assert(m.contains_key(q) == (lookup(es, q) is Some));
    if q == k {
        assert(m2[q] == v);
    } else {
        assert(m2.contains_key(q) == m.contains_key(q));
        if m.contains_key(q) {
            assert(m2[q] == m[q]);
        }
    }
}

/// A sorted run holds one entry per key: the map it stands for has as many
/// keys as the run has entries.
pub proof fn lemma_len_counts_keys<K: TreeKey, V>(es: Seq<(K, V)>)
    requires
        sorted(es),
    ensures
        entries_map(es).dom().finite(),
        entries_map(es).dom().len() == es.len(),
    decreases es.len(),
{
    if es.len() == 0 {
        assert(entries_map(es).dom() =~= Set::<K>::empty()) by {
            assert forall|q: K| !entries_map(es).dom().contains(q) by {
                lemma_lookup_absent(es, q);
            }
        }
    } else {
        let d = es.drop_last();
        let (k, v) = es.last();
        let r = k.rank();
        assert(sorted(d)) by {
            assert forall|i: int, j: int| 0 <= i < j < d.len() implies #[trigger] d[i].0.rank()
                < #[trigger] d[j].0.rank() by {
                assert(d[i] == es[i] && d[j] == es[j]);
            }
        }
        lemma_len_counts_keys(d);
        assert forall|i: int| 0 <= i < d.len() implies #[trigger] d[i].0.rank() < r by {
            assert(d[i] == es[i]);
            assert(es[i].0.rank() < es[es.len() - 1].0.rank());
        }
        lemma_sorted_split(d, r, d.len() as int);
        assert(insert_entry(d, k, v) =~= es);
        lemma_insert_entry_map(d, k, v);
        assert(!entries_map(d).contains_key(k));
        assert(entries_map(es).dom() =~= entries_map(d).dom().insert(k));
    }
}

/// The greatest entry at most a stored key is that key's entry.
pub proof fn lemma_floor_of_stored_key<K: TreeKey, V>(es: Seq<(K, V)>, k: K)
    requires
        sorted(es),
        lookup(es, k) is Some,
    ensures
        floor_entry(es, k) == Some((k, lookup(es, k).unwrap())),
{
    let r = k.rank();
    let pos = lemma_sorted_split_point(es, r);
    lemma_sorted_split(es, r, pos);
    if !(pos < es.len() && es[pos].0.rank() == r) {
        assert(es.filter(at(r)).len() == 0);
        assert(false);
    }
    assert(es.filter(at(r))[0] == es[pos]);
    K::lemma_rank_injective(&es[pos].0, &k);
    assert(entries_upto(es, r).last() == es[pos]);
}

} // verus!
