//! An in-memory B+tree whose leaves hold the keys and values in key order.
use crate::keys::{
    above, at, below, entries_above, entries_below, entries_upto, floor_entry, in_range,
    insert_entry, lemma_filter_all, lemma_filter_none, lemma_filter_prefix,
    lemma_insert_entry_first, lemma_insert_entry_map, lemma_insert_entry_route, lemma_len_counts_keys,
    lemma_sorted_split, entries_map, lookup, rank_in, sorted, upto, TreeKey,
};
use vstd::prelude::*;
use vstd::std_specs::convert::FromSpecImpl;
use crate::page::PageError;
use crate::text::{concat, io_error_new, io_error_text, IoKind};

verus! {

pub struct BPlusTreeNode<K, V> {
    pub(crate) keys: Vec<K>,
    pub(crate) children: Vec<BPlusTreeNode<K, V>>,
    pub(crate) is_leaf: bool,
    pub(crate) values: Vec<V>,
}

/// The entries of a node, in order: those of a leaf's keys and values, or
/// those of an internal node's children one after the other.
pub closed spec fn node_entries<K, V>(n: BPlusTreeNode<K, V>) -> Seq<(K, V)>
    decreases n,
{
    if n.is_leaf {
        Seq::new(n.keys@.len(), |i: int| (n.keys@[i], n.values@[i]))
    } else {
        children_entries(n.children@)
    }
}

/// The entries of a sequence of nodes, one node after the other.
pub closed spec fn children_entries<K, V>(cs: Seq<BPlusTreeNode<K, V>>) -> Seq<(K, V)>
    decreases cs,
{
    if cs.len() == 0 {
        Seq::empty()
    } else {
        children_entries(cs.drop_last()) + node_entries(cs.last())
    }
}

/// The leaves below a node, left to right, each as its keys and its values.
pub closed spec fn node_leaves<K, V>(n: BPlusTreeNode<K, V>) -> Seq<(Seq<K>, Seq<V>)>
    decreases n,
{
    if n.is_leaf {
        seq![(n.keys@, n.values@)]
    } else {
        children_leaves(n.children@)
    }
}

/// The leaves below a sequence of nodes, one node after the other.
pub closed spec fn children_leaves<K, V>(cs: Seq<BPlusTreeNode<K, V>>) -> Seq<(Seq<K>, Seq<V>)>
    decreases cs,
{
    if cs.len() == 0 {
        Seq::empty()
    } else {
        children_leaves(cs.drop_last()) + node_leaves(cs.last())
    }
}

/// Every leaf below the node holds as many values as keys.
pub closed spec fn leaves_even<K, V>(n: BPlusTreeNode<K, V>) -> bool
    decreases n,
{
    if n.is_leaf {
        n.keys@.len() == n.values@.len()
    } else {
        forall|i: int| 0 <= i < n.children@.len() ==> leaves_even(#[trigger] n.children@[i])
    }
}

/// The views of the slices of leaves.
pub open spec fn slice_views<'a, K, V>(ls: Seq<(&'a [K], &'a [V])>) -> Seq<(Seq<K>, Seq<V>)> {
    ls.map_values(|p: (&'a [K], &'a [V])| (p.0@, p.1@))
}

/// The leaves of nodes put one after the other.
proof fn lemma_children_leaves_add<K, V>(a: Seq<BPlusTreeNode<K, V>>, b: Seq<BPlusTreeNode<K, V>>)
    ensures
        children_leaves(a + b) == children_leaves(a) + children_leaves(b),
    decreases b.len(),
{
    if b.len() == 0 {
        assert(a + b =~= a);
        assert(children_leaves(b) =~= Seq::<(Seq<K>, Seq<V>)>::empty());
        assert(children_leaves(a) + children_leaves(b) =~= children_leaves(a));
    } else {
        lemma_children_leaves_add(a, b.drop_last());
        assert((a + b).drop_last() =~= a + b.drop_last());
        assert((a + b).last() == b.last());
        assert(children_leaves(a + b) =~= children_leaves(a) + children_leaves(b));
    }
}

/// Each leaf below a node whose leaves are even holds as many values as
/// keys.
proof fn lemma_leaves_even<K, V>(n: BPlusTreeNode<K, V>)
    requires
        leaves_even(n),
    ensures
        forall|k: int| 0 <= k < node_leaves(n).len() ==> (#[trigger] node_leaves(n)[k]).0.len() == node_leaves(n)[k].1.len(),
    decreases n,
{
    if !n.is_leaf {
        assert forall|i: int| 0 <= i < n.children@.len() implies leaves_even(#[trigger] n.children@[i]) by {}
        lemma_children_leaves_even(n.children@, n.children@.len() as int);
        assert(n.children@.subrange(0, n.children@.len() as int) =~= n.children@);
        assert(node_leaves(n) == children_leaves(n.children@));
    } else {
        assert(node_leaves(n) == seq![(n.keys@, n.values@)]);
        assert(node_leaves(n).len() == 1);
        assert(node_leaves(n)[0] == (n.keys@, n.values@));
    }
}

/// The leaves below the first `m` of nodes whose leaves are even are even.
proof fn lemma_children_leaves_even<K, V>(cs: Seq<BPlusTreeNode<K, V>>, m: int)
    requires
        0 <= m <= cs.len(),
        forall|i: int| 0 <= i < cs.len() ==> leaves_even(#[trigger] cs[i]),
    ensures
        forall|k: int|
            0 <= k < children_leaves(cs.subrange(0, m)).len() ==> (#[trigger] children_leaves(cs.subrange(0, m))[k]).0.len()
                == children_leaves(cs.subrange(0, m))[k].1.len(),
    decreases cs, m,
{
    if m > 0 {
        lemma_children_leaves_even(cs, m - 1);
        let pre = cs.subrange(0, m);
        assert(pre.drop_last() =~= cs.subrange(0, m - 1));
        assert(pre.last() == cs[m - 1]);
        assert(leaves_even(cs[m - 1]));
        lemma_leaves_even(cs[m - 1]);
        let a = children_leaves(cs.subrange(0, m - 1));
        let b = node_leaves(cs[m - 1]);
        assert(children_leaves(pre) == a + b);
        assert forall|k: int| 0 <= k < (a + b).len() implies (#[trigger] (a + b)[k]).0.len() == (a + b)[k].1.len() by {
            if k < a.len() {
                assert((a + b)[k] == a[k]);
            } else {
                assert((a + b)[k] == b[k - a.len()]);
            }
        }
    } else {
        assert(cs.subrange(0, 0) =~= Seq::<BPlusTreeNode<K, V>>::empty());
    }
}

/// The shape of every node below: a leaf holds one value per key, an
/// internal node one child per key or one more.
pub closed spec fn node_shapes_ok<K, V>(n: BPlusTreeNode<K, V>) -> bool
    decreases n,
{
    if n.is_leaf {
        n.values@.len() == n.keys@.len()
    } else {
        &&& (n.children@.len() == n.keys@.len() || n.children@.len() == n.keys@.len() + 1)
        &&& forall|i: int| 0 <= i < n.children@.len() ==> node_shapes_ok(#[trigger] n.children@[i])
    }
}

/// A well-formed node is well shaped.
proof fn lemma_wf_shapes<K: TreeKey, V>(n: BPlusTreeNode<K, V>, lo: Option<int>, hi: Option<int>)
    requires
        node_wf(n, lo, hi),
    ensures
        node_shapes_ok(n),
    decreases n,
{
    if !n.is_leaf {
        assert forall|i: int| 0 <= i < n.children@.len() implies node_shapes_ok(#[trigger] n.children@[i]) by {
            lemma_wf_shapes(n.children@[i], child_lo(n, lo, i), child_hi(n, hi, i));
        }
    }
}

/// A well-formed node holds as many values as keys in each leaf.
proof fn lemma_wf_even<K: TreeKey, V>(n: BPlusTreeNode<K, V>, lo: Option<int>, hi: Option<int>)
    requires
        node_wf(n, lo, hi),
    ensures
        leaves_even(n),
    decreases n,
{
    if !n.is_leaf {
        assert forall|i: int| 0 <= i < n.children@.len() implies leaves_even(#[trigger] n.children@[i]) by {
            lemma_wf_even(n.children@[i], child_lo(n, lo, i), child_hi(n, hi, i));
        }
    }
}

/// Every leaf below the node holds at least one key.
pub closed spec fn leaves_nonempty<K, V>(n: BPlusTreeNode<K, V>) -> bool
    decreases n,
{
    if n.is_leaf {
        n.keys@.len() >= 1
    } else {
        forall|i: int| 0 <= i < n.children@.len() ==> leaves_nonempty(#[trigger] n.children@[i])
    }
}

/// The first key of the leftmost leaf below the node.
pub closed spec fn leftmost_key<K, V>(n: BPlusTreeNode<K, V>) -> Option<K>
    decreases n,
{
    if n.is_leaf {
        if n.keys@.len() > 0 {
            Some(n.keys@[0])
        } else {
            None
        }
    } else if n.children@.len() > 0 {
        leftmost_key(n.children@[0])
    } else {
        None
    }
}

/// The lower rank bound of child `i` of an internal node whose bounds are `lo`.
pub closed spec fn child_lo<K: TreeKey, V>(n: BPlusTreeNode<K, V>, lo: Option<int>, i: int) -> Option<
    int,
> {
    if i == 0 {
        lo
    } else {
        Some(n.keys@[i - 1].rank())
    }
}

/// The upper rank bound of child `i` of an internal node whose bounds are `hi`.
pub closed spec fn child_hi<K: TreeKey, V>(n: BPlusTreeNode<K, V>, hi: Option<int>, i: int) -> Option<
    int,
> {
    if i + 1 < n.children@.len() {
        Some(n.keys@[i].rank())
    } else {
        hi
    }
}

/// Keys whose ranks never go down.
pub open spec fn keys_nondecreasing<K: TreeKey>(ks: Seq<K>) -> bool {
    forall|i: int, j: int| 0 <= i <= j < ks.len() ==> #[trigger] ks[i].rank() <= #[trigger] ks[j].rank()
}

/// Strictly increasing keys never go down.
pub proof fn lemma_sorted_nondecreasing<K: TreeKey>(ks: Seq<K>)
    requires
        keys_sorted(ks),
    ensures
        keys_nondecreasing(ks),
{
    assert forall|i: int, j: int| 0 <= i <= j < ks.len() implies #[trigger] ks[i].rank() <= #[trigger] ks[j].rank() by {
        if i < j {
            assert(ks[i].rank() < ks[j].rank());
        }
    }
}

/// The keys of a node are strictly increasing.
pub open spec fn keys_sorted<K: TreeKey>(ks: Seq<K>) -> bool {
    forall|i: int, j: int| 0 <= i < j < ks.len() ==> #[trigger] ks[i].rank() < #[trigger] ks[j].rank()
}

/// Every node of the subtree holds at most its order of keys: a leaf at
/// most `leaf_order`, an internal node at most `inner_order`.
pub closed spec fn node_bounded<K, V>(n: BPlusTreeNode<K, V>, inner_order: int, leaf_order: int) -> bool
    decreases n,
{
    &&& n.keys@.len() <= if n.is_leaf {
        leaf_order
    } else {
        inner_order
    }
    &&& !n.is_leaf ==> forall|i: int|
        0 <= i < n.children@.len() ==> node_bounded(#[trigger] n.children@[i], inner_order, leaf_order)
}

/// The children of an internal node are bounded.
pub closed spec fn children_bounded<K, V>(cs: Seq<BPlusTreeNode<K, V>>, inner_order: int, leaf_order: int) -> bool {
    forall|i: int| 0 <= i < cs.len() ==> node_bounded(#[trigger] cs[i], inner_order, leaf_order)
}

/// A node whose keys fit its order and whose children are bounded is bounded.
proof fn lemma_bounded_from_parts<K, V>(n: BPlusTreeNode<K, V>, inner_order: int, leaf_order: int)
    requires
        n.keys@.len() <= if n.is_leaf {
            leaf_order
        } else {
            inner_order
        },
        !n.is_leaf ==> children_bounded(n.children@, inner_order, leaf_order),
    ensures
        node_bounded(n, inner_order, leaf_order),
{
}

/// The two halves of a node that overflowed by one key are bounded.
proof fn lemma_split_bounded<K, V>(
    pre: BPlusTreeNode<K, V>,
    left: BPlusTreeNode<K, V>,
    right: BPlusTreeNode<K, V>,
    order: int,
    inner_order: int,
    leaf_order: int,
)
    requires
        order >= 2,
        order == if pre.is_leaf {
            leaf_order
        } else {
            inner_order
        },
        pre.keys@.len() == order + 1,
        left.is_leaf == pre.is_leaf,
        right.is_leaf == pre.is_leaf,
        left.keys@.len() + right.keys@.len() == pre.keys@.len(),
        left.keys@.len() == if pre.is_leaf {
            order / 2
        } else {
            order / 2 + 1
        },
        !pre.is_leaf ==> children_bounded(pre.children@, inner_order, leaf_order),
        !pre.is_leaf ==> left.children@ + right.children@ == pre.children@,
    ensures
        node_bounded(left, inner_order, leaf_order),
        node_bounded(right, inner_order, leaf_order),
{
    if !pre.is_leaf {
        assert forall|i: int| 0 <= i < left.children@.len() implies node_bounded(
            #[trigger] left.children@[i],
            inner_order,
            leaf_order,
        ) by {
            assert(pre.children@[i] == (left.children@ + right.children@)[i]);
        }
        assert forall|i: int| 0 <= i < right.children@.len() implies node_bounded(
            #[trigger] right.children@[i],
            inner_order,
            leaf_order,
        ) by {
            assert(pre.children@[left.children@.len() + i] == (left.children@ + right.children@)[left.children@.len()
                + i]);
        }
    }
}

/// The number of levels below a node, counted down its first children.
pub closed spec fn node_height<K, V>(n: BPlusTreeNode<K, V>) -> nat
    decreases n,
{
    if n.is_leaf || n.children@.len() == 0 {
        0
    } else {
        1 + node_height(n.children@[0])
    }
}

/// All leaves of the subtree lie at the same depth: each child of an
/// internal node is one level lower than the node, and balanced itself.
pub closed spec fn node_balanced<K, V>(n: BPlusTreeNode<K, V>) -> bool
    decreases n,
{
    !n.is_leaf ==> {
        &&& n.children@.len() >= 1
        &&& forall|i: int|
            0 <= i < n.children@.len() ==> node_balanced(#[trigger] n.children@[i]) && node_height(n.children@[i])
                + 1 == node_height(n)
    }
}

/// The two halves of a balanced node are balanced, as high as the node.
proof fn lemma_split_balanced<K, V>(pre: BPlusTreeNode<K, V>, left: BPlusTreeNode<K, V>, right: BPlusTreeNode<K, V>)
    requires
        node_balanced(pre),
        left.is_leaf == pre.is_leaf,
        right.is_leaf == pre.is_leaf,
        !pre.is_leaf ==> left.children@ + right.children@ == pre.children@,
        !pre.is_leaf ==> left.children@.len() >= 1 && right.children@.len() >= 1,
    ensures
        node_balanced(left),
        node_balanced(right),
        node_height(left) == node_height(pre),
        node_height(right) == node_height(pre),
{
    if !pre.is_leaf {
        let l = left.children@;
        let r = right.children@;
        assert(pre.children@[0] == (l + r)[0]);
        assert forall|i: int| 0 <= i < l.len() implies node_balanced(#[trigger] l[i]) && node_height(l[i]) + 1
            == node_height(left) by {
            assert(pre.children@[i] == (l + r)[i]);
        }
        assert(pre.children@[l.len() as int] == (l + r)[l.len() as int]);
        assert forall|i: int| 0 <= i < r.len() implies node_balanced(#[trigger] r[i]) && node_height(r[i]) + 1
            == node_height(right) by {
            assert(pre.children@[l.len() + i] == (l + r)[l.len() + i]);
        }
    }
}

/// Replacing a child of a balanced internal node by a balanced node as
/// high keeps the node balanced and as high.
proof fn lemma_balanced_update<K, V>(n0: BPlusTreeNode<K, V>, n1: BPlusTreeNode<K, V>, pos: int, child: BPlusTreeNode<K, V>)
    requires
        !n0.is_leaf,
        !n1.is_leaf,
        node_balanced(n0),
        0 <= pos < n0.children@.len(),
        n1.children@ == n0.children@.update(pos, child),
        node_balanced(child),
        node_height(child) == node_height(n0.children@[pos]),
    ensures
        node_balanced(n1),
        node_height(n1) == node_height(n0),
{
    let cs = n1.children@;
    assert(node_balanced(n0.children@[0]));
    assert(node_height(cs[0]) == node_height(n0.children@[0]));
    assert forall|i: int| 0 <= i < cs.len() implies node_balanced(#[trigger] cs[i]) && node_height(cs[i]) + 1
        == node_height(n1) by {
        assert(node_balanced(n0.children@[i]));
    }
}

/// Inserting, after the first child of a balanced internal node, a balanced
/// node one level lower keeps the node balanced and as high.
proof fn lemma_balanced_insert<K, V>(n1: BPlusTreeNode<K, V>, n2: BPlusTreeNode<K, V>, idx: int, t: BPlusTreeNode<K, V>)
    requires
        !n1.is_leaf,
        !n2.is_leaf,
        node_balanced(n1),
        1 <= idx <= n1.children@.len(),
        n2.children@ == n1.children@.insert(idx, t),
        node_balanced(t),
        node_height(t) + 1 == node_height(n1),
    ensures
        node_balanced(n2),
        node_height(n2) == node_height(n1),
{
    let cs = n2.children@;
    assert(cs[0] == n1.children@[0]);
    assert forall|i: int| 0 <= i < cs.len() implies node_balanced(#[trigger] cs[i]) && node_height(cs[i]) + 1
        == node_height(n2) by {
        if i < idx {
            assert(cs[i] == n1.children@[i]);
        } else if i > idx {
            assert(cs[i] == n1.children@[i - 1]);
        }
    }
}

/// Replacing a child of a bounded internal node by a bounded node keeps
/// its children bounded.
proof fn lemma_bounded_update<K, V>(
    n0: BPlusTreeNode<K, V>,
    cs: Seq<BPlusTreeNode<K, V>>,
    pos: int,
    child: BPlusTreeNode<K, V>,
    inner_order: int,
    leaf_order: int,
)
    requires
        !n0.is_leaf,
        node_bounded(n0, inner_order, leaf_order),
        0 <= pos < n0.children@.len(),
        cs == n0.children@.update(pos, child),
        node_bounded(child, inner_order, leaf_order),
    ensures
        children_bounded(cs, inner_order, leaf_order),
{
    assert forall|i: int| 0 <= i < cs.len() implies node_bounded(#[trigger] cs[i], inner_order, leaf_order) by {
        if i != pos {
            assert(cs[i] == n0.children@[i]);
        }
    }
}

/// Inserting a bounded node among bounded children keeps them bounded.
proof fn lemma_bounded_insert<K, V>(
    cs: Seq<BPlusTreeNode<K, V>>,
    cs2: Seq<BPlusTreeNode<K, V>>,
    idx: int,
    t: BPlusTreeNode<K, V>,
    inner_order: int,
    leaf_order: int,
)
    requires
        children_bounded(cs, inner_order, leaf_order),
        0 <= idx <= cs.len(),
        cs2 == cs.insert(idx, t),
        node_bounded(t, inner_order, leaf_order),
    ensures
        children_bounded(cs2, inner_order, leaf_order),
{
    assert forall|i: int| 0 <= i < cs2.len() implies node_bounded(#[trigger] cs2[i], inner_order, leaf_order) by {
        if i < idx {
            assert(cs2[i] == cs[i]);
        } else if i > idx {
            assert(cs2[i] == cs[i - 1]);
        }
    }
}

/// A well-formed node for the key range `[lo, hi)`.
///
/// A leaf holds one value per key, its keys sorted and in range. An internal
/// node has sorted keys that route each key to the child whose range holds
/// it: child `i` holds the keys from key `i - 1` up to key `i`. Each child but
/// the first starts with the key that separates it from its left sibling.
/// An internal node that was the left half of a split keeps the separator
/// it handed up as its last key, with no child after it; that key is then
/// at least the upper bound of the node.
pub closed spec fn node_wf<K: TreeKey, V>(n: BPlusTreeNode<K, V>, lo: Option<int>, hi: Option<int>) -> bool
    decreases n,
{
    &&& keys_sorted(n.keys@)
    &&& forall|i: int| 0 <= i < n.keys@.len() ==> (lo matches Some(l) ==> l <= #[trigger] n.keys@[i].rank())
    &&& if n.is_leaf {
        &&& n.values@.len() == n.keys@.len()
        &&& forall|i: int| 0 <= i < n.keys@.len() ==> rank_in(#[trigger] n.keys@[i].rank(), lo, hi)
    } else {
        let c = n.children@.len();
        let k = n.keys@.len();
        &&& c >= 1
        &&& (c == k + 1 || (c == k && hi is Some && n.keys@[k - 1].rank() >= hi.unwrap()))
        &&& forall|i: int| 0 <= i < c - 1 ==> (hi matches Some(h) ==> #[trigger] n.keys@[i].rank() < h)
        &&& forall|i: int|
            0 <= i < c ==> node_wf(#[trigger] n.children@[i], child_lo(n, lo, i), child_hi(n, hi, i))
        &&& forall|i: int| 0 <= i < c ==> leaves_nonempty(#[trigger] n.children@[i])
        &&& forall|i: int|
            1 <= i < c ==> node_entries(#[trigger] n.children@[i]).len() > 0 && node_entries(
                n.children@[i],
            )[0].0.rank() == n.keys@[i - 1].rank()
    }
}

/// The entries of nodes put one after the other.
pub proof fn lemma_children_entries_add<K, V>(a: Seq<BPlusTreeNode<K, V>>, b: Seq<BPlusTreeNode<K, V>>)
    ensures
        children_entries(a + b) == children_entries(a) + children_entries(b),
    decreases b.len(),
{
    if b.len() == 0 {
        assert(a + b =~= a);
        assert(children_entries(b) =~= Seq::<(K, V)>::empty());
        assert(children_entries(a) + children_entries(b) =~= children_entries(a));
    } else {
        lemma_children_entries_add(a, b.drop_last());
        assert((a + b).drop_last() =~= a + b.drop_last());
        assert((a + b).last() == b.last());
        assert(children_entries(a + b) =~= children_entries(a) + children_entries(b));
    }
}

/// The entries of one node.
pub proof fn lemma_children_entries_one<K, V>(c: BPlusTreeNode<K, V>)
    ensures
        children_entries(seq![c]) == node_entries(c),
{
    assert(seq![c].drop_last() =~= Seq::<BPlusTreeNode<K, V>>::empty());
    assert(children_entries(Seq::<BPlusTreeNode<K, V>>::empty()) + node_entries(c) =~= node_entries(c));
}

/// Two sorted runs, the first below `mid` and the second from `mid` on,
/// make one sorted run.
pub proof fn lemma_sorted_concat<K: TreeKey, V>(
    a: Seq<(K, V)>,
    b: Seq<(K, V)>,
    lo: Option<int>,
    mid: int,
    hi: Option<int>,
)
    requires
        sorted(a),
        sorted(b),
        in_range(a, lo, Some(mid)),
        in_range(b, Some(mid), hi),
        lo matches Some(l) ==> l <= mid,
        hi matches Some(h) ==> mid <= h,
    ensures
        sorted(a + b),
        in_range(a + b, lo, hi),
{
    let c = a + b;
    assert forall|i: int, j: int| 0 <= i < j < c.len() implies #[trigger] c[i].0.rank() < #[trigger] c[j].0.rank() by {
        if j < a.len() {
            assert(c[i] == a[i] && c[j] == a[j]);
        } else if i >= a.len() {
            assert(c[i] == b[i - a.len()] && c[j] == b[j - a.len()]);
        } else {
            assert(c[i] == a[i] && c[j] == b[j - a.len()]);
        }
    }
    assert forall|i: int| 0 <= i < c.len() implies (lo matches Some(l) ==> l <= #[trigger] c[i].0.rank()) && (
    hi matches Some(h) ==> c[i].0.rank() < h) by {
        if i < a.len() {
            assert(c[i] == a[i]);
        } else {
            assert(c[i] == b[i - a.len()]);
        }
    }
}

/// The entries of a well-formed node are sorted and in its range; a node
/// whose leaves are all nonempty has entries, the first of which has the
/// key of its leftmost leaf.
pub(crate) proof fn lemma_wf_entries<K: TreeKey, V>(n: BPlusTreeNode<K, V>, lo: Option<int>, hi: Option<int>)
    requires
        node_wf(n, lo, hi),
    ensures
        sorted(node_entries(n)),
        in_range(node_entries(n), lo, hi),
        leaves_nonempty(n) ==> node_entries(n).len() > 0 && leftmost_key(n) == Some(
            node_entries(n)[0].0,
        ),
    decreases n, n.children@.len() + 1,
{
    if n.is_leaf {
        let es = node_entries(n);
        assert forall|i: int, j: int| 0 <= i < j < es.len() implies #[trigger] es[i].0.rank() < #[trigger] es[j].0.rank() by {
            assert(es[i].0 == n.keys@[i] && es[j].0 == n.keys@[j]);
        }
        assert forall|i: int| 0 <= i < es.len() implies (lo matches Some(l) ==> l <= #[trigger] es[i].0.rank()) && (
        hi matches Some(h) ==> es[i].0.rank() < h) by {
            assert(es[i].0 == n.keys@[i]);
            assert(rank_in(n.keys@[i].rank(), lo, hi));
        }
    } else {
        let c = n.children@.len() as int;
        lemma_wf_children_range(n, lo, hi, 0, c);
        assert(n.children@.subrange(0, c) =~= n.children@);
        assert(child_lo(n, lo, 0) == lo);
        assert(child_hi(n, hi, c - 1) == hi);
        if leaves_nonempty(n) {
            let c0 = n.children@[0];
            assert(leaves_nonempty(c0));
            lemma_wf_entries(c0, child_lo(n, lo, 0), child_hi(n, hi, 0));
            lemma_children_entries_add(seq![c0], n.children@.subrange(1, c));
            lemma_children_entries_one(c0);
            assert(seq![c0] + n.children@.subrange(1, c) =~= n.children@);
        }
    }
}

/// The entries of children `j..m` of a well-formed internal node are sorted
/// and lie between the lower bound of child `j` and the upper bound of
/// child `m - 1`.
pub(crate) proof fn lemma_wf_children_range<K: TreeKey, V>(
    n: BPlusTreeNode<K, V>,
    lo: Option<int>,
    hi: Option<int>,
    j: int,
    m: int,
)
    requires
        node_wf(n, lo, hi),
        !n.is_leaf,
        0 <= j <= m <= n.children@.len(),
    ensures
        sorted(children_entries(n.children@.subrange(j, m))),
        in_range(
            children_entries(n.children@.subrange(j, m)),
            child_lo(n, lo, j),
            if m == j {
                child_lo(n, lo, j)
            } else {
                child_hi(n, hi, m - 1)
            },
        ),
    decreases n, m - j,
{
    let cs = n.children@;
    if m == j {
        assert(cs.subrange(j, j) =~= Seq::<BPlusTreeNode<K, V>>::empty());
    } else {
        lemma_wf_children_range(n, lo, hi, j, m - 1);
        let child = cs[m - 1];
        assert(node_wf(child, child_lo(n, lo, m - 1), child_hi(n, hi, m - 1)));
        lemma_wf_entries(child, child_lo(n, lo, m - 1), child_hi(n, hi, m - 1));
        assert(cs.subrange(j, m).drop_last() =~= cs.subrange(j, m - 1));
        let a = children_entries(cs.subrange(j, m - 1));
        let b = node_entries(child);
        assert(children_entries(cs.subrange(j, m)) == a + b);
        if m == j + 1 {
            assert(a =~= Seq::<(K, V)>::empty());
            assert(a + b =~= b);
        } else {
            let mid = n.keys@[m - 2].rank();
            assert(child_hi(n, hi, m - 2) == Some(mid));
            assert(child_lo(n, lo, m - 1) == Some(mid));
            if j > 0 {
                assert(n.keys@[j - 1].rank() < mid);
            }
            if m - 1 + 1 < cs.len() {
                assert(n.keys@[m - 2].rank() < n.keys@[m - 1].rank());
            } else {
                assert(hi matches Some(h) ==> mid < h);
            }
            lemma_sorted_concat(a, b, child_lo(n, lo, j), mid, child_hi(n, hi, m - 1));
        }
    }
}

/// The entries of a well-formed internal node, seen around child `i`: those
/// of the children before it, lying below its lower bound, its own, and
/// those of the children after it, lying from its upper bound on.
pub(crate) proof fn lemma_wf_route<K: TreeKey, V>(n: BPlusTreeNode<K, V>, lo: Option<int>, hi: Option<int>, i: int)
    requires
        node_wf(n, lo, hi),
        !n.is_leaf,
        0 <= i < n.children@.len(),
    ensures
        ({
            let cs = n.children@;
            let a = children_entries(cs.subrange(0, i));
            let x = node_entries(cs[i]);
            let b = children_entries(cs.subrange(i + 1, cs.len() as int));
            &&& node_entries(n) == a + x + b
            &&& sorted(a) && sorted(x) && sorted(b)
            &&& i == 0 ==> a.len() == 0
            &&& i > 0 ==> in_range(a, lo, child_lo(n, lo, i))
            &&& in_range(x, child_lo(n, lo, i), child_hi(n, hi, i))
            &&& i == cs.len() - 1 ==> b.len() == 0
            &&& i < cs.len() - 1 ==> in_range(b, child_hi(n, hi, i), hi)
        }),
{
    let cs = n.children@;
    let c = cs.len() as int;
    lemma_wf_children_range(n, lo, hi, 0, i);
    lemma_wf_children_range(n, lo, hi, i + 1, c);
    lemma_wf_entries(cs[i], child_lo(n, lo, i), child_hi(n, hi, i));
    lemma_children_entries_add(cs.subrange(0, i), cs.subrange(i, c));
    lemma_children_entries_add(seq![cs[i]], cs.subrange(i + 1, c));
    lemma_children_entries_one(cs[i]);
    assert(cs.subrange(0, i) + cs.subrange(i, c) =~= cs);
    assert(seq![cs[i]] + cs.subrange(i + 1, c) =~= cs.subrange(i, c));
    if i == 0 {
        assert(cs.subrange(0, 0) =~= Seq::<BPlusTreeNode<K, V>>::empty());
    }
    if i == c - 1 {
        assert(cs.subrange(c, c) =~= Seq::<BPlusTreeNode<K, V>>::empty());
    }
    if i < c - 1 {
        assert(child_lo(n, lo, i + 1) == child_hi(n, hi, i));
        assert(child_hi(n, hi, c - 1) == hi);
    }
    if i > 0 {
        assert(child_lo(n, lo, 0) == lo);
    }
    assert(node_entries(n) =~= children_entries(cs.subrange(0, i)) + node_entries(cs[i])
        + children_entries(cs.subrange(i + 1, c)));
}

/// The number of keys at most `key`: the index of the child that `key` is
/// routed to.
pub fn get_entry_index_upper_bound<K: TreeKey>(keys: &[K], key: &K) -> (r: usize)
    ensures
        r <= keys@.len(),
        keys_nondecreasing(keys@) ==> forall|i: int| 0 <= i < r ==> #[trigger] keys@[i].rank() <= key.rank(),
        keys_nondecreasing(keys@) ==> forall|i: int| r <= i < keys@.len() ==> #[trigger] keys@[i].rank() > key.rank(),
{
    let mut left: usize = 0;
    let mut right: usize = keys.len();
    while left < right
        invariant
            left <= right <= keys@.len(),
            keys_nondecreasing(keys@) ==> forall|i: int| 0 <= i < left ==> #[trigger] keys@[i].rank() <= key.rank(),
            keys_nondecreasing(keys@) ==> forall|i: int| right <= i < keys@.len() ==> #[trigger] keys@[i].rank()
                > key.rank(),
        decreases right - left,
    {
        let mid = left + (right - left) / 2;
        if !key.key_lt(&keys[mid]) {
            left = mid + 1;
        } else {
            right = mid;
        }
    }
    left
}

/// Searches sorted keys for `key`: `Ok` with its index, or `Err` with the
/// index at which it would be inserted.
pub(crate) fn binary_search_key<K: TreeKey>(keys: &[K], key: &K) -> (r: Result<usize, usize>)
    requires
        keys_sorted(keys@),
    ensures
        match r {
            Ok(i) => i < keys@.len() && keys@[i as int].rank() == key.rank() && (forall|j: int|
                0 <= j < i ==> #[trigger] keys@[j].rank() < key.rank()),
            Err(i) => i <= keys@.len() && (forall|j: int|
                0 <= j < i ==> #[trigger] keys@[j].rank() < key.rank()) && (forall|j: int|
                i <= j < keys@.len() ==> #[trigger] keys@[j].rank() > key.rank()),
        },
{
    let mut left: usize = 0;
    let mut right: usize = keys.len();
    while left < right
        invariant
            left <= right <= keys@.len(),
            keys_sorted(keys@),
            forall|i: int| 0 <= i < left ==> #[trigger] keys@[i].rank() < key.rank(),
            forall|i: int| right <= i < keys@.len() ==> #[trigger] keys@[i].rank() >= key.rank(),
        decreases right - left,
    {
        let mid = left + (right - left) / 2;
        if keys[mid].key_lt(key) {
            left = mid + 1;
        } else {
            right = mid;
        }
    }
    if left < keys.len() && keys[left].key_eq(key) {
        Ok(left)
    } else {
        proof {
            assert forall|j: int| left <= j < keys@.len() implies #[trigger] keys@[j].rank() > key.rank() by {
                if j > left as int {
                    assert(keys@[left as int].rank() < keys@[j].rank());
                }
            }
        }
        Err(left)
    }
}

/// The entries of a leaf, taken from its keys and values.
pub(crate) proof fn lemma_leaf_entries<K: TreeKey, V>(n: BPlusTreeNode<K, V>)
    requires
        n.is_leaf,
        n.values@.len() == n.keys@.len(),
    ensures
        node_entries(n).len() == n.keys@.len(),
        forall|i: int| 0 <= i < n.keys@.len() ==> #[trigger] node_entries(n)[i] == (n.keys@[i], n.values@[i]),
{
}

/// Filtering a run that lies wholly below or wholly above `r` by keys at `r` leaves nothing.
pub proof fn lemma_filter_at_outside<K: TreeKey, V>(es: Seq<(K, V)>, r: int)
    requires
        forall|i: int| 0 <= i < es.len() ==> #[trigger] es[i].0.rank() != r,
    ensures
        es.filter(at(r)) == Seq::<(K, V)>::empty(),
{
    lemma_filter_none(es, at(r));
}

/// Splitting a leaf at `m`: both halves are well formed on either side of
/// the first key of the right half, and their entries, one after the other,
/// are the leaf's.
pub(crate) proof fn lemma_leaf_split<K: TreeKey, V>(
    n: BPlusTreeNode<K, V>,
    lo: Option<int>,
    hi: Option<int>,
    m: int,
    left: BPlusTreeNode<K, V>,
    right: BPlusTreeNode<K, V>,
)
    requires
        node_wf(n, lo, hi),
        n.is_leaf,
        1 <= m < n.keys@.len(),
        left.is_leaf,
        right.is_leaf,
        left.keys@ == n.keys@.subrange(0, m),
        left.values@ == n.values@.subrange(0, m),
        right.keys@ == n.keys@.subrange(m, n.keys@.len() as int),
        right.values@ == n.values@.subrange(m, n.values@.len() as int),
    ensures
        ({
            let sep = n.keys@[m].rank();
            &&& node_wf(left, lo, Some(sep))
            &&& node_wf(right, Some(sep), hi)
            &&& leaves_nonempty(left)
            &&& leaves_nonempty(right)
            &&& node_entries(left) + node_entries(right) == node_entries(n)
            &&& node_entries(right).len() > 0
            &&& node_entries(right)[0].0.rank() == sep
        }),
{
    let sep = n.keys@[m].rank();
    let k = n.keys@.len() as int;
    assert forall|i: int| 0 <= i < m implies rank_in(#[trigger] left.keys@[i].rank(), lo, Some(sep)) by {
        assert(left.keys@[i] == n.keys@[i]);
        assert(n.keys@[i].rank() < n.keys@[m].rank());
        assert(rank_in(n.keys@[i].rank(), lo, hi));
    }
    assert forall|i: int| 0 <= i < k - m implies rank_in(#[trigger] right.keys@[i].rank(), Some(sep), hi) by {
        assert(right.keys@[i] == n.keys@[m + i]);
        if i > 0 {
            assert(n.keys@[m].rank() < n.keys@[m + i].rank());
        }
        assert(rank_in(n.keys@[m + i].rank(), lo, hi));
    }
    assert(node_entries(left) + node_entries(right) =~= node_entries(n));
}

/// Splitting an internal node after key `m`: the left half keeps keys
/// `0..=m` and children `0..=m`, the right half takes the rest. Both halves
/// are well formed on either side of key `m`, which starts the right half,
/// and their entries, one after the other, are the node's.
pub(crate) proof fn lemma_internal_split<K: TreeKey, V>(
    n: BPlusTreeNode<K, V>,
    lo: Option<int>,
    hi: Option<int>,
    m: int,
    left: BPlusTreeNode<K, V>,
    right: BPlusTreeNode<K, V>,
)
    requires
        node_wf(n, lo, hi),
        leaves_nonempty(n),
        !n.is_leaf,
        1 <= m,
        m + 2 <= n.children@.len(),
        m + 1 <= n.keys@.len(),
        !left.is_leaf,
        !right.is_leaf,
        left.keys@ == n.keys@.subrange(0, m + 1),
        left.children@ == n.children@.subrange(0, m + 1),
        right.keys@ == n.keys@.subrange(m + 1, n.keys@.len() as int),
        right.children@ == n.children@.subrange(m + 1, n.children@.len() as int),
    ensures
        ({
            let sep = n.keys@[m].rank();
            &&& node_wf(left, lo, Some(sep))
            &&& node_wf(right, Some(sep), hi)
            &&& leaves_nonempty(left)
            &&& leaves_nonempty(right)
            &&& node_entries(left) + node_entries(right) == node_entries(n)
            &&& node_entries(right).len() > 0
            &&& node_entries(right)[0].0.rank() == sep
        }),
{
    let sep = n.keys@[m].rank();
    let k = n.keys@.len() as int;
    let c = n.children@.len() as int;
    let cs = n.children@;
    // left half
    assert forall|i: int| 0 <= i < m + 1 implies node_wf(
        #[trigger] left.children@[i],
        child_lo(left, lo, i),
        child_hi(left, Some(sep), i),
    ) by {
        assert(left.children@[i] == cs[i]);
        assert(child_lo(left, lo, i) == child_lo(n, lo, i));
        assert(child_hi(left, Some(sep), i) == child_hi(n, hi, i));
        assert(node_wf(cs[i], child_lo(n, lo, i), child_hi(n, hi, i)));
    }
    assert forall|i: int| 0 <= i < m + 1 implies leaves_nonempty(#[trigger] left.children@[i]) by {
        assert(left.children@[i] == cs[i]);
    }
    assert forall|i: int| 1 <= i < m + 1 implies node_entries(#[trigger] left.children@[i]).len() > 0
        && node_entries(left.children@[i])[0].0.rank() == left.keys@[i - 1].rank() by {
        assert(left.children@[i] == cs[i]);
    }
    assert forall|i: int| 0 <= i < m implies (Some(sep) matches Some(h) ==> #[trigger] left.keys@[i].rank() < h) by {
        assert(n.keys@[i].rank() < n.keys@[m].rank());
    }
    assert(node_wf(left, lo, Some(sep)));
    // right half
    let kr = k - m - 1;
    let cr = c - m - 1;
    assert forall|i: int| 0 <= i < kr implies (Some(sep) matches Some(l) ==> l <= #[trigger] right.keys@[i].rank()) by {
        assert(right.keys@[i] == n.keys@[m + 1 + i]);
        assert(n.keys@[m].rank() < n.keys@[m + 1 + i].rank());
    }
    assert forall|i: int| 0 <= i < cr - 1 implies (hi matches Some(h) ==> #[trigger] right.keys@[i].rank() < h) by {
        assert(right.keys@[i] == n.keys@[m + 1 + i]);
    }
    assert forall|i: int| 0 <= i < cr implies node_wf(
        #[trigger] right.children@[i],
        child_lo(right, Some(sep), i),
        child_hi(right, hi, i),
    ) by {
        assert(right.children@[i] == cs[m + 1 + i]);
        assert(child_lo(right, Some(sep), i) == child_lo(n, lo, m + 1 + i));
        assert(child_hi(right, hi, i) == child_hi(n, hi, m + 1 + i));
        assert(node_wf(cs[m + 1 + i], child_lo(n, lo, m + 1 + i), child_hi(n, hi, m + 1 + i)));
    }
    assert forall|i: int| 0 <= i < cr implies leaves_nonempty(#[trigger] right.children@[i]) by {
        assert(right.children@[i] == cs[m + 1 + i]);
    }
    assert forall|i: int| 1 <= i < cr implies node_entries(#[trigger] right.children@[i]).len() > 0
        && node_entries(right.children@[i])[0].0.rank() == right.keys@[i - 1].rank() by {
        assert(right.children@[i] == cs[m + 1 + i]);
        assert(right.keys@[i - 1] == n.keys@[m + i]);
    }
    if c == k {
        assert(right.keys@[kr - 1] == n.keys@[k - 1]);
    }
    assert(node_wf(right, Some(sep), hi));
    // entries
    lemma_children_entries_add(cs.subrange(0, m + 1), cs.subrange(m + 1, c));
    assert(cs.subrange(0, m + 1) + cs.subrange(m + 1, c) =~= cs);
    lemma_children_entries_add(seq![cs[m + 1]], cs.subrange(m + 2, c));
    assert(seq![cs[m + 1]] + cs.subrange(m + 2, c) =~= cs.subrange(m + 1, c));
    lemma_children_entries_one(cs[m + 1]);
    assert(node_entries(right) == node_entries(cs[m + 1]) + children_entries(cs.subrange(m + 2, c)));
}

/// Putting a new key into a leaf at the position where it belongs.
pub(crate) proof fn lemma_leaf_insert_new<K: TreeKey, V>(
    n: BPlusTreeNode<K, V>,
    lo: Option<int>,
    hi: Option<int>,
    pos: int,
    k: K,
    v: V,
    n2: BPlusTreeNode<K, V>,
)
    requires
        node_wf(n, lo, hi),
        n.is_leaf,
        rank_in(k.rank(), lo, hi),
        0 <= pos <= n.keys@.len(),
        forall|j: int| 0 <= j < pos ==> #[trigger] n.keys@[j].rank() < k.rank(),
        forall|j: int| pos <= j < n.keys@.len() ==> #[trigger] n.keys@[j].rank() > k.rank(),
        n2.is_leaf,
        n2.keys@ == n.keys@.insert(pos, k),
        n2.values@ == n.values@.insert(pos, v),
    ensures
        node_wf(n2, lo, hi),
        leaves_nonempty(n2),
        node_entries(n2) == insert_entry(node_entries(n), k, v),
{
    lemma_wf_entries(n, lo, hi);
    lemma_leaf_entries(n);
    let es = node_entries(n);
    lemma_sorted_split(es, k.rank(), pos);
    assert(node_entries(n2) =~= es.subrange(0, pos) + seq![(k, v)] + es.subrange(pos, es.len() as int));
    assert forall|i: int, j: int| 0 <= i < j < n2.keys@.len() implies #[trigger] n2.keys@[i].rank() < #[trigger] n2.keys@[j].rank() by {
        if j < pos {
        } else if i > pos {
            assert(n.keys@[i - 1].rank() < n.keys@[j - 1].rank());
        } else if i == pos {
        } else if j == pos {
        } else {
        }
    }
    assert forall|i: int| 0 <= i < n2.keys@.len() implies rank_in(#[trigger] n2.keys@[i].rank(), lo, hi) by {
        if i < pos {
            assert(n2.keys@[i] == n.keys@[i]);
        } else if i > pos {
            assert(n2.keys@[i] == n.keys@[i - 1]);
        }
    }
}

/// Storing a value under a key that a leaf holds at `pos`.
pub(crate) proof fn lemma_leaf_insert_existing<K: TreeKey, V>(
    n: BPlusTreeNode<K, V>,
    lo: Option<int>,
    hi: Option<int>,
    pos: int,
    k: K,
    v: V,
    n2: BPlusTreeNode<K, V>,
)
    requires
        node_wf(n, lo, hi),
        n.is_leaf,
        0 <= pos < n.keys@.len(),
        n.keys@[pos].rank() == k.rank(),
        forall|j: int| 0 <= j < pos ==> #[trigger] n.keys@[j].rank() < k.rank(),
        n2.is_leaf,
        n2.keys@ == n.keys@,
        n2.values@ == n.values@.update(pos, v),
    ensures
        node_wf(n2, lo, hi),
        leaves_nonempty(n2),
        node_entries(n2) == insert_entry(node_entries(n), k, v),
{
    lemma_wf_entries(n, lo, hi);
    lemma_leaf_entries(n);
    K::lemma_rank_injective(&n.keys@[pos], &k);
    let es = node_entries(n);
    assert forall|j: int| pos <= j < es.len() implies #[trigger] es[j].0.rank() >= k.rank() by {
        if j > pos {
            assert(n.keys@[pos].rank() < n.keys@[j].rank());
        }
    }
    lemma_sorted_split(es, k.rank(), pos);
    assert(node_entries(n2) =~= es.subrange(0, pos) + seq![(k, v)] + es.subrange(pos + 1, es.len() as int));
}

/// Replacing child `pos` of a well-formed internal node by a well-formed
/// node for the same range that starts with the same key.
#[verifier::rlimit(100)]
#[verifier::spinoff_prover]
pub(crate) proof fn lemma_replace_child<K: TreeKey, V>(
    n: BPlusTreeNode<K, V>,
    lo: Option<int>,
    hi: Option<int>,
    pos: int,
    c2: BPlusTreeNode<K, V>,
    n2: BPlusTreeNode<K, V>,
)
    requires
        node_wf(n, lo, hi),
        leaves_nonempty(n),
        !n.is_leaf,
        0 <= pos < n.children@.len(),
        node_wf(c2, child_lo(n, lo, pos), child_hi(n, hi, pos)),
        leaves_nonempty(c2),
        pos >= 1 ==> node_entries(c2).len() > 0 && node_entries(c2)[0].0.rank() == n.keys@[pos - 1].rank(),
        !n2.is_leaf,
        n2.keys@ == n.keys@,
        n2.children@ == n.children@.update(pos, c2),
    ensures
        node_wf(n2, lo, hi),
        leaves_nonempty(n2),
        node_entries(n2) == children_entries(n.children@.subrange(0, pos)) + node_entries(c2)
            + children_entries(n.children@.subrange(pos + 1, n.children@.len() as int)),
{
    let cs = n.children@;
    let c = cs.len() as int;
    assert forall|i: int| 0 <= i < c implies node_wf(
        #[trigger] n2.children@[i],
        child_lo(n2, lo, i),
        child_hi(n2, hi, i),
    ) by {
        assert(child_lo(n2, lo, i) == child_lo(n, lo, i));
        assert(child_hi(n2, hi, i) == child_hi(n, hi, i));
        if i != pos {
            assert(n2.children@[i] == cs[i]);
        }
    }
    assert forall|i: int| 0 <= i < c implies leaves_nonempty(#[trigger] n2.children@[i]) by {
        if i != pos {
            assert(n2.children@[i] == cs[i]);
        }
    }
    assert forall|i: int| 1 <= i < c implies node_entries(#[trigger] n2.children@[i]).len() > 0
        && node_entries(n2.children@[i])[0].0.rank() == n2.keys@[i - 1].rank() by {
        if i != pos {
            assert(n2.children@[i] == cs[i]);
        }
    }
    assert(node_wf(n2, lo, hi));
    let cs2 = n2.children@;
    lemma_children_entries_add(cs2.subrange(0, pos), cs2.subrange(pos, c));
    assert(cs2.subrange(0, pos) + cs2.subrange(pos, c) =~= cs2);
    lemma_children_entries_add(seq![c2], cs2.subrange(pos + 1, c));
    assert(seq![c2] + cs2.subrange(pos + 1, c) =~= cs2.subrange(pos, c));
    lemma_children_entries_one(c2);
    assert(cs2.subrange(0, pos) =~= cs.subrange(0, pos));
    assert(cs2.subrange(pos + 1, c) =~= cs.subrange(pos + 1, c));
}

/// The separator of a split child lies strictly inside the child's range,
/// between the keys around the child.
pub(crate) proof fn lemma_split_child_sep<K: TreeKey, V>(
    n: BPlusTreeNode<K, V>,
    lo: Option<int>,
    hi: Option<int>,
    pos: int,
    left: BPlusTreeNode<K, V>,
    right: BPlusTreeNode<K, V>,
    sepk: K,
)
    requires
        node_wf(n, lo, hi),
        !n.is_leaf,
        0 <= pos < n.children@.len(),
        node_wf(left, child_lo(n, lo, pos), Some(sepk.rank())),
        node_wf(right, Some(sepk.rank()), child_hi(n, hi, pos)),
        leaves_nonempty(left),
        leaves_nonempty(right),
        node_entries(right)[0].0.rank() == sepk.rank(),
    ensures
        child_lo(n, lo, pos) matches Some(l) ==> l < sepk.rank(),
        child_hi(n, hi, pos) matches Some(h) ==> sepk.rank() < h,
        pos > 0 ==> n.keys@[pos - 1].rank() < sepk.rank(),
        pos < n.keys@.len() ==> sepk.rank() < n.keys@[pos].rank(),
        lo matches Some(l) ==> l < sepk.rank(),
        hi matches Some(h) ==> sepk.rank() < h,
{
    let c = n.children@.len() as int;
    let k = n.keys@.len() as int;
    let sep = sepk.rank();
    lemma_wf_entries(left, child_lo(n, lo, pos), Some(sep));
    lemma_wf_entries(right, Some(sep), child_hi(n, hi, pos));
    assert(node_entries(left).len() > 0);
    assert(child_lo(n, lo, pos) matches Some(l) ==> l < sep) by {
        let e = node_entries(left)[0];
        assert(e.0.rank() < sep);
    }
    assert(child_hi(n, hi, pos) matches Some(h) ==> sep < h) by {
        let e = node_entries(right)[0];
        assert(e.0.rank() == sep);
    }
    if pos < k {
        if pos + 1 < c {
            assert(child_hi(n, hi, pos) == Some(n.keys@[pos].rank()));
        } else {
            assert(n.keys@[k - 1].rank() >= hi.unwrap());
        }
    }
    if pos > 0 {
        assert(child_lo(n, lo, pos) == Some(n.keys@[pos - 1].rank()));
        assert(lo matches Some(l) ==> l <= n.keys@[pos - 1].rank());
    }
    if pos + 1 < c {
        assert(child_hi(n, hi, pos) == Some(n.keys@[pos].rank()));
        assert(hi matches Some(h) ==> n.keys@[pos].rank() < h);
    }
}

/// The keys of a node after a child split are sorted, in range, and below
/// the upper bound where they have a child after them.
pub(crate) proof fn lemma_split_child_keys<K: TreeKey, V>(
    n: BPlusTreeNode<K, V>,
    lo: Option<int>,
    hi: Option<int>,
    pos: int,
    left: BPlusTreeNode<K, V>,
    right: BPlusTreeNode<K, V>,
    sepk: K,
    n2: BPlusTreeNode<K, V>,
)
    requires
        node_wf(n, lo, hi),
        leaves_nonempty(n),
        !n.is_leaf,
        0 <= pos < n.children@.len(),
        node_wf(left, child_lo(n, lo, pos), Some(sepk.rank())),
        node_wf(right, Some(sepk.rank()), child_hi(n, hi, pos)),
        leaves_nonempty(left),
        leaves_nonempty(right),
        node_entries(right)[0].0.rank() == sepk.rank(),
        pos >= 1 ==> node_entries(left)[0].0.rank() == n.keys@[pos - 1].rank(),
        !n2.is_leaf,
        n2.keys@ == n.keys@.insert(pos, sepk),
        n2.children@ == n.children@.update(pos, left).insert(pos + 1, right),
    ensures
        keys_sorted(n2.keys@),
        forall|i: int| 0 <= i < n2.keys@.len() ==> (lo matches Some(l) ==> l <= #[trigger] n2.keys@[i].rank()),
        forall|i: int| 0 <= i < n2.children@.len() - 1 ==> (hi matches Some(h) ==> #[trigger] n2.keys@[i].rank() < h),
        n2.children@.len() >= 1,
        ({
            let c2 = n2.children@.len();
            let k2 = n2.keys@.len();
            c2 == k2 + 1 || (c2 == k2 && hi is Some && n2.keys@[k2 - 1].rank() >= hi.unwrap())
        }),
{
    lemma_split_child_sep(n, lo, hi, pos, left, right, sepk);
    let c = n.children@.len() as int;
    let k = n.keys@.len() as int;
    let k2 = n2.keys@;
    assert forall|i: int, j: int| 0 <= i < j < k2.len() implies #[trigger] k2[i].rank() < #[trigger] k2[j].rank() by {
        if j < pos {
            assert(k2[i] == n.keys@[i] && k2[j] == n.keys@[j]);
        } else if i > pos {
            assert(k2[i] == n.keys@[i - 1] && k2[j] == n.keys@[j - 1]);
        } else if i == pos {
            assert(k2[j] == n.keys@[j - 1]);
            if j - 1 > pos {
                assert(n.keys@[pos].rank() < n.keys@[j - 1].rank());
            }
        } else if j == pos {
            assert(k2[i] == n.keys@[i]);
            if i < pos - 1 {
                assert(n.keys@[i].rank() < n.keys@[pos - 1].rank());
            }
        } else {
            assert(k2[i] == n.keys@[i] && k2[j] == n.keys@[j - 1]);
        }
    }
    assert forall|i: int| 0 <= i < k2.len() implies (lo matches Some(l) ==> l <= #[trigger] k2[i].rank()) by {
        if i < pos {
            assert(k2[i] == n.keys@[i]);
        } else if i > pos {
            assert(k2[i] == n.keys@[i - 1]);
        }
    }
    assert forall|i: int| 0 <= i < n2.children@.len() - 1 implies (hi matches Some(h) ==> #[trigger] k2[i].rank() < h) by {
        if i < pos {
            assert(k2[i] == n.keys@[i]);
        } else if i > pos {
            assert(k2[i] == n.keys@[i - 1]);
        }
    }
    if c == k {
        assert(k2[k] == n.keys@[k - 1]);
    }
}

/// The children of a node after a child split are well formed in their
/// ranges, and each child but the first starts with the key before it.
pub(crate) proof fn lemma_split_child_children<K: TreeKey, V>(
    n: BPlusTreeNode<K, V>,
    lo: Option<int>,
    hi: Option<int>,
    pos: int,
    left: BPlusTreeNode<K, V>,
    right: BPlusTreeNode<K, V>,
    sepk: K,
    n2: BPlusTreeNode<K, V>,
)
    requires
        node_wf(n, lo, hi),
        leaves_nonempty(n),
        !n.is_leaf,
        0 <= pos < n.children@.len(),
        node_wf(left, child_lo(n, lo, pos), Some(sepk.rank())),
        node_wf(right, Some(sepk.rank()), child_hi(n, hi, pos)),
        leaves_nonempty(left),
        leaves_nonempty(right),
        node_entries(right)[0].0.rank() == sepk.rank(),
        pos >= 1 ==> node_entries(left)[0].0.rank() == n.keys@[pos - 1].rank(),
        !n2.is_leaf,
        n2.keys@ == n.keys@.insert(pos, sepk),
        n2.children@ == n.children@.update(pos, left).insert(pos + 1, right),
    ensures
        forall|i: int| 0 <= i < n2.children@.len() ==> node_wf(
            #[trigger] n2.children@[i],
            child_lo(n2, lo, i),
            child_hi(n2, hi, i),
        ) && leaves_nonempty(n2.children@[i]),
        forall|i: int| 1 <= i < n2.children@.len() ==> node_entries(#[trigger] n2.children@[i]).len() > 0
            && node_entries(n2.children@[i])[0].0.rank() == n2.keys@[i - 1].rank(),
{
    let cs = n.children@;
    let c2 = n2.children@;
    let k2 = n2.keys@;
    let sep = sepk.rank();
    lemma_wf_entries(left, child_lo(n, lo, pos), Some(sep));
    assert forall|i: int| 0 <= i < c2.len() implies node_wf(
        #[trigger] c2[i],
        child_lo(n2, lo, i),
        child_hi(n2, hi, i),
    ) && leaves_nonempty(c2[i]) by {
        if i < pos {
            assert(c2[i] == cs[i]);
            assert(child_lo(n2, lo, i) == child_lo(n, lo, i));
            assert(child_hi(n2, hi, i) == child_hi(n, hi, i));
        } else if i == pos {
            assert(c2[i] == left);
            assert(child_lo(n2, lo, i) == child_lo(n, lo, pos));
            assert(child_hi(n2, hi, i) == Some(sep));
        } else if i == pos + 1 {
            assert(c2[i] == right);
            assert(child_lo(n2, lo, i) == Some(sep));
            assert(child_hi(n2, hi, i) == child_hi(n, hi, pos));
        } else {
            assert(c2[i] == cs[i - 1]);
            assert(child_lo(n2, lo, i) == child_lo(n, lo, i - 1));
            assert(child_hi(n2, hi, i) == child_hi(n, hi, i - 1));
        }
    }
    assert forall|i: int| 1 <= i < c2.len() implies node_entries(#[trigger] c2[i]).len() > 0
        && node_entries(c2[i])[0].0.rank() == k2[i - 1].rank() by {
        if i < pos {
            assert(c2[i] == cs[i]);
        } else if i == pos {
            assert(c2[i] == left);
        } else if i == pos + 1 {
            assert(c2[i] == right);
            lemma_wf_entries(right, Some(sep), child_hi(n, hi, pos));
        } else {
            assert(c2[i] == cs[i - 1]);
            assert(k2[i - 1] == n.keys@[i - 2]);
        }
    }
}

/// Replacing child `pos` of a well-formed internal node by the two halves
/// of its split, with the separator key between them.
pub(crate) proof fn lemma_split_child<K: TreeKey, V>(
    n: BPlusTreeNode<K, V>,
    lo: Option<int>,
    hi: Option<int>,
    pos: int,
    left: BPlusTreeNode<K, V>,
    right: BPlusTreeNode<K, V>,
    sepk: K,
    n2: BPlusTreeNode<K, V>,
)
    requires
        node_wf(n, lo, hi),
        leaves_nonempty(n),
        !n.is_leaf,
        0 <= pos < n.children@.len(),
        node_wf(left, child_lo(n, lo, pos), Some(sepk.rank())),
        node_wf(right, Some(sepk.rank()), child_hi(n, hi, pos)),
        leaves_nonempty(left),
        leaves_nonempty(right),
        node_entries(right)[0].0.rank() == sepk.rank(),
        pos >= 1 ==> node_entries(left)[0].0.rank() == n.keys@[pos - 1].rank(),
        !n2.is_leaf,
        n2.keys@ == n.keys@.insert(pos, sepk),
        n2.children@ == n.children@.update(pos, left).insert(pos + 1, right),
    ensures
        node_wf(n2, lo, hi),
        leaves_nonempty(n2),
        node_entries(n2) == children_entries(n.children@.subrange(0, pos)) + node_entries(left)
            + node_entries(right) + children_entries(
            n.children@.subrange(pos + 1, n.children@.len() as int),
        ),
        pos > 0 ==> n.keys@[pos - 1].rank() < sepk.rank(),
        pos < n.keys@.len() ==> sepk.rank() < n.keys@[pos].rank(),
{
    let cs = n.children@;
    let c = cs.len() as int;
    lemma_split_child_sep(n, lo, hi, pos, left, right, sepk);
    lemma_split_child_keys(n, lo, hi, pos, left, right, sepk, n2);
    lemma_split_child_children(n, lo, hi, pos, left, right, sepk, n2);
    assert(node_wf(n2, lo, hi));
    assert forall|i: int| 0 <= i < n2.children@.len() implies leaves_nonempty(#[trigger] n2.children@[i]) by {
    }
    // entries
    let c2 = n2.children@;
    let mid = seq![left, right];
    assert(c2 =~= cs.subrange(0, pos) + mid + cs.subrange(pos + 1, c));
    lemma_children_entries_add(cs.subrange(0, pos) + mid, cs.subrange(pos + 1, c));
    lemma_children_entries_add(cs.subrange(0, pos), mid);
    lemma_children_entries_add(seq![left], seq![right]);
    assert(seq![left] + seq![right] =~= mid);
    lemma_children_entries_one(left);
    lemma_children_entries_one(right);
}

impl<K: TreeKey, V> BPlusTreeNode<K, V> {
    /// An empty node.
    pub(crate) fn new(is_leaf: bool) -> (r: Self)
        ensures
            r.is_leaf == is_leaf,
            r.keys@.len() == 0,
            r.children@.len() == 0,
            r.values@.len() == 0,
    {
        Self { is_leaf, keys: Vec::new(), children: Vec::new(), values: Vec::new() }
    }

    pub(crate) fn is_overflow(&self, order: usize) -> (r: bool)
        ensures
            r == (self.keys@.len() > order),
    {
        self.keys.len() > order
    }

    pub(crate) fn get_median_index(order: usize) -> (r: usize)
        ensures
            r == order / 2,
    {
        order / 2
    }

    /// The first key of the leftmost leaf.
    pub(crate) fn find_leaf_entry(node: &Self) -> (r: Option<&K>)
        ensures
            match r {
                Some(k) => leftmost_key(*node) == Some(*k),
                None => leftmost_key(*node) is None,
            },
        decreases node,
    {
        if node.is_leaf {
            if node.keys.len() > 0 {
                Some(&node.keys[0])
            } else {
                None
            }
        } else if node.children.len() > 0 {
            Self::find_leaf_entry(&node.children[0])
        } else {
            None
        }
    }

    pub(crate) fn get_entry_index_upper_bound(&self, key: &K) -> (r: usize)
        requires
            keys_nondecreasing(self.keys@),
        ensures
            r <= self.keys@.len(),
            forall|i: int| 0 <= i < r ==> #[trigger] self.keys@[i].rank() <= key.rank(),
            forall|i: int| r <= i < self.keys@.len() ==> #[trigger] self.keys@[i].rank() > key.rank(),
    {
        get_entry_index_upper_bound(self.keys.as_slice(), key)
    }

    /// The value stored under `key` in the subtree.
    pub(crate) fn query(&self, key: &K, Ghost(lo): Ghost<Option<int>>, Ghost(hi): Ghost<Option<int>>) -> (r: Option<&V>)
        requires
            node_wf(*self, lo, hi),
            rank_in(key.rank(), lo, hi),
        ensures
            match r {
                Some(v) => lookup(node_entries(*self), *key) == Some(*v),
                None => lookup(node_entries(*self), *key) is None,
            },
        decreases self,
    {
        if self.is_leaf {
            proof {
                lemma_wf_entries(*self, lo, hi);
                lemma_leaf_entries(*self);
            }
            let res = binary_search_key(self.keys.as_slice(), key);
            proof {
                let es = node_entries(*self);
                let pos = match res {
                    Ok(i) => i as int,
                    Err(i) => i as int,
                };
                lemma_sorted_split(es, key.rank(), pos);
            }
            return match res {
                Ok(idx) => {
                    if idx < self.values.len() {
                        Some(&self.values[idx])
                    } else {
                        None
                    }
                },
                Err(_) => None,
            };
        }
        proof {
            lemma_sorted_nondecreasing(self.keys@);
        }
        let idx = self.get_entry_index_upper_bound(key);
        if idx >= self.children.len() {
            return None;
        }
        proof {
            lemma_wf_route(*self, lo, hi, idx as int);
            let cs = self.children@;
            let a = children_entries(cs.subrange(0, idx as int));
            let x = node_entries(cs[idx as int]);
            let b = children_entries(cs.subrange(idx + 1, cs.len() as int));
            lemma_filter_at_outside(a, key.rank());
            lemma_filter_at_outside(b, key.rank());
            Seq::filter_distributes_over_add(a + x, b, at(key.rank()));
            Seq::filter_distributes_over_add(a, x, at(key.rank()));
            assert(Seq::<(K, V)>::empty() + x.filter(at(key.rank())) + Seq::<(K, V)>::empty() =~= x.filter(at(key.rank())));
        }
        self.children[idx].query(key, Ghost(child_lo(*self, lo, idx as int)), Ghost(child_hi(*self, hi, idx as int)))
    }

    /// The entry of the subtree with the greatest key at most `key`.
    pub(crate) fn find_le(&self, key: &K, Ghost(lo): Ghost<Option<int>>, Ghost(hi): Ghost<Option<int>>) -> (r: Option<(&K, &V)>)
        requires
            node_wf(*self, lo, hi),
            rank_in(key.rank(), lo, hi),
        ensures
            match r {
                Some(e) => floor_entry(node_entries(*self), *key) == Some((*e.0, *e.1)),
                None => floor_entry(node_entries(*self), *key) is None,
            },
        decreases self,
    {
        if self.is_leaf {
            proof {
                lemma_sorted_nondecreasing(self.keys@);
            }
            let idx = self.get_entry_index_upper_bound(key);
            proof {
                lemma_wf_entries(*self, lo, hi);
                lemma_leaf_entries(*self);
                let es = node_entries(*self);
                lemma_filter_prefix(es, upto(key.rank()), idx as int);
            }
            if idx == 0 {
                None
            } else {
                let i = idx - 1;
                Some((&self.keys[i], &self.values[i]))
            }
        } else {
            proof {
                lemma_sorted_nondecreasing(self.keys@);
            }
            let child_idx = self.get_entry_index_upper_bound(key);
            if child_idx < self.children.len() {
                proof {
                    let i = child_idx as int;
                    lemma_wf_route(*self, lo, hi, i);
                    let cs = self.children@;
                    let a = children_entries(cs.subrange(0, i));
                    let x = node_entries(cs[i]);
                    let b = children_entries(cs.subrange(i + 1, cs.len() as int));
                    let r = key.rank();
                    lemma_filter_all(a, upto(r));
                    lemma_filter_none(b, upto(r));
                    Seq::filter_distributes_over_add(a + x, b, upto(r));
                    Seq::filter_distributes_over_add(a, x, upto(r));
                    assert(entries_upto(node_entries(*self), r) =~= a + entries_upto(x, r));
                    if i > 0 {
                        assert(x[0].0.rank() <= r);
                        x.lemma_filter_contains(upto(r), 0);
                    }
                    if entries_upto(x, r).len() > 0 {
                        assert((a + entries_upto(x, r)).last() == entries_upto(x, r).last());
                    }
                }
                self.children[child_idx].find_le(key, Ghost(child_lo(*self, lo, child_idx as int)), Ghost(child_hi(*self, hi, child_idx as int)))
            } else if self.children.len() > 0 {
                // a key in range always has a child to go to
                let last = self.children.len() - 1;
                self.children[last].find_le(key, Ghost(child_lo(*self, lo, last as int)), Ghost(child_hi(*self, hi, last as int)))
            } else {
                None
            }
        }
    }

    /// Moves the upper half of the node to a new node, which it returns.
    pub(crate) fn split(&mut self, order: usize, Ghost(lo): Ghost<Option<int>>, Ghost(hi): Ghost<Option<int>>) -> (r: Self)
        requires
            node_wf(*old(self), lo, hi),
            leaves_nonempty(*old(self)) || old(self).is_leaf,
            old(self).keys@.len() > order,
            order >= 2,
        ensures
            ({
                let sep = node_entries(r)[0].0.rank();
                &&& node_wf(*final(self), lo, Some(sep))
                &&& node_wf(r, Some(sep), hi)
                &&& leaves_nonempty(*final(self))
                &&& leaves_nonempty(r)
                &&& node_entries(*final(self)) + node_entries(r) == node_entries(*old(self))
                &&& node_entries(r).len() > 0
                &&& final(self).is_leaf == old(self).is_leaf
                &&& r.is_leaf == old(self).is_leaf
            }),
            final(self).keys@.len() + r.keys@.len() == old(self).keys@.len(),
            final(self).keys@.len() == if old(self).is_leaf {
                (order / 2) as int
            } else {
                order / 2 + 1
            },
            !old(self).is_leaf ==> final(self).children@ + r.children@ == old(self).children@,
            !old(self).is_leaf ==> final(self).children@.len() == order / 2 + 1 && r.children@.len() >= 1,
    {
        let median = Self::get_median_index(order);
        if self.is_leaf {
            let mut node = Self::new(true);
            node.keys = self.keys.split_off(median);
            node.values = self.values.split_off(median);
            proof {
                lemma_leaf_split(*old(self), lo, hi, median as int, *self, node);
            }
            node
        } else {
            let mut node = Self::new(false);
            node.keys = self.keys.split_off(median + 1);
            node.children = self.children.split_off(median + 1);
            proof {
                lemma_internal_split(*old(self), lo, hi, median as int, *self, node);
            }
            node
        }
    }

    /// Puts `v` under `key` in the subtree; returns the right half of the
    /// node if the node overflowed and was split.
    #[verifier::spinoff_prover]
    #[verifier::rlimit(100)]
    pub(crate) fn insert(
        &mut self,
        key: K,
        v: V,
        inner_order: usize,
        leaf_order: usize,
        Ghost(lo): Ghost<Option<int>>,
        Ghost(hi): Ghost<Option<int>>,
    ) -> (r: Option<Self>)
        requires
            node_wf(*old(self), lo, hi),
            leaves_nonempty(*old(self)) || old(self).is_leaf,
            rank_in(key.rank(), lo, hi),
            inner_order >= 2,
            leaf_order >= 2,
            node_bounded(*old(self), inner_order as int, leaf_order as int),
            node_balanced(*old(self)),
        ensures
            node_balanced(*final(self)),
            node_height(*final(self)) == node_height(*old(self)),
            r matches Some(right) ==> node_balanced(right) && node_height(right) == node_height(*old(self)),
            r is None ==> node_bounded(*final(self), inner_order as int, leaf_order as int),
            r matches Some(right) ==> node_bounded(*final(self), inner_order as int, leaf_order as int) && node_bounded(
                right,
                inner_order as int,
                leaf_order as int,
            ),
            final(self).is_leaf == old(self).is_leaf,
            r is None ==> final(self).keys@.len() >= old(self).keys@.len(),
            match r {
                None => {
                    &&& node_wf(*final(self), lo, hi)
                    &&& leaves_nonempty(*final(self))
                    &&& node_entries(*final(self)) == insert_entry(node_entries(*old(self)), key, v)
                },
                Some(right) => {
                    let sep = node_entries(right)[0].0.rank();
                    &&& node_wf(*final(self), lo, Some(sep))
                    &&& node_wf(right, Some(sep), hi)
                    &&& leaves_nonempty(*final(self))
                    &&& leaves_nonempty(right)
                    &&& node_entries(right).len() > 0
                    &&& node_entries(*final(self)) + node_entries(right) == insert_entry(
                        node_entries(*old(self)),
                        key,
                        v,
                    )
                    &&& right.is_leaf == old(self).is_leaf
                },
            },
        decreases *old(self),
    {
        let ghost gkey = key;
        let ghost gv = v;
        if self.is_leaf {
            match binary_search_key(self.keys.as_slice(), &key) {
                Ok(pos) => {
                    self.values[pos] = v;
                    proof {
                        lemma_leaf_insert_existing(*old(self), lo, hi, pos as int, gkey, gv, *self);
                    }
                    return None;
                },
                Err(pos) => {
                    self.keys.insert(pos, key);
                    self.values.insert(pos, v);
                    proof {
                        lemma_leaf_insert_new(*old(self), lo, hi, pos as int, gkey, gv, *self);
                    }
                    if self.is_overflow(leaf_order) {
                        let ghost pre = *self;
                        let right = self.split(leaf_order, Ghost(lo), Ghost(hi));
                        proof {
                            lemma_split_bounded(pre, *self, right, leaf_order as int, inner_order as int, leaf_order as int);
                            lemma_split_balanced(pre, *self, right);
                        }
                        return Some(right);
                    }
                    proof {
                        lemma_bounded_from_parts(*self, inner_order as int, leaf_order as int);
                    }
                },
            }
        } else {
            proof {
                lemma_sorted_nondecreasing(self.keys@);
            }
            let pos = self.get_entry_index_upper_bound(&key);
            if pos >= self.children.len() {
                return None;
            }
            let ghost n0 = *self;
            let ghost clo = child_lo(n0, lo, pos as int);
            let ghost chi = child_hi(n0, hi, pos as int);
            proof {
                lemma_wf_route(n0, lo, hi, pos as int);
            }
            let ghost a = children_entries(n0.children@.subrange(0, pos as int));
            let ghost x = node_entries(n0.children@[pos as int]);
            let ghost b = children_entries(n0.children@.subrange(pos + 1, n0.children@.len() as int));
            let mut child = self.children.remove(pos);
            proof {
                assert(child == n0.children@[pos as int]);
                assert(node_bounded(n0.children@[pos as int], inner_order as int, leaf_order as int));
            }
            let node = child.insert(key, v, inner_order, leaf_order, Ghost(clo), Ghost(chi));
            self.children.insert(pos, child);
            proof {
                assert(self.children@ =~= n0.children@.update(pos as int, child));
                lemma_bounded_update(n0, self.children@, pos as int, child, inner_order as int, leaf_order as int);
                lemma_balanced_update(n0, *self, pos as int, child);
                lemma_insert_entry_route(a, x, b, gkey, gv);
                if pos > 0 {
                    lemma_insert_entry_first(x, gkey, gv);
                }
            }
            match node {
                Some(tree_node) => {
                    proof {
                        lemma_wf_entries(tree_node, Some(node_entries(tree_node)[0].0.rank()), chi);
                        lemma_wf_entries(child, clo, Some(node_entries(tree_node)[0].0.rank()));
                        if pos > 0 {
                            assert((node_entries(child) + node_entries(tree_node))[0] == node_entries(child)[0]);
                        }
                    }
                    if let Some(leaf_key) = Self::find_leaf_entry(&tree_node) {
                        let sep = leaf_key.copy_key();
                        proof {
                            lemma_sorted_nondecreasing(self.keys@);
                        }
                        let idx = self.get_entry_index_upper_bound(&sep);
                        proof {
                            lemma_split_child_sep(n0, lo, hi, pos as int, child, tree_node, sep);
                        }
                        if binary_search_key(self.keys.as_slice(), &sep).is_err() {
                            let ghost n1 = *self;
                            self.keys.insert(idx, sep);
                            self.children.insert(idx + 1, tree_node);
                            proof {
                                assert(idx == pos);
                                lemma_split_child(n0, lo, hi, pos as int, child, tree_node, sep, *self);
                                assert(node_entries(*self) =~= a + insert_entry(x, gkey, gv) + b);
                                lemma_bounded_insert(
                                    n1.children@,
                                    self.children@,
                                    idx + 1,
                                    tree_node,
                                    inner_order as int,
                                    leaf_order as int,
                                );
                                lemma_balanced_insert(n1, *self, idx + 1, tree_node);
                            }
                            if self.is_overflow(inner_order) {
                                let ghost pre = *self;
                                let right = self.split(inner_order, Ghost(lo), Ghost(hi));
                                proof {
                                    lemma_split_bounded(
                                        pre,
                                        *self,
                                        right,
                                        inner_order as int,
                                        inner_order as int,
                                        leaf_order as int,
                                    );
                                    lemma_split_balanced(pre, *self, right);
                                }
                                return Some(right);
                            }
                            proof {
                                lemma_bounded_from_parts(*self, inner_order as int, leaf_order as int);
                            }
                        }
                    }
                },
                None => {
                    proof {
                        lemma_replace_child(n0, lo, hi, pos as int, child, *self);
                    }
                },
            }
        }
        None
    }

    /// The number of entries in the subtree.
    pub fn len(&self) -> (r: usize)
        requires
            node_entries(*self).len() <= usize::MAX,
        ensures
            r == node_entries(*self).len(),
        decreases self,
    {
        if self.is_leaf {
            self.keys.len()
        } else {
            let ghost cs = self.children@;
            let mut total: usize = 0;
            let mut i: usize = 0;
            while i < self.children.len()
                invariant
                    !self.is_leaf,
                    cs == self.children@,
                    i <= cs.len(),
                    children_entries(cs).len() <= usize::MAX,
                    node_entries(*self) == children_entries(cs),
                    total == children_entries(cs.subrange(0, i as int)).len(),
                decreases cs.len() - i,
            {
                proof {
                    lemma_children_entries_add(cs.subrange(0, i as int), cs.subrange(i as int, cs.len() as int));
                    assert(cs.subrange(0, i as int) + cs.subrange(i as int, cs.len() as int) =~= cs);
                    lemma_children_entries_add(cs.subrange(0, i as int), seq![cs[i as int]]);
                    assert(cs.subrange(0, i as int) + seq![cs[i as int]] =~= cs.subrange(0, i + 1));
                    lemma_children_entries_one(cs[i as int]);
                    lemma_children_entries_add(seq![cs[i as int]], cs.subrange(i + 1, cs.len() as int));
                    assert(seq![cs[i as int]] + cs.subrange(i + 1, cs.len() as int) =~= cs.subrange(i as int, cs.len() as int));
                }
                let n = self.children[i].len();
                total = total + n;
                i = i + 1;
            }
            proof {
                assert(cs.subrange(0, cs.len() as int) =~= cs);
            }
            total
        }
    }
}

/// The orders of the tree for keys of `key_size` bytes: how many keys an
/// internal node and a leaf hold at most, so that a node fits in a block.
pub open spec fn spec_calc_order(key_size: int) -> (usize, usize) {
    let base_overhead = 1 + 4 + 4 + 64;
    let inner = (4096 - base_overhead) / (key_size + 8 + 22);
    let leaf = (4096 - base_overhead) / (key_size + 12 + 22);
    (if inner < 2 {
        2
    } else {
        inner as usize
    }, if leaf < 2 {
        2
    } else {
        leaf as usize
    })
}

/// The orders of the tree for key type `K`.
pub fn calc_order<K>() -> (r: (usize, usize))
    ensures
        r == spec_calc_order(vstd::layout::size_of::<K>() as int),
        r.0 >= 2,
        r.1 >= 2,
{
    let key_size = std::mem::size_of::<K>();
    if key_size > 4096 {
        proof {
            let ks = key_size as int;
            assert(4023int / (ks + 30) == 0 && 4023int / (ks + 34) == 0) by (nonlinear_arith)
                requires
                    ks > 4096,
            ;
        }
        return (2, 2);
    }
    let base_overhead: usize = 1 + 4 + 4 + 64;
    let inner_order = (4096 - base_overhead) / (key_size + 8 + 22);
    let leaf_order = (4096 - base_overhead) / (key_size + 12 + 22);
    let final_inner = if inner_order < 2 {
        2
    } else {
        inner_order
    };
    let final_leaf = if leaf_order < 2 {
        2
    } else {
        leaf_order
    };
    (final_inner, final_leaf)
}

/// An ordered map held in a B+tree in memory.
pub struct BPlusTree<K: TreeKey, V> {
    root: BPlusTreeNode<K, V>,
    inner_order: usize,
    leaf_order: usize,
    dirty: bool,
}

impl<K: TreeKey, V> BPlusTree<K, V> {
    #[verifier::type_invariant]
    spec fn inv(self) -> bool {
        &&& node_wf(self.root, None, None)
        &&& (self.root.is_leaf || leaves_nonempty(self.root))
        &&& (!self.root.is_leaf ==> self.root.keys@.len() >= 1)
        &&& self.inner_order >= 2
        &&& self.leaf_order >= 2
        &&& node_bounded(self.root, self.inner_order as int, self.leaf_order as int)
        &&& node_balanced(self.root)
    }

    /// The entries of the tree, in key order.
    pub closed spec fn entries(self) -> Seq<(K, V)> {
        node_entries(self.root)
    }

    /// Whether the tree holds changes that were not stored.
    pub closed spec fn is_dirty(self) -> bool {
        self.dirty
    }

    /// The leaves of the tree, left to right, each as its keys and values.
    pub closed spec fn leaves(self) -> Seq<(Seq<K>, Seq<V>)> {
        node_leaves(self.root)
    }

    /// Every leaf of the tree holds one value per key, and every internal
    /// node one child per key or one more.
    pub closed spec fn well_shaped(self) -> bool {
        node_shapes_ok(self.root)
    }

    /// The orders of the tree.
    pub closed spec fn orders(self) -> (usize, usize) {
        (self.inner_order, self.leaf_order)
    }

    /// Every node of the tree holds at most its order of keys: a leaf at
    /// most the leaf order, an internal node at most the inner order.
    pub closed spec fn within_orders(self) -> bool {
        node_bounded(self.root, self.inner_order as int, self.leaf_order as int)
    }

    /// All leaves of the tree lie at the same depth.
    pub closed spec fn balanced(self) -> bool {
        node_balanced(self.root)
    }

    /// An empty tree, with the orders for its key type.
    pub fn new() -> (r: Self)
        ensures
            r.entries() == Seq::<(K, V)>::empty(),
            r.is_dirty(),
            r.orders() == spec_calc_order(vstd::layout::size_of::<K>() as int),
            r.within_orders(),
            r.balanced(),
            r.well_shaped(),
            r@ == Map::<K, V>::empty(),
    {
        let (inner_order, leaf_order) = calc_order::<K>();
        let root = BPlusTreeNode::new(true);
        proof {
            assert(node_entries(root) =~= Seq::<(K, V)>::empty());
            lemma_bounded_from_parts(root, inner_order as int, leaf_order as int);
        }
        Self { root, inner_order, leaf_order, dirty: true }
    }

    pub fn is_empty(&self) -> (r: bool)
        ensures
            r == (self.entries().len() == 0),
            sorted(self.entries()),
    {
        proof {
            use_type_invariant(self);
            lemma_wf_entries(self.root, None, None);
        }
        self.root.keys.len() == 0
    }

    pub fn len(&self) -> (r: usize)
        requires
            self.entries().len() <= usize::MAX,
        ensures
            r == self.entries().len(),
            r == self@.dom().len(),
    {
        proof {
            use_type_invariant(self);
            lemma_wf_entries(self.root, None, None);
            lemma_len_counts_keys(self.entries());
        }
        self.root.len()
    }

    /// Puts `value` under `key`, replacing the value stored under it.
    pub fn insert(&mut self, key: K, value: V)
        ensures
            final(self).entries() == insert_entry(old(self).entries(), key, value),
            final(self)@ == old(self)@.insert(key, value),
            sorted(final(self).entries()),
            final(self).entries().len() == old(self).entries().len() + if old(self)@.contains_key(
                key,
            ) {
                0int
            } else {
                1int
            },
            final(self).is_dirty(),
            final(self).orders() == old(self).orders(),
            final(self).within_orders(),
            final(self).balanced(),
            final(self).well_shaped(),
    {
        self.insert_entry(key, value);
        proof {
            use_type_invariant(&*self);
            lemma_wf_shapes(self.root, None, None);
        }
    }

    /// Puts `value` under `key`, the root split where it overflows.
    fn insert_entry(&mut self, key: K, value: V)
        ensures
            final(self).entries() == insert_entry(old(self).entries(), key, value),
            final(self)@ == old(self)@.insert(key, value),
            sorted(final(self).entries()),
            final(self).entries().len() == old(self).entries().len() + if old(self)@.contains_key(
                key,
            ) {
                0int
            } else {
                1int
            },
            final(self).is_dirty(),
            final(self).orders() == old(self).orders(),
            final(self).within_orders(),
            final(self).balanced(),
    {
        proof {
            use_type_invariant(&*self);
            lemma_wf_entries(self.root, None, None);
            lemma_insert_entry_map(node_entries(self.root), key, value);
        }
        self.dirty = true;
        let ghost gkey = key;
        let ghost gv = value;
        let ghost old_root = self.root;
        let mut root = BPlusTreeNode::new(true);
        proof {
            assert(node_entries(root) =~= Seq::<(K, V)>::empty());
            assert(node_wf(root, None, None));
            lemma_bounded_from_parts(root, self.inner_order as int, self.leaf_order as int);
        }
        std::mem::swap(&mut root, &mut self.root);
        if root.keys.len() == 0 {
            root.keys.push(key);
            root.values.push(value);
            proof {
                lemma_leaf_entries(old_root);
                assert(node_entries(old_root) =~= Seq::<(K, V)>::empty());
                lemma_filter_none(node_entries(old_root), crate::keys::below(gkey.rank()));
                lemma_filter_none(node_entries(old_root), crate::keys::above(gkey.rank()));
                assert(node_entries(root) =~= insert_entry(node_entries(old_root), gkey, gv));
                lemma_bounded_from_parts(root, self.inner_order as int, self.leaf_order as int);
            }
            self.root = root;
            return;
        }
        let inner_order = self.inner_order;
        let leaf_order = self.leaf_order;
        let res = root.insert(key, value, inner_order, leaf_order, Ghost(None), Ghost(None));
        match res {
            Some(node) => {
                proof {
                    lemma_wf_entries(node, Some(node_entries(node)[0].0.rank()), None);
                }
                let child_key_opt = if node.is_leaf {
                    if node.keys.len() > 0 {
                        Some(&node.keys[0])
                    } else {
                        None
                    }
                } else {
                    BPlusTreeNode::<K, V>::find_leaf_entry(&node)
                };
                if let Some(child_key) = child_key_opt {
                    let sep = child_key.copy_key();
                    let mut new_root = BPlusTreeNode::<K, V>::new(false);
                    new_root.keys.push(sep);
                    new_root.children.push(root);
                    new_root.children.push(node);
                    proof {
                        let l = new_root.children@[0];
                        let r = new_root.children@[1];
                        assert(child_lo(new_root, None, 0) == None::<int>);
                        assert(child_hi(new_root, None, 0) == Some(sep.rank()));
                        assert(child_lo(new_root, None, 1) == Some(sep.rank()));
                        assert(child_hi(new_root, None, 1) == None::<int>);
                        assert(node_wf(new_root, None, None));
                        lemma_children_entries_add(seq![l], seq![r]);
                        assert(seq![l] + seq![r] =~= new_root.children@);
                        lemma_children_entries_one(l);
                        lemma_children_entries_one(r);
                        assert(children_bounded(new_root.children@, inner_order as int, leaf_order as int));
                        lemma_bounded_from_parts(new_root, inner_order as int, leaf_order as int);
                        assert(node_height(new_root) == 1 + node_height(l));
                        assert(node_balanced(new_root));
                    }
                    self.root = new_root;
                } else {
                    // a node split off holds at least one key
                    self.root = root;
                }
            },
            None => {
                self.root = root;
            },
        }
    }

    /// The value stored under `key`.
    pub fn query(&self, key: &K) -> (r: Option<&V>)
        ensures
            match r {
                Some(v) => self@.contains_key(*key) && self@[*key] == *v,
                None => !self@.contains_key(*key),
            },
            r matches Some(v) ==> lookup(self.entries(), *key) == Some(*v),
            r is None ==> lookup(self.entries(), *key) is None,
    {
        proof {
            use_type_invariant(self);
        }
        self.root.query(key, Ghost(None), Ghost(None))
    }

    /// The entry with the greatest key that is at most `key`.
    pub fn find_le(&self, key: &K) -> (r: Option<(&K, &V)>)
        ensures
            match r {
                Some(e) => floor_entry(self.entries(), *key) == Some((*e.0, *e.1)),
                None => floor_entry(self.entries(), *key) is None,
            },
    {
        proof {
            use_type_invariant(self);
        }
        if self.root.keys.len() == 0 && self.root.is_leaf && self.root.values.len() == 0 {
            proof {
                lemma_leaf_entries(self.root);
                assert(node_entries(self.root) =~= Seq::<(K, V)>::empty());
                lemma_filter_none(node_entries(self.root), upto(key.rank()));
            }
            return None;
        }
        self.root.find_le(key, Ghost(None), Ghost(None))
    }
}

impl<K: TreeKey, V> View for BPlusTree<K, V> {
    type V = Map<K, V>;

    /// The map that the tree holds.
    open spec fn view(&self) -> Map<K, V> {
        entries_map(self.entries())
    }
}

/// The map that a run of inserts builds from an empty tree, the inserts
/// taken in order.
pub open spec fn map_of_inserts<K, V>(items: Seq<(K, V)>) -> Map<K, V>
    decreases items.len(),
{
    if items.len() == 0 {
        Map::empty()
    } else {
        map_of_inserts(items.drop_last()).insert(items.last().0, items.last().1)
    }
}

/// One more insert: the map of a run with `(k, v)` appended is the run's
/// map with `k` put to `v`, as `insert` changes a tree's map; with `new`
/// giving the empty map, a tree built by a run of inserts holds the run's
/// map.
pub proof fn lemma_map_of_inserts_push<K, V>(items: Seq<(K, V)>, k: K, v: V)
    ensures
        map_of_inserts(items.push((k, v))) == map_of_inserts(items).insert(k, v),
{
    assert(items.push((k, v)).drop_last() =~= items);
}

/// The index of the last insert of `k`, or -1 where `k` was never inserted.
pub open spec fn last_insert_of<K, V>(items: Seq<(K, V)>, k: K) -> int
    decreases items.len(),
{
    if items.len() == 0 {
        -1
    } else if items.last().0 == k {
        items.len() - 1
    } else {
        last_insert_of(items.drop_last(), k)
    }
}

/// The keys a run of inserts names.
pub open spec fn inserted_keys<K, V>(items: Seq<(K, V)>) -> Set<K> {
    items.map_values(|p: (K, V)| p.0).to_set()
}

/// After a run of inserts into an empty tree, a key is found exactly when
/// it was inserted, with the value of its last insert, and the tree holds
/// as many entries as the run names distinct keys.
pub proof fn lemma_map_of_inserts<K, V>(items: Seq<(K, V)>, k: K)
    ensures
        -1 <= last_insert_of(items, k) < items.len(),
        last_insert_of(items, k) >= 0 ==> items[last_insert_of(items, k)].0 == k,
        forall|j: int| last_insert_of(items, k) < j < items.len() ==> (#[trigger] items[j]).0 != k,
        map_of_inserts(items).contains_key(k) <==> last_insert_of(items, k) >= 0,
        last_insert_of(items, k) >= 0 ==> map_of_inserts(items)[k] == items[last_insert_of(items, k)].1,
        map_of_inserts(items).dom() == inserted_keys(items),
        map_of_inserts(items).len() == inserted_keys(items).len(),
    decreases items.len(),
{
    let keys = items.map_values(|p: (K, V)| p.0);
    if items.len() == 0 {
        assert(keys.to_set() =~= Set::<K>::empty());
        assert(map_of_inserts(items).dom() =~= Set::<K>::empty());
    } else {
        let init = items.drop_last();
        lemma_map_of_inserts(init, k);
        let ik = init.map_values(|p: (K, V)| p.0);
        assert(keys =~= ik.push(items.last().0));
        assert forall|j: int| last_insert_of(items, k) < j < items.len() implies (#[trigger] items[j]).0 != k by {
            if j < items.len() - 1 {
                assert(items[j] == init[j]);
            }
        }
        if last_insert_of(items, k) >= 0 && items.last().0 != k {
            assert(items[last_insert_of(items, k)] == init[last_insert_of(init, k)]);
        }
        assert(map_of_inserts(items).dom() =~= inserted_keys(items)) by {
            assert forall|x: K| #[trigger] map_of_inserts(items).dom().contains(x) <==> keys.to_set().contains(x) by {
                lemma_map_of_inserts(init, x);
                if keys.contains(x) {
                    let j = choose|j: int| 0 <= j < keys.len() && keys[j] == x;
                    if j < ik.len() {
                        assert(ik[j] == x);
                        assert(ik.to_set().contains(x));
                    }
                }
                if ik.contains(x) {
                    let j = choose|j: int| 0 <= j < ik.len() && ik[j] == x;
                    assert(keys[j] == x);
                }
                if x == items.last().0 {
                    assert(keys[keys.len() - 1] == x);
                }
            }
        }
    }
    assert(map_of_inserts(items).dom().finite()) by {
        assert(map_of_inserts(items).dom() == inserted_keys(items));
    }
}

/// Every leaf below the node holds one value per key.
pub closed spec fn shape_ok<K, V>(n: BPlusTreeNode<K, V>) -> bool
    decreases n,
{
    if n.is_leaf {
        n.values@.len() == n.keys@.len()
    } else {
        forall|i: int| 0 <= i < n.children@.len() ==> shape_ok(#[trigger] n.children@[i])
    }
}

/// The number of nodes in the subtree.
pub closed spec fn node_count<K, V>(n: BPlusTreeNode<K, V>) -> nat
    decreases n,
{
    if n.is_leaf {
        1
    } else {
        1 + children_count(n.children@)
    }
}

/// The number of nodes below a sequence of nodes.
pub closed spec fn children_count<K, V>(cs: Seq<BPlusTreeNode<K, V>>) -> nat
    decreases cs,
{
    if cs.len() == 0 {
        0
    } else {
        children_count(cs.drop_last()) + node_count(cs.last())
    }
}

/// A well-formed node has one value per key in every leaf.
pub(crate) proof fn lemma_wf_shape<K: TreeKey, V>(n: BPlusTreeNode<K, V>, lo: Option<int>, hi: Option<int>)
    requires
        node_wf(n, lo, hi),
    ensures
        shape_ok(n),
    decreases n,
{
    if !n.is_leaf {
        assert forall|i: int| 0 <= i < n.children@.len() implies shape_ok(#[trigger] n.children@[i]) by {
            lemma_wf_shape(n.children@[i], child_lo(n, lo, i), child_hi(n, hi, i));
        }
    }
}

/// The entries of the nodes on a stack, the top one first.
pub closed spec fn stack_entries<'a, K, V>(st: Seq<&'a BPlusTreeNode<K, V>>) -> Seq<(K, V)>
    decreases st.len(),
{
    if st.len() == 0 {
        Seq::empty()
    } else {
        node_entries(*st.last()) + stack_entries(st.drop_last())
    }
}

/// The number of nodes below the nodes on a stack.
pub closed spec fn stack_count<'a, K, V>(st: Seq<&'a BPlusTreeNode<K, V>>) -> nat
    decreases st.len(),
{
    if st.len() == 0 {
        0
    } else {
        node_count(*st.last()) + stack_count(st.drop_last())
    }
}

/// The entries of leaves given as key and value slices, one leaf after the other.
pub open spec fn leaves_entries<'a, K, V>(ls: Seq<(&'a [K], &'a [V])>) -> Seq<(K, V)>
    decreases ls.len(),
{
    if ls.len() == 0 {
        Seq::empty()
    } else {
        leaves_entries(ls.drop_last()) + leaf_rest(ls.last().0@, ls.last().1@, 0)
    }
}

impl<K: TreeKey, V> BPlusTreeNode<K, V> {
    /// Appends the keys and values of the leaves below the node, left to right.
    fn collect_leaves<'a>(&'a self, out: &mut Vec<(&'a [K], &'a [V])>)
        ensures
            leaves_entries(final(out)@) == leaves_entries(old(out)@) + node_entries(*self),
            slice_views(final(out)@) == slice_views(old(out)@) + node_leaves(*self),
        decreases self,
    {
        if self.is_leaf {
            let ghost before = out@;
            out.push((self.keys.as_slice(), self.values.as_slice()));
            proof {
                assert(out@.drop_last() =~= before);
                assert(leaf_rest(self.keys@, self.values@, 0) =~= node_entries(*self));
                assert(slice_views(out@) =~= slice_views(before) + node_leaves(*self));
            }
        } else {
            let ghost cs = self.children@;
            let ghost start = out@;
            let mut i: usize = 0;
            proof {
                assert(cs.subrange(0, 0) =~= Seq::<BPlusTreeNode<K, V>>::empty());
                assert(slice_views(start) + children_leaves(cs.subrange(0, 0)) =~= slice_views(start));
            }
            while i < self.children.len()
                invariant
                    !self.is_leaf,
                    cs == self.children@,
                    i <= cs.len(),
                    node_entries(*self) == children_entries(cs),
                    node_leaves(*self) == children_leaves(cs),
                    leaves_entries(out@) == leaves_entries(start) + children_entries(cs.subrange(0, i as int)),
                    slice_views(out@) == slice_views(start) + children_leaves(cs.subrange(0, i as int)),
                decreases cs.len() - i,
            {
                proof {
                    lemma_children_entries_add(cs.subrange(0, i as int), seq![cs[i as int]]);
                    lemma_children_leaves_add(cs.subrange(0, i as int), seq![cs[i as int]]);
                    assert(cs.subrange(0, i as int) + seq![cs[i as int]] =~= cs.subrange(0, i + 1));
                    lemma_children_entries_one(cs[i as int]);
                    assert(seq![cs[i as int]].drop_last() =~= Seq::<BPlusTreeNode<K, V>>::empty());
                    assert(children_leaves(Seq::<BPlusTreeNode<K, V>>::empty()) =~= Seq::<(Seq<K>, Seq<V>)>::empty());
                    assert(Seq::<(Seq<K>, Seq<V>)>::empty() + node_leaves(cs[i as int]) =~= node_leaves(cs[i as int]));
                    assert(children_leaves(seq![cs[i as int]]) =~= node_leaves(cs[i as int]));
                }
                self.children[i].collect_leaves(out);
                i = i + 1;
                proof {
                    assert(leaves_entries(out@) =~= leaves_entries(start) + children_entries(cs.subrange(0, i as int)));
                    assert(slice_views(out@) =~= slice_views(start) + children_leaves(cs.subrange(0, i as int)));
                }
            }
            proof {
                assert(cs.subrange(0, cs.len() as int) =~= cs);
            }
        }
    }

    /// The keys and values of the leaves below the node, left to right; the
    /// caller visits each leaf in turn.
    pub fn traverse(&self) -> (r: Vec<(&[K], &[V])>)
        ensures
            leaves_entries(r@) == node_entries(*self),
            slice_views(r@) == node_leaves(*self),
    {
        let mut out: Vec<(&[K], &[V])> = Vec::new();
        self.collect_leaves(&mut out);
        proof {
            assert(leaves_entries(Seq::<(&[K], &[V])>::empty()) =~= Seq::<(K, V)>::empty());
            assert(Seq::<(K, V)>::empty() + node_entries(*self) =~= node_entries(*self));
            assert(slice_views(Seq::<(&[K], &[V])>::empty()) =~= Seq::<(Seq<K>, Seq<V>)>::empty());
            assert(Seq::<(Seq<K>, Seq<V>)>::empty() + node_leaves(*self) =~= node_leaves(*self));
        }
        out
    }
}

impl<K: TreeKey, V> BPlusTree<K, V> {
    /// The keys and values of the leaves, left to right, which hold the
    /// entries in key order; the caller visits each leaf in turn.
    pub fn traverse(&self) -> (r: Vec<(&[K], &[V])>)
        ensures
            leaves_entries(r@) == self.entries(),
            sorted(self.entries()),
            slice_views(r@) == self.leaves(),
            forall|k: int| 0 <= k < r@.len() ==> (#[trigger] r@[k]).0@.len() == r@[k].1@.len(),
    {
        proof {
            use_type_invariant(self);
            lemma_wf_entries(self.root, None, None);
            lemma_wf_even(self.root, None, None);
            lemma_leaves_even(self.root);
        }
        let r = self.root.traverse();
        proof {
            assert forall|k: int| 0 <= k < r@.len() implies (#[trigger] r@[k]).0@.len() == r@[k].1@.len() by {
                assert(slice_views(r@)[k] == (r@[k].0@, r@[k].1@));
                assert(node_leaves(self.root)[k].0.len() == node_leaves(self.root)[k].1.len());
            }
        }
        r
    }
}

/// The entries `index..` of a leaf's keys and values.
pub open spec fn leaf_rest<K, V>(ks: Seq<K>, vs: Seq<V>, index: int) -> Seq<(K, V)> {
    Seq::new((ks.len() - index) as nat, |i: int| (ks[index + i], vs[index + i]))
}

/// Walks the entries of a tree in key order.
pub struct BPlusTreeIterator<'a, K, V> {
    stack: Vec<&'a BPlusTreeNode<K, V>>,
    current_keys: Option<&'a [K]>,
    current_values: Option<&'a [V]>,
    index: usize,
}

/// Pushing the children of a node on a stack, the last child first, puts
/// their entries, in order, on top of the stack's.
proof fn lemma_stack_push_child<'a, K, V>(
    st: Seq<&'a BPlusTreeNode<K, V>>,
    cs: Seq<BPlusTreeNode<K, V>>,
    j: int,
    c: &'a BPlusTreeNode<K, V>,
)
    requires
        0 < j <= cs.len(),
        *c == cs[j - 1],
    ensures
        stack_entries(st.push(c)) == node_entries(cs[j - 1]) + stack_entries(st),
        stack_count(st.push(c)) == node_count(cs[j - 1]) + stack_count(st),
{
    assert(st.push(c).drop_last() =~= st);
}

impl<'a, K: TreeKey, V> BPlusTreeIterator<'a, K, V> {
    /// The iterator is ready to go on.
    pub closed spec fn wf(&self) -> bool {
        &&& forall|i: int| 0 <= i < self.stack@.len() ==> shape_ok(*#[trigger] self.stack@[i])
        &&& match (self.current_keys, self.current_values) {
            (Some(ks), Some(vs)) => ks@.len() == vs@.len() && self.index <= ks@.len(),
            (None, None) => true,
            _ => false,
        }
    }

    /// The entries that the iterator has yet to give, in order.
    pub closed spec fn remaining(&self) -> Seq<(K, V)> {
        let rest = match (self.current_keys, self.current_values) {
            (Some(ks), Some(vs)) => leaf_rest(ks@, vs@, self.index as int),
            _ => Seq::empty(),
        };
        rest + stack_entries(self.stack@)
    }

    /// An iterator over the entries of `tree`.
    pub fn new(tree: &'a BPlusTree<K, V>) -> (r: Self)
        ensures
            r.wf(),
            r.remaining() == tree.entries(),
    {
        proof {
            use_type_invariant(tree);
            lemma_wf_shape(tree.root, None, None);
        }
        let mut stack: Vec<&'a BPlusTreeNode<K, V>> = Vec::new();
        stack.push(&tree.root);
        let r = Self { stack, current_keys: None, current_values: None, index: 0 };
        proof {
            assert(r.stack@.drop_last() =~= Seq::<&'a BPlusTreeNode<K, V>>::empty());
            assert(r.stack@.last() == &tree.root);
            assert(stack_entries(Seq::<&'a BPlusTreeNode<K, V>>::empty()) =~= Seq::<(K, V)>::empty());
            assert(stack_entries(r.stack@) =~= node_entries(tree.root));
            assert(r.remaining() =~= tree.entries());
        }
        r
    }

    /// The next entry, if any.
    pub fn next(&mut self) -> (r: Option<(&'a K, &'a V)>)
        requires
            old(self).wf(),
        ensures
            final(self).wf(),
            match r {
                Some(e) => {
                    &&& old(self).remaining().len() > 0
                    &&& (*e.0, *e.1) == old(self).remaining()[0]
                    &&& final(self).remaining() == old(self).remaining().drop_first()
                },
                None => old(self).remaining().len() == 0 && final(self).remaining().len() == 0,
            },
    {
        let ghost start = self.remaining();
        loop
            invariant
                self.wf(),
                self.remaining() == start,
                start == old(self).remaining(),
            decreases stack_count(self.stack@),
        {
            if let Some(keys) = self.current_keys {
                if let Some(values) = self.current_values {
                    if self.index < keys.len() {
                        let key = &keys[self.index];
                        let value = &values[self.index];
                        let ghost rest = leaf_rest(keys@, values@, self.index as int);
                        let ghost st = stack_entries(self.stack@);
                        assert(start == rest + st);
                        assert(rest.len() > 0);
                        assert(rest[0] == (*key, *value));
                        assert((rest + st)[0] == rest[0]);
                        self.index = self.index + 1;
                        proof {
                            assert(leaf_rest(keys@, values@, self.index as int) =~= rest.drop_first());
                            assert(self.remaining() == leaf_rest(keys@, values@, self.index as int) + st);
                            assert(self.remaining() =~= start.drop_first());
                        }
                        return Some((key, value));
                    }
                }
            }
            // the current leaf is done: find the next one
            proof {
                match (self.current_keys, self.current_values) {
                    (Some(ks), Some(vs)) => {
                        assert(leaf_rest(ks@, vs@, self.index as int) =~= Seq::<(K, V)>::empty());
                    },
                    _ => {},
                }
                assert(stack_entries(self.stack@) =~= start);
            }
            let ghost count0 = stack_count(self.stack@);
            loop
                invariant_except_break
                    forall|i: int| 0 <= i < self.stack@.len() ==> shape_ok(*#[trigger] self.stack@[i]),
                    stack_entries(self.stack@) == start,
                    stack_count(self.stack@) <= count0,
                    start == old(self).remaining(),
                ensures
                    self.wf(),
                    self.remaining() == start,
                    stack_count(self.stack@) < count0,
                decreases stack_count(self.stack@),
            {
                let ghost st0 = self.stack@;
                let node = match self.stack.pop() {
                    Some(n) => n,
                    None => {
                        proof {
                            assert(st0 =~= Seq::<&'a BPlusTreeNode<K, V>>::empty());
                            assert(stack_entries(st0) =~= Seq::<(K, V)>::empty());
                        }
                        self.current_keys = None;
                        self.current_values = None;
                        self.index = 0;
                        proof {
                            assert(self.remaining() =~= Seq::<(K, V)>::empty());
                        }
                        return None;
                    },
                };
                proof {
                    assert(self.stack@ =~= st0.drop_last());
                    assert(shape_ok(*st0[st0.len() - 1]));
                }
                if node.is_leaf {
                    self.current_keys = Some(node.keys.as_slice());
                    self.current_values = Some(node.values.as_slice());
                    self.index = 0;
                    proof {
                        assert(leaf_rest(node.keys@, node.values@, 0) =~= node_entries(*node));
                    }
                    break;
                }
                let mut j = node.children.len();
                while j > 0
                    invariant
                        j <= node.children@.len(),
                        !node.is_leaf,
                        shape_ok(*node),
                        forall|i: int| 0 <= i < self.stack@.len() ==> shape_ok(*#[trigger] self.stack@[i]),
                        stack_entries(self.stack@) == children_entries(node.children@.subrange(j as int, node.children@.len() as int)) + stack_entries(st0.drop_last()),
                        stack_count(self.stack@) == children_count(node.children@.subrange(j as int, node.children@.len() as int)) + stack_count(st0.drop_last()),
                    decreases j,
                {
                    j = j - 1;
                    let ghost stj = self.stack@;
                    let ghost cs = node.children@;
                    self.stack.push(&node.children[j]);
                    proof {
                        lemma_stack_push_child(stj, cs, j + 1, &node.children@[j as int]);
                        lemma_children_entries_add(seq![cs[j as int]], cs.subrange(j + 1, cs.len() as int));
                        assert(seq![cs[j as int]] + cs.subrange(j + 1, cs.len() as int) =~= cs.subrange(j as int, cs.len() as int));
                        lemma_children_entries_one(cs[j as int]);
                        lemma_children_count_add(seq![cs[j as int]], cs.subrange(j + 1, cs.len() as int));
                        lemma_children_count_one(cs[j as int]);
                    }
                }
                proof {
                    assert(node.children@.subrange(0, node.children@.len() as int) =~= node.children@);
                }
            }
        }
    }
}

/// The node counts of nodes put one after the other.
proof fn lemma_children_count_add<K, V>(a: Seq<BPlusTreeNode<K, V>>, b: Seq<BPlusTreeNode<K, V>>)
    ensures
        children_count(a + b) == children_count(a) + children_count(b),
    decreases b.len(),
{
    if b.len() == 0 {
        assert(a + b =~= a);
    } else {
        lemma_children_count_add(a, b.drop_last());
        assert((a + b).drop_last() =~= a + b.drop_last());
    }
}

/// The node count of one node.
proof fn lemma_children_count_one<K, V>(c: BPlusTreeNode<K, V>)
    ensures
        children_count(seq![c]) == node_count(c),
{
    assert(seq![c].drop_last() =~= Seq::<BPlusTreeNode<K, V>>::empty());
    assert(children_count(Seq::<BPlusTreeNode<K, V>>::empty()) == 0);
}

impl<K: TreeKey, V> BPlusTree<K, V> {
    /// An iterator over the entries in key order.
    pub fn iter(&self) -> (r: BPlusTreeIterator<'_, K, V>)
        ensures
            r.wf(),
            r.remaining() == self.entries(),
            sorted(self.entries()),
    {
        proof {
            use_type_invariant(self);
            lemma_wf_entries(self.root, None, None);
        }
        BPlusTreeIterator::new(self)
    }
}

/// Errors of tree operations; a missing key is told apart from failures.
#[derive(Debug)]
pub enum BPlusTreeError {
    /// An I/O error occurred during file operations.
    Io(std::io::Error),
    /// Data corruption was found while reading.
    Corrupted(String),
    /// The tree structure is invalid, such as a missing child pointer.
    InvalidStructure(String),
    /// The requested key is not in the tree.
    KeyNotFound,
}

impl BPlusTreeError {
    /// The message that describes the error.
    pub fn message(&self) -> (r: String)
        ensures
            match self {
                BPlusTreeError::Io(_) => exists|t: Seq<char>| r@ == "I/O error: "@ + t,
                BPlusTreeError::Corrupted(m) => r@ == "Data corrupted: "@ + m@,
                BPlusTreeError::InvalidStructure(m) => r@ == "Invalid structure: "@ + m@,
                BPlusTreeError::KeyNotFound => r@ == "Key not found"@,
            },
    {
        match self {
            BPlusTreeError::Io(e) => {
                let t = io_error_text(e);
                let r = concat("I/O error: ", t.as_str());
                assert(r@ == "I/O error: "@ + t@);
                r
            },
            BPlusTreeError::Corrupted(m) => concat("Data corrupted: ", m.as_str()),
            BPlusTreeError::InvalidStructure(m) => concat("Invalid structure: ", m.as_str()),
            BPlusTreeError::KeyNotFound => "Key not found".to_owned(),
        }
    }

    /// The error as a std I/O error: an I/O error as it is, a missing key as
    /// "not found", anything else as "invalid data" with its message.
    pub fn to_io(self) -> (r: std::io::Error)
        ensures
            self matches BPlusTreeError::Io(e) ==> r == e,
    {
        match self {
            BPlusTreeError::Io(e) => e,
            BPlusTreeError::KeyNotFound => io_error_new(IoKind::NotFound, "Key not found".to_owned()),
            other => {
                let m = other.message();
                io_error_new(IoKind::InvalidData, m)
            },
        }
    }

    /// The tree error for a page error: I/O stays I/O, corruption stays
    /// corruption, anything else is an invalid structure named after the
    /// page error.
    pub fn from_page_error(err: PageError) -> (r: Self)
        ensures
            match err {
                PageError::Io(e) => r == BPlusTreeError::Io(e),
                PageError::Corrupted => r matches BPlusTreeError::Corrupted(m) && m@
                    == "Page data corrupted"@,
                PageError::NoSpace => r matches BPlusTreeError::InvalidStructure(m) && m@
                    == "NoSpace"@,
                PageError::InvalidIndex => r matches BPlusTreeError::InvalidStructure(m) && m@
                    == "InvalidIndex"@,
            },
    {
        match err {
            PageError::Io(e) => BPlusTreeError::Io(e),
            PageError::Corrupted => BPlusTreeError::Corrupted("Page data corrupted".to_owned()),
            PageError::NoSpace => BPlusTreeError::InvalidStructure("NoSpace".to_owned()),
            PageError::InvalidIndex => BPlusTreeError::InvalidStructure("InvalidIndex".to_owned()),
        }
    }
}

impl From<std::io::Error> for BPlusTreeError {
    fn from(err: std::io::Error) -> (r: Self) {
        BPlusTreeError::Io(err)
    }
}

impl FromSpecImpl<std::io::Error> for BPlusTreeError {
    open spec fn obeys_from_spec() -> bool {
        true
    }

    open spec fn from_spec(v: std::io::Error) -> Self {
        BPlusTreeError::Io(v)
    }
}

/// The children a node puts on the queue of a breadth-first walk: those of
/// an inner node, none of a leaf.
pub closed spec fn queued_children<K, V>(n: BPlusTreeNode<K, V>) -> Seq<BPlusTreeNode<K, V>> {
    if n.is_leaf {
        Seq::empty()
    } else {
        n.children@
    }
}

/// The nodes met by a breadth-first walk that starts with the queue `q`.
pub closed spec fn bfs_from<K, V>(q: Seq<BPlusTreeNode<K, V>>) -> Seq<BPlusTreeNode<K, V>>
    decreases children_count(q),
{
    if q.len() == 0 {
        Seq::empty()
    } else {
        proof {
            lemma_children_count_first(q);
        }
        seq![q[0]] + bfs_from(q.drop_first() + queued_children(q[0]))
    }
}

/// The nodes of the tree below `root` in breadth-first order, `root` first.
pub open spec fn bfs_order<K, V>(root: BPlusTreeNode<K, V>) -> Seq<BPlusTreeNode<K, V>> {
    bfs_from(seq![root])
}

/// Taking the first node off a queue and putting its children at the end
/// leaves one node less to walk.
proof fn lemma_children_count_first<K, V>(q: Seq<BPlusTreeNode<K, V>>)
    requires
        q.len() > 0,
    ensures
        children_count(q.drop_first() + queued_children(q[0])) + 1 == children_count(q),
{
    assert(q =~= seq![q[0]] + q.drop_first());
    lemma_children_count_add(seq![q[0]], q.drop_first());
    lemma_children_count_one(q[0]);
    lemma_children_count_add(q.drop_first(), queued_children(q[0]));
    if q[0].is_leaf {
        assert(children_count(Seq::<BPlusTreeNode<K, V>>::empty()) == 0);
    }
}

/// A node as listed in breadth-first order: its keys, its values (for a
/// leaf) and the positions of its children in the list.
pub struct NodeEntry<'a, K, V> {
    pub is_leaf: bool,
    pub keys: &'a [K],
    pub values: &'a [V],
    pub children: Vec<usize>,
}

/// The entry shows the node's flag, keys and values.
pub closed spec fn shows<'a, K, V>(e: NodeEntry<'a, K, V>, n: BPlusTreeNode<K, V>) -> bool {
    &&& e.is_leaf == n.is_leaf
    &&& e.keys@ == n.keys@
    &&& (n.is_leaf ==> e.values@ == n.values@)
}

impl<K, V> BPlusTreeNode<K, V> {
    /// Whether the node is a leaf.
    pub closed spec fn leaf_flag(self) -> bool {
        self.is_leaf
    }

    /// The keys the node holds.
    pub closed spec fn node_keys(self) -> Seq<K> {
        self.keys@
    }

    /// The values a leaf holds; none for an internal node.
    pub closed spec fn leaf_values(self) -> Seq<V> {
        if self.is_leaf {
            self.values@
        } else {
            Seq::empty()
        }
    }
}

/// A breadth-first walk starts with the root: the list of a tree's nodes
/// is never empty, and its first node, the root, holds all the entries.
pub proof fn lemma_bfs_starts_at_root<K: TreeKey, V>(t: BPlusTree<K, V>)
    ensures
        t.bfs_nodes().len() >= 1,
        node_entries(t.bfs_nodes()[0]) == t.entries(),
{
    lemma_children_count_first(seq![t.root]);
    assert(bfs_from(seq![t.root]) == seq![t.root] + bfs_from(
        seq![t.root].drop_first() + queued_children(t.root),
    ));
}

/// An entry that shows a node carries the node's leaf flag.
pub proof fn lemma_shows_flag<'a, K, V>(e: NodeEntry<'a, K, V>, n: BPlusTreeNode<K, V>)
    requires
        shows(e, n),
    ensures
        e.is_leaf == n.leaf_flag(),
        e.keys@ == n.node_keys(),
        e.is_leaf ==> e.values@ == n.leaf_values(),
        !e.is_leaf ==> n.leaf_values().len() == 0,
{
}

/// The position of the first child of entry `i`: the children of the
/// entries are numbered one after the other from position 1 on.
pub open spec fn first_child_pos<'a, K, V>(es: Seq<NodeEntry<'a, K, V>>, i: int) -> int
    decreases i,
{
    if i <= 0 {
        1
    } else {
        first_child_pos(es, i - 1) + es[i - 1].children@.len()
    }
}

impl<K: TreeKey, V> BPlusTreeNode<K, V> {
    /// The nodes below this one in breadth-first order, each with the
    /// positions of its children in the list.
    fn breadth_first(&self) -> (r: Vec<NodeEntry<'_, K, V>>)
        ensures
            r@.len() == bfs_order(*self).len(),
            forall|i: int| 0 <= i < r@.len() ==> shows(#[trigger] r@[i], bfs_order(*self)[i]),
            forall|i: int|
                0 <= i < r@.len() ==> (#[trigger] r@[i]).children@.len() == queued_children(
                    bfs_order(*self)[i],
                ).len(),
            forall|i: int, j: int|
                0 <= i < r@.len() && 0 <= j < r@[i].children@.len() ==> #[trigger] r@[i].children@[j]
                    == first_child_pos(r@, i) + j,
            forall|i: int, j: int|
                0 <= i < r@.len() && 0 <= j < r@[i].children@.len() ==> {
                    let c = #[trigger] r@[i].children@[j] as int;
                    &&& c < r@.len()
                    &&& bfs_order(*self)[c] == queued_children(bfs_order(*self)[i])[j]
                },
    {
        let mut nodes: Vec<&BPlusTreeNode<K, V>> = Vec::new();
        let mut out: Vec<NodeEntry<'_, K, V>> = Vec::new();
        nodes.push(self);
        let ghost all = bfs_order(*self);
        let mut p: usize = 0;
        proof {
            assert(nodes@.map_values(|n: &BPlusTreeNode<K, V>| *n).skip(0) =~= seq![*self]);
        }
        while p < nodes.len()
            invariant
                all == bfs_order(*self),
                p <= nodes@.len(),
                out@.len() == p,
                nodes@.len() >= 1,
                *nodes@[0] == *self,
                nodes@.len() == first_child_pos(out@, p as int),
                ({
                    let ns = nodes@.map_values(|n: &BPlusTreeNode<K, V>| *n);
                    ns.take(p as int) + bfs_from(ns.skip(p as int)) == all
                }),
                forall|i: int| 0 <= i < p ==> shows(#[trigger] out@[i], *nodes@[i]),
                forall|i: int|
                    0 <= i < p ==> (#[trigger] out@[i]).children@.len() == queued_children(
                        *nodes@[i],
                    ).len(),
                forall|i: int, j: int|
                    0 <= i < p && 0 <= j < out@[i].children@.len() ==> #[trigger] out@[i].children@[j]
                        == first_child_pos(out@, i) + j,
                forall|i: int, j: int|
                    0 <= i < p && 0 <= j < out@[i].children@.len() ==> {
                        let c = #[trigger] out@[i].children@[j] as int;
                        &&& c < nodes@.len()
                        &&& *nodes@[c] == queued_children(*nodes@[i])[j]
                    },
            decreases children_count(nodes@.map_values(|n: &BPlusTreeNode<K, V>| *n).skip(p as int)),
        {
            let ghost ns0 = nodes@.map_values(|n: &BPlusTreeNode<K, V>| *n);
            let ghost out0 = out@;
            let ghost len0 = nodes@.len();
            let node: &BPlusTreeNode<K, V> = nodes[p];
            let mut children: Vec<usize> = Vec::new();
            if !node.is_leaf {
                let ghost nodes0 = nodes@;
                let mut j: usize = 0;
                while j < node.children.len()
                    invariant
                        !node.is_leaf,
                        j <= node.children@.len(),
                        len0 == nodes0.len(),
                        nodes@.len() == len0 + j,
                        forall|k: int| 0 <= k < len0 ==> nodes@[k] == nodes0[k],
                        children@.len() == j,
                        forall|k: int| 0 <= k < j ==> #[trigger] children@[k] == len0 + k,
                        forall|k: int| 0 <= k < j ==> *nodes@[len0 + k] == node.children@[k],
                    decreases node.children@.len() - j,
                {
                    nodes.push(&node.children[j]);
                    children.push(nodes.len() - 1);
                    j = j + 1;
                }
            }
            let ghost kids = children@;
            out.push(NodeEntry { is_leaf: node.is_leaf, keys: node.keys.as_slice(), values: node.values.as_slice(), children });
            proof {
                lemma_first_child_pos_push(out0, out@.last(), p as int);
                assert(out@ =~= out0.push(out@.last()));
                assert forall|i: int, j: int|
                    0 <= i <= p && 0 <= j < out@[i].children@.len() implies #[trigger] out@[i].children@[j]
                        == first_child_pos(out@, i) + j by {
                    lemma_first_child_pos_push(out0, out@.last(), i);
                    if i < p {
                        assert(out@[i] == out0[i]);
                    } else {
                        assert(out@[i].children@ == kids);
                    }
                }
                let ns1 = nodes@.map_values(|n: &BPlusTreeNode<K, V>| *n);
                let q = ns0.skip(p as int);
                assert(q[0] == *node);
                assert(ns1.skip(p + 1) =~= q.drop_first() + queued_children(*node));
                assert(ns1.take(p + 1) =~= ns0.take(p as int) + seq![*node]);
                assert(bfs_from(q) == seq![q[0]] + bfs_from(q.drop_first() + queued_children(q[0])));
                assert(ns1.take(p + 1) + bfs_from(ns1.skip(p + 1)) =~= ns0.take(p as int) + bfs_from(q));
                lemma_children_count_first(q);
            }
            p = p + 1;
        }
        proof {
            let ns = nodes@.map_values(|n: &BPlusTreeNode<K, V>| *n);
            assert(ns.skip(p as int) =~= Seq::<BPlusTreeNode<K, V>>::empty());
            assert(ns.take(p as int) =~= ns);
        }
        out
    }
}

/// The position of the first child of entry `i` does not depend on later entries.
proof fn lemma_first_child_pos_push<'a, K, V>(es: Seq<NodeEntry<'a, K, V>>, e: NodeEntry<'a, K, V>, i: int)
    requires
        0 <= i <= es.len(),
    ensures
        first_child_pos(es.push(e), i) == first_child_pos(es, i),
    decreases i,
{
    if i > 0 {
        lemma_first_child_pos_push(es, e, i - 1);
        assert(es.push(e)[i - 1] == es[i - 1]);
    }
}

impl<K: TreeKey, V> BPlusTree<K, V> {
    /// The nodes of the tree in breadth-first order.
    pub closed spec fn bfs_nodes(self) -> Seq<BPlusTreeNode<K, V>> {
        bfs_order(self.root)
    }

    /// The nodes of the tree in breadth-first order, the root first, each
    /// with the positions of its children in the list; this is the order in
    /// which the nodes are laid out in the tree file.
    pub fn nodes_breadth_first(&self) -> (r: Vec<NodeEntry<'_, K, V>>)
        ensures
            r@.len() == self.bfs_nodes().len(),
            forall|i: int| 0 <= i < r@.len() ==> shows(#[trigger] r@[i], self.bfs_nodes()[i]),
            forall|i: int|
                0 <= i < r@.len() ==> (#[trigger] r@[i]).children@.len() == queued_children(
                    self.bfs_nodes()[i],
                ).len(),
            forall|i: int, j: int|
                0 <= i < r@.len() && 0 <= j < r@[i].children@.len() ==> #[trigger] r@[i].children@[j]
                    == first_child_pos(r@, i) + j,
            forall|i: int, j: int|
                0 <= i < r@.len() && 0 <= j < r@[i].children@.len() ==> {
                    let c = #[trigger] r@[i].children@[j] as int;
                    &&& c < r@.len()
                    &&& self.bfs_nodes()[c] == queued_children(self.bfs_nodes()[i])[j]
                },
    {
        self.root.breadth_first()
    }
}

impl<K: TreeKey, V> BPlusTree<K, V> {
    /// Whether the tree holds changes that were not stored; a tree that was
    /// not changed since it was stored need not be stored again.
    pub fn needs_store(&self) -> (r: bool)
        ensures
            r == self.is_dirty(),
    {
        self.dirty
    }

    /// Records that the tree was stored.
    pub fn mark_stored(&mut self)
        ensures
            final(self).entries() == old(self).entries(),
            final(self).orders() == old(self).orders(),
            !final(self).is_dirty(),
    {
        proof {
            use_type_invariant(&*self);
        }
        self.dirty = false;
    }
}

} // verus!