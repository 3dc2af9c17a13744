//! The inner levels written over a run of leaves when a stored tree is
//! rewritten compactly: each level groups the nodes below it, a fixed
//! number to a node, until one node is left; every inner node takes one
//! block, and the nodes are written one after the other.
use vstd::prelude::*;
use crate::keys::TreeKey;
use crate::tree_format::TreeFormatError;

verus! {

/// The size of the block an inner node is written in.
pub const INNER_BLOCK: u64 = 4096;

/// Pointers to nodes below (first key, offset), with the offsets as integers.
pub open spec fn int_ptrs<K>(ps: Seq<(K, u64)>) -> Seq<(K, int)> {
    ps.map_values(|p: (K, u64)| (p.0, p.1 as int))
}

/// How many of `len` nodes the next inner node takes: `width`, or all that
/// are left.
pub open spec fn chunk_len(len: int, width: int) -> int {
    if len < width {
        len
    } else {
        width
    }
}

/// The inner node over the nodes `chunk`, written at `off`: the first keys of
/// its children but the first, the offsets of its children, and its offset.
pub open spec fn node_over<K>(chunk: Seq<(K, int)>, off: int) -> (Seq<K>, Seq<int>, int) {
    (chunk.drop_first().map_values(|p: (K, int)| p.0), chunk.map_values(|p: (K, int)| p.1), off)
}

/// The inner nodes of the level over `ps`, `width` children to a node (the
/// last one may have fewer), written one block after the other from `off`.
pub open spec fn level_nodes<K>(ps: Seq<(K, int)>, width: int, off: int) -> Seq<(Seq<K>, Seq<int>, int)>
    decreases ps.len(),
{
    if ps.len() == 0 || width < 1 {
        Seq::empty()
    } else {
        let n = chunk_len(ps.len() as int, width);
        seq![node_over(ps.take(n), off)] + level_nodes(ps.skip(n), width, off + INNER_BLOCK)
    }
}

/// What the level over `ps` hands up: for each of its nodes, the first key
/// below it and its offset.
pub open spec fn level_up<K>(ps: Seq<(K, int)>, width: int, off: int) -> Seq<(K, int)>
    decreases ps.len(),
{
    if ps.len() == 0 || width < 1 {
        Seq::empty()
    } else {
        let n = chunk_len(ps.len() as int, width);
        seq![(ps[0].0, off)] + level_up(ps.skip(n), width, off + INNER_BLOCK)
    }
}

/// A level has one node per pointer it hands up; it hands up no more
/// pointers than it is built over, and fewer when it is built over two or
/// more with two or more to a node.
pub proof fn lemma_level_lens<K>(ps: Seq<(K, int)>, width: int, off: int)
    ensures
        level_nodes(ps, width, off).len() == level_up(ps, width, off).len(),
        level_up(ps, width, off).len() <= ps.len(),
        ps.len() >= 1 && width >= 1 ==> level_up(ps, width, off).len() >= 1,
        ps.len() >= 2 && width >= 2 ==> level_up(ps, width, off).len() < ps.len(),
    decreases ps.len(),
{
    if ps.len() > 0 && width >= 1 {
        let n = chunk_len(ps.len() as int, width);
        lemma_level_lens(ps.skip(n), width, off + INNER_BLOCK);
    }
}

/// All inner nodes over the leaves `ps`, level by level from the bottom,
/// written one block after the other from `off`, and the offset of the root:
/// the one node left at the top, or `off` when there are no leaves.
pub open spec fn all_levels<K>(ps: Seq<(K, int)>, width: int, off: int) -> (Seq<(Seq<K>, Seq<int>, int)>, int)
    decreases ps.len(),
{
    if ps.len() <= 1 || width < 2 {
        (Seq::empty(), if ps.len() == 1 {
            ps[0].1
        } else {
            off
        })
    } else {
        proof {
            lemma_level_lens(ps, width, off);
        }
        let nodes = level_nodes(ps, width, off);
        let rest = all_levels(level_up(ps, width, off), width, off + nodes.len() * INNER_BLOCK);
        (nodes + rest.0, rest.1)
    }
}

/// An inner node to write: its keys, the offsets of its children, and
/// where it goes.
pub struct LevelNode<K> {
    pub keys: Vec<K>,
    pub pointers: Vec<u64>,
    pub offset: u64,
}

/// `n` is the node `s` says.
pub open spec fn shows_node<K>(n: LevelNode<K>, s: (Seq<K>, Seq<int>, int)) -> bool {
    &&& n.keys@ == s.0
    &&& n.pointers@.len() == s.1.len()
    &&& forall|j: int| 0 <= j < s.1.len() ==> n.pointers@[j] as int == #[trigger] s.1[j]
    &&& n.offset as int == s.2
}

/// Writes down one level over `ps`, `width` children to a node, the nodes
/// going one block after the other from `start`, after the nodes already in
/// `nodes`. Gives what the level hands up and the offset after its last
/// node; fails when an offset would pass `u64::MAX`.
fn build_level<K: TreeKey>(
    ps: &Vec<(K, u64)>,
    width: usize,
    start: u64,
    nodes: &mut Vec<LevelNode<K>>,
) -> (r: Result<(Vec<(K, u64)>, u64), TreeFormatError>)
    requires
        width >= 1,
    ensures
        final(nodes)@.len() >= old(nodes)@.len(),
        forall|k: int| 0 <= k < old(nodes)@.len() ==> #[trigger] final(nodes)@[k] == old(nodes)@[k],
        r is Ok <==> start + level_nodes(int_ptrs(ps@), width as int, start as int).len() * INNER_BLOCK
            <= u64::MAX,
        r matches Err(e) ==> e is OffsetOverflow,
        r matches Ok((up, end)) ==> {
            &&& int_ptrs(up@) == level_up(int_ptrs(ps@), width as int, start as int)
            &&& end == start + level_nodes(int_ptrs(ps@), width as int, start as int).len() * INNER_BLOCK
            &&& final(nodes)@.len() == old(nodes)@.len() + level_nodes(
                int_ptrs(ps@),
                width as int,
                start as int,
            ).len()
            &&& forall|k: int|
                0 <= k < level_nodes(int_ptrs(ps@), width as int, start as int).len() ==> shows_node(
                    #[trigger] final(nodes)@[old(nodes)@.len() + k],
                    level_nodes(int_ptrs(ps@), width as int, start as int)[k],
                )
        },
{
    let ghost all = int_ptrs(ps@);
    let ghost w = width as int;
    let ghost base = nodes@.len();
    let ghost whole = level_nodes(all, w, start as int);
    let total: usize = ps.len();
    let mut up: Vec<(K, u64)> = Vec::new();
    let mut i: usize = 0;
    let mut cur: u64 = start;
    let ghost mut done: Seq<(Seq<K>, Seq<int>, int)> = Seq::empty();
    proof {
        assert(all.skip(0) =~= all);
        lemma_level_lens(all, w, start as int);
    }
    while i < ps.len()
        invariant
            width >= 1,
            w == width as int,
            all == int_ptrs(ps@),
            whole == level_nodes(all, w, start as int),
            i <= ps@.len(),
            total == ps@.len(),
            cur as int == start + done.len() * INNER_BLOCK,
            whole == done + level_nodes(all.skip(i as int), w, cur as int),
            level_up(all, w, start as int) == int_ptrs(up@) + level_up(all.skip(i as int), w, cur as int),
            nodes@.len() == base + done.len(),
            base == old(nodes)@.len(),
            forall|k: int| 0 <= k < base ==> #[trigger] nodes@[k] == old(nodes)@[k],
            forall|k: int| 0 <= k < done.len() ==> shows_node(#[trigger] nodes@[base + k], done[k]),
        decreases ps@.len() - i,
    {
        let left = ps.len() - i;
        let n: usize = if left < width { left } else { width };
        let ghost rest = all.skip(i as int);
        let ghost chunk = rest.take(n as int);
        let ghost node = node_over(chunk, cur as int);
        proof {
            assert(rest.len() == left);
            assert(rest.skip(n as int) =~= all.skip(i + n));
            assert(level_nodes(rest, w, cur as int) == seq![node] + level_nodes(rest.skip(n as int), w, cur + INNER_BLOCK));
            lemma_level_lens(rest.skip(n as int), w, cur + INNER_BLOCK);
        }
        let mut keys: Vec<K> = Vec::new();
        let mut pointers: Vec<u64> = Vec::new();
        let mut j: usize = 0;
        while j < n
            invariant
                i + n <= ps@.len(),
                total == ps@.len(),
                all == int_ptrs(ps@),
                rest == all.skip(i as int),
                chunk == rest.take(n as int),
                j <= n,
                pointers@.len() == j,
                forall|m: int| 0 <= m < j ==> pointers@[m] as int == #[trigger] chunk[m].1,
                keys@.len() == if j == 0 { 0 } else { j - 1 },
                forall|m: int| 0 <= m < keys@.len() ==> keys@[m] == #[trigger] chunk[m + 1].0,
            decreases n - j,
        {
            let at = i + j;
            if j > 0 {
                let k = ps[at].0.copy_key();
                keys.push(k);
            }
            pointers.push(ps[at].1);
            j = j + 1;
        }
        proof {
            assert(keys@ =~= chunk.drop_first().map_values(|p: (K, int)| p.0));
            assert(pointers@.len() == chunk.map_values(|p: (K, int)| p.1).len());
        }
        let first = ps[i].0.copy_key();
        proof {
            assert(rest[0] == all[i as int]);
        }
        up.push((first, cur));
        nodes.push(LevelNode { keys, pointers, offset: cur });
        let next = cur.checked_add(INNER_BLOCK);
        match next {
            Some(c) => {
                proof {
                    let d2 = done.push(node);
                    assert(d2 + level_nodes(all.skip(i + n), w, c as int) =~= done + level_nodes(rest, w, cur as int));
                    assert(int_ptrs(up@) =~= int_ptrs(up@.drop_last()) + seq![(all[i as int].0, cur as int)]);
                    assert(shows_node(nodes@[base + done.len() as int], node));
                    done = d2;
                }
                cur = c;
                i = i + n;
            },
            None => {
                proof {
                    assert(whole.len() >= done.len() + 1);
                }
                return Err(TreeFormatError::OffsetOverflow);
            },
        }
    }
    proof {
        assert(all.skip(i as int) =~= Seq::<(K, int)>::empty());
        assert(whole =~= done);
        assert(int_ptrs(up@) =~= level_up(all, w, start as int));
    }
    Ok((up, cur))
}

/// The inner nodes to write over the leaves `leaf_pointers` (the first key of
/// each leaf and its offset), `width` children to a node, one block after the
/// other from `start`, level by level from the bottom, and the offset of the
/// root; fails when an offset would pass `u64::MAX`.
pub fn build_levels<K: TreeKey>(leaf_pointers: &Vec<(K, u64)>, start: u64, width: usize) -> (r: Result<
    (Vec<LevelNode<K>>, u64),
    TreeFormatError,
>)
    requires
        width >= 2,
    ensures
        r is Ok <==> start + all_levels(int_ptrs(leaf_pointers@), width as int, start as int).0.len()
            * INNER_BLOCK <= u64::MAX,
        r matches Err(e) ==> e is OffsetOverflow,
        r matches Ok((nodes, root)) ==> {
            let spec_levels = all_levels(int_ptrs(leaf_pointers@), width as int, start as int);
            &&& root as int == spec_levels.1
            &&& nodes@.len() == spec_levels.0.len()
            &&& forall|k: int| 0 <= k < nodes@.len() ==> shows_node(#[trigger] nodes@[k], spec_levels.0[k])
        },
{
    let ghost w = width as int;
    let ghost whole = all_levels(int_ptrs(leaf_pointers@), w, start as int);
    let mut level: Vec<(K, u64)> = Vec::new();
    let mut i: usize = 0;
    while i < leaf_pointers.len()
        invariant
            i <= leaf_pointers@.len(),
            level@.len() == i,
            forall|m: int| 0 <= m < i ==> #[trigger] level@[m] == leaf_pointers@[m],
        decreases leaf_pointers@.len() - i,
    {
        let k = leaf_pointers[i].0.copy_key();
        level.push((k, leaf_pointers[i].1));
        i = i + 1;
    }
    proof {
        assert(level@ =~= leaf_pointers@);
    }
    let mut nodes: Vec<LevelNode<K>> = Vec::new();
    let mut off: u64 = start;
    let ghost mut done: Seq<(Seq<K>, Seq<int>, int)> = Seq::empty();
    while level.len() > 1
        invariant
            width >= 2,
            w == width as int,
            whole == all_levels(int_ptrs(leaf_pointers@), w, start as int),
            off as int == start + done.len() * INNER_BLOCK,
            whole.0 == done + all_levels(int_ptrs(level@), w, off as int).0,
            whole.1 == all_levels(int_ptrs(level@), w, off as int).1,
            nodes@.len() == done.len(),
            forall|k: int| 0 <= k < done.len() ==> shows_node(#[trigger] nodes@[k], done[k]),
        decreases level@.len(),
    {
        let ghost lv = int_ptrs(level@);
        let ghost before = nodes@;
        proof {
            lemma_level_lens(lv, w, off as int);
        }
        match build_level(&level, width, off, &mut nodes) {
            Ok((up, end)) => {
                proof {
                    let ln = level_nodes(lv, w, off as int);
                    assert(all_levels(lv, w, off as int).0 == ln + all_levels(int_ptrs(up@), w, end as int).0);
                    assert forall|k: int| 0 <= k < done.len() + ln.len() implies shows_node(
                        #[trigger] nodes@[k],
                        (done + ln)[k],
                    ) by {
                        if k < done.len() {
                            assert(nodes@[k] == before[k]);
                        } else {
                            assert(nodes@[done.len() + (k - done.len())] == nodes@[k]);
                        }
                    }
                    done = done + ln;
                    assert(whole.0 =~= done + all_levels(int_ptrs(up@), w, end as int).0);
                }
                level = up;
                off = end;
            },
            Err(e) => {
                proof {
                    let ln = level_nodes(lv, w, off as int);
                    assert(whole.0.len() >= done.len() + ln.len());
                    assert(start + whole.0.len() * INNER_BLOCK >= off + ln.len() * INNER_BLOCK) by (nonlinear_arith)
                        requires
                            whole.0.len() >= done.len() + ln.len(),
                            off == start + done.len() * INNER_BLOCK,
                    ;
                }
                return Err(e);
            },
        }
    }
    let root = if level.len() == 1 {
        level[0].1
    } else {
        off
    };
    proof {
        assert(all_levels(int_ptrs(level@), w, off as int).0 =~= Seq::<(Seq<K>, Seq<int>, int)>::empty());
        assert(whole.0 =~= done);
    }
    Ok((nodes, root))
}

/// The child offsets of `nodes`, one node after the other.
pub open spec fn child_offsets<K>(nodes: Seq<(Seq<K>, Seq<int>, int)>) -> Seq<int>
    decreases nodes.len(),
{
    if nodes.len() == 0 {
        Seq::empty()
    } else {
        nodes[0].1 + child_offsets(nodes.drop_first())
    }
}

/// Each node below is the child of exactly one node of the level over it:
/// the child offsets of the level, one node after the other, are the offsets
/// of the nodes below, in order.
pub proof fn lemma_level_covers_children<K>(ps: Seq<(K, int)>, width: int, off: int)
    requires
        width >= 1,
    ensures
        child_offsets(level_nodes(ps, width, off)) == ps.map_values(|p: (K, int)| p.1),
    decreases ps.len(),
{
    if ps.len() > 0 {
        let n = chunk_len(ps.len() as int, width);
        let rest = ps.skip(n);
        lemma_level_covers_children(rest, width, off + INNER_BLOCK);
        let nodes = level_nodes(ps, width, off);
        assert(nodes.drop_first() =~= level_nodes(rest, width, off + INNER_BLOCK));
        assert(ps.map_values(|p: (K, int)| p.1) =~= ps.take(n).map_values(|p: (K, int)| p.1) + rest.map_values(
            |p: (K, int)| p.1,
        ));
    } else {
        assert(ps.map_values(|p: (K, int)| p.1) =~= Seq::<int>::empty());
    }
}

} // verus!
