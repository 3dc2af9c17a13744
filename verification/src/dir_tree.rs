//! The directory tree that the cleanup of strm output walks: every
//! directory with its parent, its subdirectories, and whether anything
//! below it holds files. Directories are told apart by their position in
//! the list of the tree.
use vstd::prelude::*;
use crate::ui_names::str_eq;

verus! {

/// A directory of the tree.
pub struct DirNode {
    pub path: String,
    /// The root of the tree is never deleted.
    pub is_root: bool,
    /// The directory or one below it holds files, so it is not deleted.
    pub has_files: bool,
    pub children: Vec<usize>,
    pub parent: Option<usize>,
}

impl DirNode {
    /// A directory below `parent`, not yet known to hold files.
    pub fn new(path: String, parent: Option<usize>) -> (r: Self)
        ensures
            r.path@ == path@,
            !r.is_root,
            !r.has_files,
            r.children@.len() == 0,
            r.parent == parent,
    {
        Self::new_with_flag(path, parent, false)
    }

    /// The root directory of the tree.
    pub fn new_root(path: String) -> (r: Self)
        ensures
            r.path@ == path@,
            r.is_root,
            !r.has_files,
            r.children@.len() == 0,
            r.parent is None,
    {
        Self::new_with_flag(path, None, true)
    }

    /// A directory with the given root flag, not yet known to hold files.
    pub fn new_with_flag(path: String, parent: Option<usize>, is_root: bool) -> (r: Self)
        ensures
            r.path@ == path@,
            r.is_root == is_root,
            !r.has_files,
            r.children@.len() == 0,
            r.parent == parent,
    {
        DirNode { path, is_root, has_files: false, children: Vec::new(), parent }
    }
}

/// Directory `c` is listed as a subdirectory of directory `p`.
pub open spec fn lists_child(nodes: Seq<DirNode>, p: int, c: int) -> bool {
    0 <= p < nodes.len() && nodes[p].children@.contains(c as usize)
}

/// `out` lists the directories below `root`, top to bottom, as positions in
/// `nodes`: the root first, each directory once and after a directory that
/// lists it, and every listed subdirectory of a listed directory.
pub open spec fn walk_order(nodes: Seq<DirNode>, root: usize, out: Seq<usize>) -> bool {
    &&& (root < nodes.len() ==> out.len() >= 1 && out[0] == root)
    &&& (root >= nodes.len() ==> out.len() == 0)
    &&& forall|i: int, j: int| 0 <= i < j < out.len() ==> out[i] != out[j]
    &&& forall|k: int| 0 <= k < out.len() ==> #[trigger] out[k] < nodes.len()
    &&& forall|k: int|
        0 < k < out.len() ==> exists|j: int| 0 <= j < k && lists_child(nodes, out[j] as int, #[trigger] out[k] as int)
    &&& forall|j: int, c: usize|
        0 <= j < out.len() && #[trigger] lists_child(nodes, out[j] as int, c as int) && c < nodes.len()
            ==> out.contains(c)
}

/// Directory `out[k]` is listed by one of `out[0]` to `out[j]`.
pub open spec fn listed_by_upto(nodes: Seq<DirNode>, out: Seq<usize>, k: int, j: int) -> bool {
    exists|j1: int| 0 <= j1 <= j && #[trigger] lists_child(nodes, out[j1] as int, out[k] as int)
}

/// `out` lists directories level by level: of two directories after the
/// first, the earlier one is listed by a directory no later than any that
/// lists the later one.
pub open spec fn level_ordered(nodes: Seq<DirNode>, out: Seq<usize>) -> bool {
    forall|k1: int, k2: int, j: int|
        0 < k1 < k2 < out.len() && 0 <= j < out.len() && #[trigger] lists_child(nodes, out[j] as int, out[k2] as int)
            ==> #[trigger] listed_by_upto(nodes, out, k1, j)
}

/// The directories below `root`, top to bottom, as positions in `nodes`: the
/// root first, then level by level, each directory after the one that lists
/// it, each once. Deleting in the reverse order deletes subdirectories
/// before their parents. Subdirectories that are not in the list are skipped.
pub fn flatten_tree(root: usize, nodes: &[DirNode]) -> (r: Vec<usize>)
    ensures
        walk_order(nodes@, root, r@),
        level_ordered(nodes@, r@),
{
    let n = nodes.len();
    let mut out: Vec<usize> = Vec::new();
    if root >= n {
        return out;
    }
    let mut seen: Vec<bool> = vec![false; n];
    seen.set(root, true);
    out.push(root);
    proof {
        assert forall|i: int| 0 <= i < n implies (#[trigger] seen@[i] <==> out@.contains(i as usize)) by {
            if i == root as int {
                assert(out@[0] == root);
            } else if out@.contains(i as usize) {
                let k = choose|k: int| 0 <= k < out@.len() && out@[k] == i as usize;
                assert(k == 0);
            }
        }
    }
    let ghost mut par: Seq<int> = seq![-1int];
    let mut p: usize = 0;
    while p < out.len()
        invariant
            par.len() == out@.len(),
            forall|k: int|
                0 < k < out@.len() ==> 0 <= #[trigger] par[k] < k && par[k] <= p && lists_child(
                    nodes@,
                    out@[par[k]] as int,
                    out@[k] as int,
                ),
            forall|k: int, j: int|
                0 < k < out@.len() && 0 <= j < par[k] ==> !#[trigger] lists_child(nodes@, out@[j] as int, out@[k] as int),
            forall|k1: int, k2: int| 0 < k1 < k2 < out@.len() ==> #[trigger] par[k1] <= #[trigger] par[k2],
            n == nodes@.len(),
            root < n,
            seen@.len() == n,
            out@.len() >= 1,
            out@[0] == root,
            p <= out@.len(),
            out@.len() <= n,
            forall|i: int, j: int| 0 <= i < j < out@.len() ==> out@[i] != out@[j],
            forall|k: int| 0 <= k < out@.len() ==> #[trigger] out@[k] < n,
            forall|i: int| 0 <= i < n ==> (#[trigger] seen@[i] <==> out@.contains(i as usize)),
            forall|k: int|
                0 < k < out@.len() ==> exists|j: int| 0 <= j < k && j < p + 1 && lists_child(nodes@, out@[j] as int, #[trigger] out@[k] as int),
            forall|j: int, c: usize|
                0 <= j < p && #[trigger] lists_child(nodes@, out@[j] as int, c as int) && c < n ==> out@.contains(c),
        decreases n - p,
    {
        let node = out[p];
        let kids = &nodes[node].children;
        let ghost out0 = out@;
        let mut q: usize = 0;
        while q < kids.len()
            invariant
                par.len() == out@.len(),
                forall|k: int|
                    0 < k < out@.len() ==> 0 <= #[trigger] par[k] < k && par[k] <= p && lists_child(
                        nodes@,
                        out@[par[k]] as int,
                        out@[k] as int,
                    ),
                forall|k: int, j: int|
                    0 < k < out@.len() && 0 <= j < par[k] ==> !#[trigger] lists_child(nodes@, out@[j] as int, out@[k] as int),
                forall|k1: int, k2: int| 0 < k1 < k2 < out@.len() ==> #[trigger] par[k1] <= #[trigger] par[k2],
                n == nodes@.len(),
                root < n,
                seen@.len() == n,
                node == out0[p as int],
                p < out0.len(),
                kids@ == nodes@[node as int].children@,
                q <= kids@.len(),
                out@.len() >= out0.len(),
                out@.len() <= n,
                forall|k: int| 0 <= k < out0.len() ==> out@[k] == out0[k],
                out@[0] == root,
                forall|i: int, j: int| 0 <= i < j < out@.len() ==> out@[i] != out@[j],
                forall|k: int| 0 <= k < out@.len() ==> #[trigger] out@[k] < n,
                forall|i: int| 0 <= i < n ==> (#[trigger] seen@[i] <==> out@.contains(i as usize)),
                forall|k: int|
                    0 < k < out@.len() ==> exists|j: int| 0 <= j < k && j < p + 1 && lists_child(nodes@, out@[j] as int, #[trigger] out@[k] as int),
                forall|j: int, c: usize|
                    0 <= j < p && #[trigger] lists_child(nodes@, out@[j] as int, c as int) && c < n ==> out@.contains(c),
                forall|m: int| 0 <= m < q && kids@[m] < n ==> #[trigger] out@.contains(kids@[m]),
            decreases kids@.len() - q,
        {
            let c = kids[q];
            if c < n && !seen[c] {
                let ghost before = out@;
                seen.set(c, true);
                out.push(c);
                proof {
                    assert(out@[before.len() as int] == c);
                    assert forall|i: int| 0 <= i < n implies (#[trigger] seen@[i] <==> out@.contains(i as usize)) by {
                        if i != c as int {
                            if out@.contains(i as usize) {
                                let k = choose|k: int| 0 <= k < out@.len() && out@[k] == i as usize;
                                assert(k < before.len());
                                assert(before[k] == i as usize);
                            }
                            if before.contains(i as usize) {
                                let k = choose|k: int| 0 <= k < before.len() && before[k] == i as usize;
                                assert(out@[k] == i as usize);
                            }
                        }
                    }
                    assert forall|i: int, j: int| 0 <= i < j < out@.len() implies out@[i] != out@[j] by {
                        if j == before.len() {
                            assert(!before.contains(c));
                            assert(out@[i] == before[i]);
                        }
                    }
                    assert(lists_child(nodes@, out@[p as int] as int, c as int)) by {
                        assert(kids@[q as int] == c);
                    }
                    assert forall|k: int|
                        0 < k < out@.len() implies exists|j: int| 0 <= j < k && j < p + 1 && lists_child(nodes@, out@[j] as int, #[trigger] out@[k] as int) by {
                        if k < before.len() {
                            let j = choose|j: int| 0 <= j < k && j < p + 1 && lists_child(nodes@, before[j] as int, before[k] as int);
                            assert(out@[j] == before[j]);
                        } else {
                            assert(out@[p as int] == node);
                        }
                    }
                    assert forall|j: int, c2: usize|
                        0 <= j < p && #[trigger] lists_child(nodes@, out@[j] as int, c2 as int) && c2 < n implies out@.contains(c2) by {
                        assert(out@[j] == before[j]);
                        let k = choose|k: int| 0 <= k < before.len() && before[k] == c2;
                        assert(out@[k] == c2);
                    }
                    assert forall|m: int| 0 <= m < q + 1 && kids@[m] < n implies #[trigger] out@.contains(kids@[m]) by {
                        if m < q {
                            assert(before.contains(kids@[m]));
                            let k = choose|k: int| 0 <= k < before.len() && before[k] == kids@[m];
                            assert(out@[k] == kids@[m]);
                        } else {
                            assert(out@[before.len() as int] == kids@[m]);
                        }
                    }
                    // distinct entries below n: at most n of them
                    lemma_distinct_bounded(out@, n as int);
                    let par0 = par;
                    par = par.push(p as int);
                    assert forall|k: int|
                        0 < k < out@.len() implies 0 <= #[trigger] par[k] < k && par[k] <= p && lists_child(
                            nodes@,
                            out@[par[k]] as int,
                            out@[k] as int,
                        ) by {
                        if k < before.len() {
                            assert(par[k] == par0[k]);
                            assert(out@[par0[k]] == before[par0[k]]);
                        } else {
                            assert(out@[p as int] == node);
                        }
                    }
                    assert forall|k: int, j: int|
                        0 < k < out@.len() && 0 <= j < par[k] implies !#[trigger] lists_child(nodes@, out@[j] as int, out@[k] as int) by {
                        if k < before.len() {
                            assert(par[k] == par0[k]);
                            assert(out@[j] == before[j]);
                        } else {
                            assert(out@[k] == c);
                            if lists_child(nodes@, out@[j] as int, c as int) {
                                assert(out@[j] == before[j]);
                                assert(lists_child(nodes@, before[j] as int, c as int));
                                assert(before.contains(c));
                            }
                        }
                    }
                    assert forall|k1: int, k2: int| 0 < k1 < k2 < out@.len() implies #[trigger] par[k1] <= #[trigger] par[k2] by {
                        if k2 < before.len() {
                            assert(par[k1] == par0[k1] && par[k2] == par0[k2]);
                        } else {
                            assert(par[k1] == par0[k1]);
                        }
                    }
                }
            } else {
                proof {
                    if c < n {
                        assert(seen@[c as int]);
                    }
                }
            }
            q = q + 1;
        }
        proof {
            assert forall|j: int, c: usize|
                0 <= j < p + 1 && #[trigger] lists_child(nodes@, out@[j] as int, c as int) && c < n implies out@.contains(c) by {
                if j == p {
                    assert(out@[j] == node);
                    let m = choose|m: int| 0 <= m < kids@.len() && kids@[m] == c;
                    assert(kids@[m] < n);
                }
            }
        }
        p = p + 1;
    }
    proof {
        lemma_first_listers_ordered(nodes@, out@, par);
    }
    out
}

/// Where each directory after the first has a first lister `par[k]` before it,
/// and these first listers come in order, the list is level by level.
proof fn lemma_first_listers_ordered(nodes: Seq<DirNode>, out: Seq<usize>, par: Seq<int>)
    requires
        par.len() == out.len(),
        forall|k: int|
            0 < k < out.len() ==> 0 <= #[trigger] par[k] < k && lists_child(nodes, out[par[k]] as int, out[k] as int),
        forall|k: int, j: int|
            0 < k < out.len() && 0 <= j < par[k] ==> !#[trigger] lists_child(nodes, out[j] as int, out[k] as int),
        forall|k1: int, k2: int| 0 < k1 < k2 < out.len() ==> #[trigger] par[k1] <= #[trigger] par[k2],
    ensures
        level_ordered(nodes, out),
{
    assert forall|k1: int, k2: int, j: int|
        0 < k1 < k2 < out.len() && 0 <= j < out.len() && #[trigger] lists_child(nodes, out[j] as int, out[k2] as int)
            implies #[trigger] listed_by_upto(nodes, out, k1, j) by {
        assert(par[k1] <= par[k2]);
        if j < par[k2] {
            assert(!lists_child(nodes, out[j] as int, out[k2] as int));
        }
        assert(lists_child(nodes, out[par[k1]] as int, out[k1] as int));
    }
}

/// Distinct positions below `n` are no more than `n`.
proof fn lemma_distinct_bounded(s: Seq<usize>, n: int)
    requires
        0 <= n,
        forall|i: int, j: int| 0 <= i < j < s.len() ==> s[i] != s[j],
        forall|k: int| 0 <= k < s.len() ==> #[trigger] s[k] < n,
    ensures
        s.len() <= n,
{
    let t = s.map_values(|x: usize| x as int);
    assert(t.no_duplicates()) by {
        assert forall|i: int, j: int| 0 <= i < t.len() && 0 <= j < t.len() && i != j implies t[i] != t[j] by {
            if i < j {
                assert(s[i] != s[j]);
            } else {
                assert(s[j] != s[i]);
            }
        }
    }
    t.unique_seq_to_set();
    vstd::set_lib::lemma_int_range(0, n);
    assert(t.to_set().subset_of(vstd::set_lib::set_int_range(0, n))) by {
        assert forall|x: int| t.to_set().contains(x) implies vstd::set_lib::set_int_range(0, n).contains(x) by {
            let k = choose|k: int| 0 <= k < t.len() && t[k] == x;
            assert(s[k] < n);
        }
    }
    vstd::set_lib::lemma_len_subset(t.to_set(), vstd::set_lib::set_int_range(0, n));
}

/// Every directory's parent stands before it in the list, as it does when the
/// tree is built from the root down.
pub open spec fn parents_precede(nodes: Seq<DirNode>) -> bool {
    forall|i: int|
        0 <= i < nodes.len() ==> match #[trigger] nodes[i].parent {
            Some(p) => (p as int) < i,
            None => true,
        }
}

/// Directory `d` is `at` or one of its ancestors, following the parent links
/// for as long as they lead to a directory of the list.
pub open spec fn on_parent_chain(nodes: Seq<DirNode>, at: int, d: int) -> bool
    decreases at,
{
    if at == d {
        true
    } else if 0 <= at < nodes.len() {
        match nodes[at].parent {
            Some(p) => if 0 <= (p as int) < at {
                on_parent_chain(nodes, p as int, d)
            } else {
                false
            },
            None => false,
        }
    } else {
        false
    }
}

/// The directory `at` holds a file: it and every directory above it are
/// marked as holding files. Nothing else changes.
pub fn mark_has_files(nodes: &mut Vec<DirNode>, at: usize)
    requires
        at < old(nodes)@.len(),
        parents_precede(old(nodes)@),
    ensures
        final(nodes)@.len() == old(nodes)@.len(),
        forall|i: int|
            0 <= i < old(nodes)@.len() ==> (#[trigger] final(nodes)@[i]).has_files == (old(nodes)@[i].has_files
                || on_parent_chain(old(nodes)@, at as int, i)),
        forall|i: int|
            0 <= i < old(nodes)@.len() ==> {
                &&& (#[trigger] final(nodes)@[i]).path@ == old(nodes)@[i].path@
                &&& final(nodes)@[i].is_root == old(nodes)@[i].is_root
                &&& final(nodes)@[i].children@ == old(nodes)@[i].children@
                &&& final(nodes)@[i].parent == old(nodes)@[i].parent
            },
{
    let ghost orig = nodes@;
    let mut cur: usize = at;
    loop
        invariant_except_break
            forall|i: int|
                0 <= i < orig.len() ==> (#[trigger] nodes@[i]).has_files == (orig[i].has_files
                    || (on_parent_chain(orig, at as int, i) && !on_parent_chain(orig, cur as int, i))),
        invariant
            nodes@.len() == orig.len(),
            cur < orig.len(),
            parents_precede(orig),
            forall|i: int|
                0 <= i < orig.len() ==> {
                    &&& (#[trigger] nodes@[i]).path@ == orig[i].path@
                    &&& nodes@[i].is_root == orig[i].is_root
                    &&& nodes@[i].children@ == orig[i].children@
                    &&& nodes@[i].parent == orig[i].parent
                },
            forall|i: int|
                0 <= i < orig.len() && #[trigger] on_parent_chain(orig, cur as int, i) ==> on_parent_chain(orig, at as int, i),
        ensures
            forall|i: int|
                0 <= i < orig.len() ==> (#[trigger] nodes@[i]).has_files == (orig[i].has_files
                    || on_parent_chain(orig, at as int, i)),
        decreases cur,
    {
        let ghost before = nodes@;
        nodes[cur].has_files = true;
        proof {
            assert(on_parent_chain(orig, cur as int, cur as int));
            assert(on_parent_chain(orig, at as int, cur as int));
            assert forall|i: int| 0 <= i < orig.len() && i != cur as int implies nodes@[i] == before[i] by {}
        }
        let parent = nodes[cur].parent;
        match parent {
            Some(p) => {
                if p < nodes.len() {
                    proof {
                        assert(orig[cur as int].parent == Some(p));
                        assert((p as int) < cur);
                        assert forall|i: int| 0 <= i < orig.len() implies
                            #[trigger] on_parent_chain(orig, cur as int, i) == (i == cur as int || on_parent_chain(orig, p as int, i)) by {
                        }
                        if on_parent_chain(orig, p as int, cur as int) {
                            lemma_chain_below(orig, p as int, cur as int);
                        }
                        assert forall|i: int| 0 <= i < orig.len() && #[trigger] on_parent_chain(orig, p as int, i) implies
                            on_parent_chain(orig, at as int, i) by {
                            assert(on_parent_chain(orig, cur as int, i));
                        }
                    }
                    cur = p;
                } else {
                    proof {
                        assert forall|i: int| 0 <= i < orig.len() implies
                            #[trigger] on_parent_chain(orig, cur as int, i) == (i == cur as int) by {
                        }
                    }
                    break;
                }
            },
            None => {
                proof {
                    assert forall|i: int| 0 <= i < orig.len() implies
                        #[trigger] on_parent_chain(orig, cur as int, i) == (i == cur as int) by {
                    }
                }
                break;
            },
        }
    }
}

/// Following parent links from `at` never leads above `at` in the list.
proof fn lemma_chain_below(nodes: Seq<DirNode>, at: int, d: int)
    requires
        on_parent_chain(nodes, at, d),
        0 <= at,
    ensures
        d <= at,
    decreases at,
{
    if at != d {
        match nodes[at].parent {
            Some(p) => lemma_chain_below(nodes, p as int, d),
            None => {},
        }
    }
}

/// Whether `x` is among `v`.
fn contains_index(v: &Vec<usize>, x: usize) -> (r: bool)
    ensures
        r == v@.contains(x),
{
    let mut i: usize = 0;
    while i < v.len()
        invariant
            i <= v@.len(),
            forall|k: int| 0 <= k < i ==> v@[k] != x,
        decreases v@.len() - i,
    {
        if v[i] == x {
            return true;
        }
        i = i + 1;
    }
    false
}

/// The position of the first directory whose path is `path`, if there is one.
pub fn find_dir(nodes: &Vec<DirNode>, path: &str) -> (r: Option<usize>)
    ensures
        match r {
            Some(k) => {
                &&& k < nodes@.len()
                &&& nodes@[k as int].path@ == path@
                &&& forall|j: int| 0 <= j < k ==> (#[trigger] nodes@[j]).path@ != path@
            },
            None => forall|j: int| 0 <= j < nodes@.len() ==> (#[trigger] nodes@[j]).path@ != path@,
        },
{
    let mut i: usize = 0;
    while i < nodes.len()
        invariant
            i <= nodes@.len(),
            forall|j: int| 0 <= j < i ==> (#[trigger] nodes@[j]).path@ != path@,
        decreases nodes@.len() - i,
    {
        if str_eq(nodes[i].path.as_str(), path) {
            return Some(i);
        }
        i = i + 1;
    }
    None
}

/// A subdirectory `path` found while listing directory `current`. Unless a
/// directory of that path is in the tree already, it is added at the end, with
/// `current` as its parent. Either way `current` lists it as a subdirectory,
/// once. The result is its position.
pub fn add_dir(nodes: &mut Vec<DirNode>, current: usize, path: String) -> (r: usize)
    requires
        current < old(nodes)@.len(),
        parents_precede(old(nodes)@),
    ensures
        parents_precede(final(nodes)@),
        (exists|j: int| 0 <= j < old(nodes)@.len() && (#[trigger] old(nodes)@[j]).path@ == path@) ==> {
            &&& r < old(nodes)@.len()
            &&& old(nodes)@[r as int].path@ == path@
            &&& forall|j: int| 0 <= j < r ==> (#[trigger] old(nodes)@[j]).path@ != path@
            &&& final(nodes)@.len() == old(nodes)@.len()
        },
        !(exists|j: int| 0 <= j < old(nodes)@.len() && (#[trigger] old(nodes)@[j]).path@ == path@) ==> {
            &&& r == old(nodes)@.len()
            &&& final(nodes)@.len() == old(nodes)@.len() + 1
            &&& final(nodes)@[r as int].path@ == path@
            &&& !final(nodes)@[r as int].is_root
            &&& !final(nodes)@[r as int].has_files
            &&& final(nodes)@[r as int].children@.len() == 0
            &&& final(nodes)@[r as int].parent == Some(current)
        },
        final(nodes)@[current as int].children@ == (if old(nodes)@[current as int].children@.contains(r) {
            old(nodes)@[current as int].children@
        } else {
            old(nodes)@[current as int].children@.push(r)
        }),
        final(nodes)@[current as int].path@ == old(nodes)@[current as int].path@,
        final(nodes)@[current as int].is_root == old(nodes)@[current as int].is_root,
        final(nodes)@[current as int].has_files == old(nodes)@[current as int].has_files,
        final(nodes)@[current as int].parent == old(nodes)@[current as int].parent,
        forall|i: int|
            0 <= i < old(nodes)@.len() && i != current ==> #[trigger] final(nodes)@[i] == old(nodes)@[i],
{
    let found = find_dir(nodes, path.as_str());
    let r = match found {
        Some(k) => k,
        None => {
            let k = nodes.len();
            nodes.push(DirNode::new(path, Some(current)));
            k
        },
    };
    let ghost mid = nodes@;
    if !contains_index(&nodes[current].children, r) {
        nodes[current].children.push(r);
    }
    proof {
        assert forall|i: int| 0 <= i < nodes@.len() implies match #[trigger] nodes@[i].parent {
            Some(p) => (p as int) < i,
            None => true,
        } by {
            if i != current as int {
                assert(nodes@[i] == mid[i]);
            }
        }
    }
    r
}

/// Directory `d` may go: it is in the list, holds no files and is not the root.
pub open spec fn deletable(nodes: Seq<DirNode>, d: usize) -> bool {
    &&& (d as int) < nodes.len()
    &&& !nodes[d as int].has_files
    &&& !nodes[d as int].is_root
}

/// The directories of `order` that may go, last first.
pub open spec fn deletion_order(nodes: Seq<DirNode>, order: Seq<usize>) -> Seq<usize>
    decreases order.len(),
{
    if order.len() == 0 {
        Seq::empty()
    } else {
        let rest = deletion_order(nodes, order.drop_first());
        if deletable(nodes, order[0]) {
            rest.push(order[0])
        } else {
            rest
        }
    }
}

/// The directories to remove, in the order to remove them: those of `order`
/// (a list from `flatten_tree`) that hold no files and are not the root,
/// walked from the end, so that subdirectories go before their parents.
pub fn dirs_to_delete(order: &Vec<usize>, nodes: &[DirNode]) -> (r: Vec<usize>)
    ensures
        r@ == deletion_order(nodes@, order@),
{
    let mut out: Vec<usize> = Vec::new();
    let mut i: usize = order.len();
    proof {
        assert(order@.subrange(i as int, order@.len() as int) =~= Seq::<usize>::empty());
    }
    while i > 0
        invariant
            i <= order@.len(),
            out@ == deletion_order(nodes@, order@.subrange(i as int, order@.len() as int)),
        decreases i,
    {
        i = i - 1;
        let d = order[i];
        proof {
            let sub = order@.subrange(i as int, order@.len() as int);
            assert(sub.drop_first() =~= order@.subrange(i + 1, order@.len() as int));
            assert(sub[0] == d);
        }
        if d < nodes.len() && !nodes[d].has_files && !nodes[d].is_root {
            out.push(d);
        }
    }
    proof {
        assert(order@.subrange(0, order@.len() as int) =~= order@);
    }
    out
}

/// The cleanup removes exactly the directories of the walk that hold no
/// files and are not the root: the root and every directory with files stay.
pub proof fn lemma_only_empty_dirs_go(nodes: Seq<DirNode>, order: Seq<usize>, d: usize)
    ensures
        deletion_order(nodes, order).contains(d) <==> (order.contains(d) && deletable(nodes, d)),
    decreases order.len(),
{
    if order.len() > 0 {
        let rest = order.drop_first();
        lemma_only_empty_dirs_go(nodes, rest, d);
        let del = deletion_order(nodes, order);
        let del_rest = deletion_order(nodes, rest);
        assert(order =~= seq![order[0]] + rest);
        if order.contains(d) && d != order[0] {
            let k = choose|k: int| 0 <= k < order.len() && order[k] == d;
            assert(rest[k - 1] == d);
        }
        if rest.contains(d) {
            let k = choose|k: int| 0 <= k < rest.len() && rest[k] == d;
            assert(order[k + 1] == d);
        }
        if deletable(nodes, order[0]) {
            assert(del == del_rest.push(order[0]));
            if del_rest.contains(d) {
                let k = choose|k: int| 0 <= k < del_rest.len() && del_rest[k] == d;
                assert(del[k] == d);
            }
            if d == order[0] {
                assert(del[del_rest.len() as int] == d);
            }
            if del.contains(d) && d != order[0] {
                let k = choose|k: int| 0 <= k < del.len() && del[k] == d;
                assert(k < del_rest.len());
                assert(del_rest[k] == d);
            }
        } else {
            assert(order[0] == d ==> !deletable(nodes, d));
        }
    }
}

/// The cleanup walks its list from the end: of two directories that both go,
/// the later one in the list goes first.
pub proof fn lemma_deletion_reverses(nodes: Seq<DirNode>, order: Seq<usize>, a: int, b: int)
    requires
        0 <= a < b < order.len(),
        deletable(nodes, order[a]),
        deletable(nodes, order[b]),
    ensures
        exists|i: int, j: int|
            0 <= i < j < deletion_order(nodes, order).len() && deletion_order(nodes, order)[i] == order[b]
                && deletion_order(nodes, order)[j] == order[a],
    decreases order.len(),
{
    let rest = order.drop_first();
    let del = deletion_order(nodes, order);
    let del_rest = deletion_order(nodes, rest);
    if a == 0 {
        assert(rest[b - 1] == order[b]);
        lemma_only_empty_dirs_go(nodes, rest, order[b]);
        assert(del_rest.contains(order[b]));
        let i = choose|i: int| 0 <= i < del_rest.len() && del_rest[i] == order[b];
        assert(del == del_rest.push(order[0]));
        assert(del[i] == order[b]);
        assert(del[del_rest.len() as int] == order[a]);
    } else {
        lemma_deletion_reverses(nodes, rest, a - 1, b - 1);
        let (i, j) = choose|i: int, j: int|
            0 <= i < j < del_rest.len() && del_rest[i] == rest[b - 1] && del_rest[j] == rest[a - 1];
        if deletable(nodes, order[0]) {
            assert(del == del_rest.push(order[0]));
        }
        assert(del[i] == order[b] && del[j] == order[a]);
    }
}

/// Subdirectories go before their parents: in the cleanup of a walk of a
/// tree where no directory is listed by two directories and the root by
/// none, a subdirectory that goes is removed before its parent.
pub proof fn lemma_subdirs_go_first(nodes: Seq<DirNode>, root: usize, out: Seq<usize>, p: usize, c: usize)
    requires
        walk_order(nodes, root, out),
        forall|a: int, b: int, x: int|
            #[trigger] lists_child(nodes, a, x) && #[trigger] lists_child(nodes, b, x) ==> a == b,
        forall|a: int| !#[trigger] lists_child(nodes, a, root as int),
        lists_child(nodes, p as int, c as int),
        deletion_order(nodes, out).contains(p),
        deletion_order(nodes, out).contains(c),
    ensures
        exists|i: int, j: int|
            0 <= i < j < deletion_order(nodes, out).len() && deletion_order(nodes, out)[i] == c
                && deletion_order(nodes, out)[j] == p,
{
    lemma_only_empty_dirs_go(nodes, out, p);
    lemma_only_empty_dirs_go(nodes, out, c);
    let kc = choose|k: int| 0 <= k < out.len() && out[k] == c;
    let kp = choose|k: int| 0 <= k < out.len() && out[k] == p;
    if kc == 0 {
        assert(out[0] == root);
        assert(lists_child(nodes, p as int, root as int));
    }
    assert(kc > 0);
    let j = choose|j: int| 0 <= j < kc && lists_child(nodes, out[j] as int, out[kc] as int);
    assert(out[j] == p);
    if kp != j {
        if kp < j {
            assert(out[kp] != out[j]);
        } else {
            assert(out[j] != out[kp]);
        }
    }
    lemma_deletion_reverses(nodes, out, j, kc);
}

} // verus!
