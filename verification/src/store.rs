//! Laying out a whole tree as the bytes of its file: the header block, the
//! nodes in breadth-first order, then the values of the leaves, leaf by leaf.
use vstd::prelude::*;
use crate::bplustree::{lemma_shows_flag, queued_children, BPlusTree, BPlusTreeNode, NodeEntry};
use crate::info_codec::{encode_child_offsets, encode_value_infos, info_records, offset_records, INFO_WIDTH};
use crate::keys::TreeKey;
use crate::le::push_bytes;
use crate::tree_format::{
    blocks_for, encode_file_header, encode_internal_block, encode_leaf_block, file_header_bytes,
    lemma_file_header_roundtrip, lemma_node_block_roundtrip, node_block_bytes, node_block_size, node_content,
    parse_file_header, parse_node_block, place_after, place_leaf_values, placed_end, plan_items,
    plan_leaf_values, planned, plan_holds, info_items, leaf_placed, append_leaf_values, value_reads_back,
    placed_infos, value_stored,
    views, TreeFormatError, ValueInfo, BLOCK_SIZE, COMPRESSION_THRESHOLD_PERCENT, HEADER_SIZE,
};

verus! {

/// The views of lists of child positions.
pub open spec fn child_views(c: Seq<Vec<usize>>) -> Seq<Seq<usize>> {
    c.map_values(|x: Vec<usize>| x@)
}

/// The views of the encoded values of each node.
pub open spec fn value_views(v: Seq<Vec<Vec<u8>>>) -> Seq<Seq<Seq<u8>>> {
    v.map_values(|x: Vec<Vec<u8>>| views(x@))
}

/// The size of a node's block: a leaf holds its flag, its keys and one info
/// record for each value, in whole blocks; an inner node takes one block.
pub open spec fn node_size(leaf: bool, keys: Seq<u8>, nvals: int) -> int {
    if leaf {
        blocks_for(9 + keys.len() + INFO_WIDTH * nvals)
    } else {
        BLOCK_SIZE as int
    }
}

/// Where node `i` starts: after the header block and the nodes before it.
pub open spec fn node_start(leaf: Seq<bool>, keys: Seq<Seq<u8>>, vals: Seq<Seq<Seq<u8>>>, i: int) -> int
    decreases i,
{
    if i <= 0 {
        HEADER_SIZE as int
    } else {
        node_start(leaf, keys, vals, i - 1) + node_size(leaf[i - 1], keys[i - 1], vals[i - 1].len() as int)
    }
}

/// Where the values of the leaves among the first `i` nodes end, placed
/// leaf after leaf from `start`.
pub open spec fn values_end(leaf: Seq<bool>, vals: Seq<Seq<Seq<u8>>>, i: int, start: int) -> int
    decreases i,
{
    if i <= 0 {
        start
    } else {
        let c = values_end(leaf, vals, i - 1, start);
        if leaf[i - 1] {
            place_after(plan_items(vals[i - 1]), c).1
        } else {
            c
        }
    }
}

/// The end of a tree's image: the nodes, then the values of the leaves.
pub open spec fn image_end(leaf: Seq<bool>, keys: Seq<Seq<u8>>, vals: Seq<Seq<Seq<u8>>>) -> int {
    values_end(leaf, vals, leaf.len() as int, node_start(leaf, keys, vals, leaf.len() as int))
}

/// The offset of each node in the image.
pub open spec fn node_offsets(leaf: Seq<bool>, keys: Seq<Seq<u8>>, vals: Seq<Seq<Seq<u8>>>) -> Seq<u64> {
    Seq::new(leaf.len(), |i: int| node_start(leaf, keys, vals, i) as u64)
}

/// A leaf whose keys, value infos or values pass their length fields (or a
/// value too long to measure for compression).
pub open spec fn leaf_too_long(keys: Seq<u8>, vals: Seq<Seq<u8>>) -> bool {
    ||| keys.len() > u32::MAX
    ||| INFO_WIDTH * vals.len() > u32::MAX
    ||| exists|j: int| 0 <= j < vals.len() && (#[trigger] vals[j]).len() * COMPRESSION_THRESHOLD_PERCENT > usize::MAX
    ||| exists|j: int| 0 <= j < vals.len() && (#[trigger] planned(vals, j)).1 > u32::MAX
}

/// An inner node whose keys and child offsets do not fit one block.
pub open spec fn inner_too_big(keys: Seq<u8>, nchildren: int) -> bool {
    9 + keys.len() + 8 * nchildren > BLOCK_SIZE
}

/// The node can be laid out.
pub open spec fn node_fits(leaf: bool, keys: Seq<u8>, nchildren: int, vals: Seq<Seq<u8>>) -> bool {
    if leaf {
        !leaf_too_long(keys, vals)
    } else {
        !inner_too_big(keys, nchildren)
    }
}

/// Every node can be laid out, and the image, with a block to spare, fits
/// the machine's range of offsets.
pub open spec fn layout_fits(
    leaf: Seq<bool>,
    children: Seq<Seq<usize>>,
    keys: Seq<Seq<u8>>,
    vals: Seq<Seq<Seq<u8>>>,
) -> bool {
    &&& forall|i: int|
        0 <= i < leaf.len() ==> #[trigger] node_fits(leaf[i], keys[i], children[i].len() as int, vals[i])
    &&& image_end(leaf, keys, vals) + BLOCK_SIZE <= usize::MAX
}

/// The values of a leaf read back from `img`: the leaf's payload holds an
/// info record for each value, and each value of at most `u32::MAX` bytes
/// reads back from where its info points.
pub open spec fn leaf_values_read_back(img: Seq<u8>, p: Seq<u8>, vals: Seq<Seq<u8>>) -> bool {
    exists|infos: Seq<ValueInfo>|
        {
            &&& infos.len() == vals.len()
            &&& #[trigger] info_records(infos) == p
            &&& forall|j: int|
                0 <= j < vals.len() && (#[trigger] vals[j]).len() <= u32::MAX ==> value_reads_back(
                    img,
                    infos[j],
                    vals[j],
                )
        }
}

/// Node `i` reads back at `offs[i]` in `img` as a node block with flag `f`
/// and keys `kb`: a leaf with its values `vals`, an inner node with the
/// offsets of its children `cs` as payload.
pub open spec fn node_reads_back(
    img: Seq<u8>,
    offs: Seq<u64>,
    i: int,
    f: bool,
    cs: Seq<usize>,
    kb: Seq<u8>,
    vals: Seq<Seq<u8>>,
) -> bool {
    &&& offs[i] <= img.len()
    &&& parse_node_block(img.subrange(offs[i] as int, img.len() as int)) matches Ok(t)
    &&& t.0 == f
    &&& t.1 == kb
    &&& f ==> leaf_values_read_back(img, t.2, vals)
    &&& !f ==> t.2 == offset_records(cs.map_values(|c: usize| offs[c as int]))
}

/// The nodes of a tree stand in `img` one after the other from the end of
/// the header block, node `i` at `offs[i]`, and read back with their flags
/// `leaf[i]`, encoded keys `keys[i]`, and values `vals[i]` or children
/// `children[i]`.
pub open spec fn image_nodes(
    img: Seq<u8>,
    offs: Seq<u64>,
    leaf: Seq<bool>,
    children: Seq<Seq<usize>>,
    keys: Seq<Seq<u8>>,
    vals: Seq<Seq<Seq<u8>>>,
) -> bool {
    &&& offs.len() == leaf.len()
    &&& offs.len() > 0 ==> offs[0] == HEADER_SIZE
    &&& forall|i: int, j: int| 0 <= i < j < offs.len() ==> offs[i] < offs[j]
    &&& forall|i: int|
        0 <= i < offs.len() ==> #[trigger] node_reads_back(img, offs, i, leaf[i], children[i], keys[i], vals[i])
}

/// Where the values of leaf `i` start: after the nodes and the values of
/// the leaves before it.
pub open spec fn leaf_start(leaf: Seq<bool>, keys: Seq<Seq<u8>>, vals: Seq<Seq<Seq<u8>>>, i: int) -> int {
    values_end(leaf, vals, i, node_start(leaf, keys, vals, leaf.len() as int))
}

/// The payload of node `i`: the info records of a leaf's values as placed,
/// or the offsets of an inner node's children.
pub open spec fn image_payload(
    leaf: Seq<bool>,
    children: Seq<Seq<usize>>,
    keys: Seq<Seq<u8>>,
    vals: Seq<Seq<Seq<u8>>>,
    i: int,
) -> Seq<u8> {
    if leaf[i] {
        info_records(placed_infos(vals[i], leaf_start(leaf, keys, vals, i)))
    } else {
        offset_records(children[i].map_values(|c: usize| node_offsets(leaf, keys, vals)[c as int]))
    }
}

/// The bytes of `img` are those the layout puts there: the block of each
/// node at its offset, and the stored bytes of each value of a leaf where
/// the value's placed info points.
pub open spec fn image_bytes_placed(
    img: Seq<u8>,
    leaf: Seq<bool>,
    children: Seq<Seq<usize>>,
    keys: Seq<Seq<u8>>,
    vals: Seq<Seq<Seq<u8>>>,
) -> bool {
    &&& forall|i: int|
        0 <= i < leaf.len() ==> #[trigger] block_at(
            img,
            node_start(leaf, keys, vals, i),
            node_block_bytes(leaf[i], keys[i], image_payload(leaf, children, keys, vals, i)),
        )
    &&& forall|i: int, j: int|
        0 <= i < leaf.len() && leaf[i] && 0 <= j < vals[i].len() ==> #[trigger] value_stored(
            img,
            placed_infos(vals[i], leaf_start(leaf, keys, vals, i)),
            vals[i],
            j,
        )
}

/// The image `img`, ending at `end`, of a tree whose nodes in breadth-first
/// order have the flags `leaf`, children `children`, encoded keys `keys` and
/// encoded values `vals`: the header block naming the root right after it,
/// the nodes one after the other, then the values of the leaves.
pub open spec fn laid_out(
    img: Seq<u8>,
    end: int,
    leaf: Seq<bool>,
    children: Seq<Seq<usize>>,
    keys: Seq<Seq<u8>>,
    vals: Seq<Seq<Seq<u8>>>,
) -> bool {
    &&& end == image_end(leaf, keys, vals)
    &&& img.len() == end
    &&& img.subrange(0, HEADER_SIZE as int) == file_header_bytes(HEADER_SIZE)
    &&& parse_file_header(img) == Ok::<u64, TreeFormatError>(HEADER_SIZE)
    &&& image_nodes(img, node_offsets(leaf, keys, vals), leaf, children, keys, vals)
    &&& image_bytes_placed(img, leaf, children, keys, vals)
}

/// The error a layout fails with, and why: a leaf too long, an inner node
/// too big, or an image past the range of offsets though every node fits.
pub open spec fn layout_error(
    e: TreeFormatError,
    leaf: Seq<bool>,
    children: Seq<Seq<usize>>,
    keys: Seq<Seq<u8>>,
    vals: Seq<Seq<Seq<u8>>>,
) -> bool {
    ||| e is LengthOverflow && exists|i: int| 0 <= i < leaf.len() && leaf[i] && #[trigger] leaf_too_long(keys[i], vals[i])
    ||| e is InternalNodeOverflow && exists|i: int|
        0 <= i < leaf.len() && !leaf[i] && #[trigger] inner_too_big(keys[i], children[i].len() as int)
    ||| e is OffsetOverflow && (forall|i: int|
        0 <= i < leaf.len() ==> #[trigger] node_fits(leaf[i], keys[i], children[i].len() as int, vals[i]))
        && image_end(leaf, keys, vals) + BLOCK_SIZE > usize::MAX
}

/// Nodes start one after the other, each at least one block long.
proof fn lemma_node_start_grows(leaf: Seq<bool>, keys: Seq<Seq<u8>>, vals: Seq<Seq<Seq<u8>>>, i: int, j: int)
    requires
        0 <= i <= j,
    ensures
        node_start(leaf, keys, vals, i) + (j - i) * BLOCK_SIZE <= node_start(leaf, keys, vals, j),
    decreases j - i,
{
    if i < j {
        lemma_node_start_grows(leaf, keys, vals, i, j - 1);
        let k = keys[j - 1];
        let n = 9 + k.len() + INFO_WIDTH * vals[j - 1].len();
        assert(blocks_for(n) >= BLOCK_SIZE) by (nonlinear_arith)
            requires
                n >= 9,
        ;
    }
}

/// The values of later leaves end no earlier.
proof fn lemma_values_end_grows(leaf: Seq<bool>, vals: Seq<Seq<Seq<u8>>>, i: int, j: int, start: int)
    requires
        0 <= i <= j,
    ensures
        start <= values_end(leaf, vals, i, start) <= values_end(leaf, vals, j, start),
    decreases j,
{
    if i < j {
        lemma_values_end_grows(leaf, vals, i, j - 1, start);
    }
    if j > 0 {
        let c = values_end(leaf, vals, j - 1, start);
        let items = plan_items(vals[j - 1]);
        crate::tree_format::lemma_place_grows(items, c, 0, 0);
        assert(items.take(0) =~= Seq::<(crate::tree_format::ValueStorageMode, u32)>::empty());
        if i == j {
            lemma_values_end_grows(leaf, vals, i - 1, j - 1, start);
        }
    }
}

/// Bytes that stand in a prefix stand there after more bytes are appended.
proof fn lemma_prefix_keeps(img: Seq<u8>, more: Seq<u8>, a: int, b: int)
    requires
        0 <= a <= b <= img.len(),
    ensures
        (img + more).subrange(a, b) == img.subrange(a, b),
{
    assert((img + more).subrange(a, b) =~= img.subrange(a, b));
}

/// A value that reads back from an image reads back after more bytes are
/// appended.
proof fn lemma_value_kept(img: Seq<u8>, more: Seq<u8>, info: ValueInfo, v: Seq<u8>)
    requires
        value_reads_back(img, info, v),
    ensures
        value_reads_back(img + more, info, v),
{
    match info.mode {
        crate::tree_format::ValueStorageMode::Single(o) => {
            lemma_prefix_keeps(img, more, o as int, o + info.length);
        },
        crate::tree_format::ValueStorageMode::Packed(o, idx) => {
            lemma_prefix_keeps(img, more, o as int, o + BLOCK_SIZE);
        },
    }
}

/// The header of a file reads the same whatever follows its first 16 bytes.
proof fn lemma_header_prefix(h: Seq<u8>, t: Seq<u8>)
    requires
        h.len() >= 16,
    ensures
        parse_file_header(h + t) == parse_file_header(h),
{
    let s = h + t;
    assert(s.subrange(0, 4) =~= h.subrange(0, 4));
    assert forall|i: int| 0 <= i < 16 implies s[i] == h[i] by {}
}



/// A leaf's planned infos carry the items `plan_items` names.
proof fn lemma_plan_items(plan: Seq<ValueInfo>, vals: Seq<Seq<u8>>)
    requires
        plan.len() == vals.len(),
        forall|k: int| 0 <= k < vals.len() ==> #[trigger] plan_holds(plan, vals, k),
    ensures
        info_items(plan) == plan_items(vals),
{
    assert forall|k: int| 0 <= k < vals.len() implies #[trigger] info_items(plan)[k] == plan_items(vals)[k] by {
        assert(plan_holds(plan, vals, k));
    }
    assert(info_items(plan) =~= plan_items(vals));
}

/// A node's block is as long as the whole blocks its content needs.
proof fn lemma_block_len(f: bool, kb: Seq<u8>, pb: Seq<u8>)
    ensures
        node_block_bytes(f, kb, pb).len() == blocks_for(9 + kb.len() + pb.len() as int),
        blocks_for(9 + kb.len() + pb.len() as int) >= 9 + kb.len() + pb.len(),
{
    let n: int = (9 + kb.len() + pb.len()) as int;
    assert(node_content(f, kb, pb).len() == n);
    assert(blocks_for(n) >= n) by (nonlinear_arith)
        requires
            n >= 0,
    ;
}

/// The payload of node `k`: the records of a leaf's value infos, or the
/// offsets of an inner node's children.
pub open spec fn node_payload(leaf: bool, infos: Seq<ValueInfo>, cs: Seq<usize>, offs: Seq<u64>) -> Seq<u8> {
    if leaf {
        info_records(infos)
    } else {
        offset_records(cs.map_values(|c: usize| offs[c as int]))
    }
}

/// The bytes `b` stand in `img` at offset `off`.
pub open spec fn block_at(img: Seq<u8>, off: int, b: Seq<u8>) -> bool {
    &&& 0 <= off
    &&& off + b.len() <= img.len()
    &&& img.subrange(off, off + b.len()) == b
}

/// Node blocks that stand at their offsets, with the values of the leaves
/// reading back, make the nodes read back.
proof fn lemma_nodes_read_back(
    img: Seq<u8>,
    offs: Seq<u64>,
    leaf: Seq<bool>,
    children: Seq<Seq<usize>>,
    keys: Seq<Seq<u8>>,
    vals: Seq<Seq<Seq<u8>>>,
    infos: Seq<Vec<ValueInfo>>,
)
    requires
        offs.len() == leaf.len(),
        nodes_stand(img, leaf, children, keys, vals, infos, offs, leaf.len() as int),
        values_stand(img, leaf, vals, infos, leaf.len() as int),
        forall|k: int| 0 <= k < leaf.len() && #[trigger] leaf[k] ==> infos[k]@.len() == vals[k].len(),
    ensures
        forall|k: int|
            0 <= k < leaf.len() ==> #[trigger] node_reads_back(img, offs, k, leaf[k], children[k], keys[k], vals[k]),
{
    assert forall|k: int| 0 <= k < leaf.len() implies #[trigger] node_reads_back(
        img,
        offs,
        k,
        leaf[k],
        children[k],
        keys[k],
        vals[k],
    ) by {
        assert(node_stands(img, leaf, children, keys, vals, infos, offs, k));
        let pb = node_payload(leaf[k], infos[k]@, children[k], offs);
        let b = node_block_bytes(leaf[k], keys[k], pb);
        let off = offs[k] as int;
        let rest = img.subrange(off + b.len(), img.len() as int);
        assert(img.subrange(off, img.len() as int) =~= b + rest);
        lemma_node_block_roundtrip(leaf[k], keys[k], pb, rest);
        if leaf[k] {
            let w = infos[k]@;
            assert(info_records(w) == pb);
            assert(leaf_values_read_back(img, pb, vals[k]));
        }
    }
}

/// How each node is planned: the value infos of a leaf, with placeholder
/// offsets, and the size of each node's block. Fails on the first node that
/// cannot be laid out.
#[verifier::loop_isolation(false)]
fn plan_nodes(
    leaf: &Vec<bool>,
    children: &Vec<Vec<usize>>,
    keys: &Vec<Vec<u8>>,
    values: &Vec<Vec<Vec<u8>>>,
) -> (r: Result<(Vec<Vec<ValueInfo>>, Vec<u64>), TreeFormatError>)
    requires
        children@.len() == leaf@.len(),
        keys@.len() == leaf@.len(),
        values@.len() == leaf@.len(),
    ensures
        r is Ok <==> forall|i: int|
            0 <= i < leaf@.len() ==> #[trigger] node_fits(
                leaf@[i],
                views(keys@)[i],
                child_views(children@)[i].len() as int,
                value_views(values@)[i],
            ),
        r matches Err(e) ==> layout_error(e, leaf@, child_views(children@), views(keys@), value_views(values@)),
        r matches Ok((infos, sizes)) ==> {
            &&& infos@.len() == leaf@.len()
            &&& sizes@.len() == leaf@.len()
            &&& forall|i: int|
                0 <= i < leaf@.len() ==> #[trigger] sizes@[i] == node_size(
                    leaf@[i],
                    views(keys@)[i],
                    value_views(values@)[i].len() as int,
                )
            &&& forall|i: int|
                0 <= i < leaf@.len() && #[trigger] leaf@[i] ==> {
                    &&& infos@[i]@.len() == value_views(values@)[i].len()
                    &&& forall|j: int|
                        0 <= j < infos@[i]@.len() ==> #[trigger] plan_holds(infos@[i]@, value_views(values@)[i], j)
                }
        },
{
    let ghost lf = leaf@;
    let ghost cv = child_views(children@);
    let ghost kv = views(keys@);
    let ghost vv = value_views(values@);
    let n = leaf.len();
    let mut infos: Vec<Vec<ValueInfo>> = Vec::new();
    let mut sizes: Vec<u64> = Vec::new();
    let mut i: usize = 0;
    while i < n
        invariant
            n == leaf@.len(),
            children@.len() == n,
            keys@.len() == n,
            values@.len() == n,
            lf == leaf@,
            cv == child_views(children@),
            kv == views(keys@),
            vv == value_views(values@),
            i <= n,
            infos@.len() == i,
            sizes@.len() == i,
            forall|k: int| 0 <= k < i ==> #[trigger] node_fits(lf[k], kv[k], cv[k].len() as int, vv[k]),
            forall|k: int| 0 <= k < i ==> #[trigger] sizes@[k] == node_size(lf[k], kv[k], vv[k].len() as int),
            forall|k: int|
                0 <= k < i && #[trigger] lf[k] ==> {
                    &&& infos@[k]@.len() == vv[k].len()
                    &&& forall|j: int| 0 <= j < infos@[k]@.len() ==> #[trigger] plan_holds(infos@[k]@, vv[k], j)
                },
        decreases n - i,
    {
        proof {
            assert(kv[i as int] == keys@[i as int]@);
            assert(vv[i as int] == views(values@[i as int]@));
            assert(cv[i as int] == children@[i as int]@);
        }
        if leaf[i] {
            let vals = &values[i];
            if keys[i].len() > 4294967295usize || vals.len() > 286331153usize {
                proof {
                    assert(leaf_too_long(kv[i as int], vv[i as int]));
                    assert(!node_fits(lf[i as int], kv[i as int], cv[i as int].len() as int, vv[i as int]));
                }
                return Err(TreeFormatError::LengthOverflow);
            }
            let mut j: usize = 0;
            while j < vals.len()
                invariant
                    j <= vals@.len(),
                    forall|m: int|
                        0 <= m < j ==> (#[trigger] vals@[m])@.len() * COMPRESSION_THRESHOLD_PERCENT <= usize::MAX,
                decreases vals@.len() - j,
            {
                if vals[j].len() > usize::MAX / COMPRESSION_THRESHOLD_PERCENT {
                    proof {
                        let vs = vv[i as int];
                        assert(vs[j as int] == vals@[j as int]@);
                        assert(vs[j as int].len() * COMPRESSION_THRESHOLD_PERCENT > usize::MAX);
                        assert(leaf_too_long(kv[i as int], vs));
                        assert(!node_fits(lf[i as int], kv[i as int], cv[i as int].len() as int, vv[i as int]));
                    }
                    return Err(TreeFormatError::LengthOverflow);
                }
                j = j + 1;
            }
            let plan = match plan_leaf_values(vals.as_slice()) {
                Ok(p) => p,
                Err(e) => {
                    proof {
                        let vs = vv[i as int];
                        assert(vs == views(vals@));
                        let m = choose|m: int| 0 <= m < vals@.len() && !((#[trigger] planned(views(vals@), m)).1 <= u32::MAX);
                        assert(planned(vs, m).1 > u32::MAX);
                        assert(leaf_too_long(kv[i as int], vs));
                        assert(!node_fits(lf[i as int], kv[i as int], cv[i as int].len() as int, vv[i as int]));
                    }
                    return Err(e);
                },
            };
            let size = node_block_size(keys[i].len(), INFO_WIDTH * vals.len());
            proof {
                let vs = vv[i as int];
                assert(vs == views(vals@));
                assert(!leaf_too_long(kv[i as int], vs)) by {
                    assert forall|m: int| 0 <= m < vs.len() implies !((#[trigger] vs[m]).len()
                        * COMPRESSION_THRESHOLD_PERCENT > usize::MAX) by {
                        assert(vs[m] == vals@[m]@);
                    }
                    assert forall|m: int| 0 <= m < vs.len() implies !((#[trigger] planned(vs, m)).1 > u32::MAX) by {
                        assert(planned(views(vals@), m).1 <= u32::MAX);
                    }
                }
            }
            infos.push(plan);
            sizes.push(size);
        } else {
            if keys[i].len() > 4087 || children[i].len() > (4087 - keys[i].len()) / 8 {
                proof {
                    let k = keys@[i as int]@.len();
                    let c = children@[i as int]@.len();
                    assert(9 + k + 8 * c > BLOCK_SIZE) by (nonlinear_arith)
                        requires
                            k > 4087 || c > (4087 - k) / 8,
                            c >= 0,
                    ;
                    assert(inner_too_big(kv[i as int], cv[i as int].len() as int));
                    assert(!node_fits(lf[i as int], kv[i as int], cv[i as int].len() as int, vv[i as int]));
                }
                return Err(TreeFormatError::InternalNodeOverflow);
            }
            proof {
                let k = keys@[i as int]@.len();
                let c = children@[i as int]@.len();
                assert(9 + k + 8 * c <= BLOCK_SIZE) by (nonlinear_arith)
                    requires
                        k <= 4087,
                        c <= (4087 - k) / 8,
                        c >= 0,
                ;
            }
            infos.push(Vec::new());
            sizes.push(4096u64);
        }
        i = i + 1;
    }
    Ok((infos, sizes))
}


/// The block of node `k` stands in `img` at its offset.
spec fn node_stands(
    img: Seq<u8>,
    lf: Seq<bool>,
    cv: Seq<Seq<usize>>,
    kv: Seq<Seq<u8>>,
    vv: Seq<Seq<Seq<u8>>>,
    infos: Seq<Vec<ValueInfo>>,
    offs: Seq<u64>,
    k: int,
) -> bool {
    let pb = node_payload(lf[k], infos[k]@, cv[k], offs);
    let b = node_block_bytes(lf[k], kv[k], pb);
    &&& kv[k].len() <= u32::MAX
    &&& pb.len() <= u32::MAX
    &&& b.len() == node_size(lf[k], kv[k], vv[k].len() as int)
    &&& block_at(img, offs[k] as int, b)
}

/// The blocks of the first `i` nodes stand in `img` at their offsets.
spec fn nodes_stand(
    img: Seq<u8>,
    lf: Seq<bool>,
    cv: Seq<Seq<usize>>,
    kv: Seq<Seq<u8>>,
    vv: Seq<Seq<Seq<u8>>>,
    infos: Seq<Vec<ValueInfo>>,
    offs: Seq<u64>,
    i: int,
) -> bool {
    forall|k: int| 0 <= k < i ==> #[trigger] node_stands(img, lf, cv, kv, vv, infos, offs, k)
}

/// Appending the block of node `i` where the nodes before it end makes it
/// stand too.
proof fn lemma_node_appended(
    before: Seq<u8>,
    block: Seq<u8>,
    lf: Seq<bool>,
    cv: Seq<Seq<usize>>,
    kv: Seq<Seq<u8>>,
    vv: Seq<Seq<Seq<u8>>>,
    infos: Seq<Vec<ValueInfo>>,
    offs: Seq<u64>,
    i: int,
)
    requires
        0 <= i < offs.len(),
        nodes_stand(before, lf, cv, kv, vv, infos, offs, i),
        forall|k: int| 0 <= k < offs.len() ==> #[trigger] offs[k] == node_start(lf, kv, vv, k),
        before.len() == node_start(lf, kv, vv, i),
        kv[i].len() <= u32::MAX,
        node_payload(lf[i], infos[i]@, cv[i], offs).len() <= u32::MAX,
        block == node_block_bytes(lf[i], kv[i], node_payload(lf[i], infos[i]@, cv[i], offs)),
        block.len() == node_size(lf[i], kv[i], vv[i].len() as int),
    ensures
        nodes_stand(before + block, lf, cv, kv, vv, infos, offs, i + 1),
{
    let img = before + block;
    assert(img.subrange(before.len() as int, (before.len() + block.len()) as int) =~= block);
    assert forall|k: int| 0 <= k < i + 1 implies #[trigger] node_stands(img, lf, cv, kv, vv, infos, offs, k) by {
        if k < i {
            let b = node_block_bytes(lf[k], kv[k], node_payload(lf[k], infos[k]@, cv[k], offs));
            lemma_node_start_grows(lf, kv, vv, k + 1, i);
            assert(node_stands(before, lf, cv, kv, vv, infos, offs, k));
            lemma_prefix_keeps(before, block, offs[k] as int, offs[k] + b.len());
        } else {
            lemma_node_start_grows(lf, kv, vv, 0, i);
        }
    }
}

/// Node blocks that stand keep standing when bytes are appended.
proof fn lemma_nodes_kept(
    img: Seq<u8>,
    more: Seq<u8>,
    lf: Seq<bool>,
    cv: Seq<Seq<usize>>,
    kv: Seq<Seq<u8>>,
    vv: Seq<Seq<Seq<u8>>>,
    infos: Seq<Vec<ValueInfo>>,
    offs: Seq<u64>,
    i: int,
)
    requires
        nodes_stand(img, lf, cv, kv, vv, infos, offs, i),
    ensures
        nodes_stand(img + more, lf, cv, kv, vv, infos, offs, i),
{
    assert forall|k: int| 0 <= k < i implies #[trigger] node_stands(img + more, lf, cv, kv, vv, infos, offs, k) by {
        let b = node_block_bytes(lf[k], kv[k], node_payload(lf[k], infos[k]@, cv[k], offs));
        assert(node_stands(img, lf, cv, kv, vv, infos, offs, k));
        lemma_prefix_keeps(img, more, offs[k] as int, offs[k] + b.len());
    }
}

/// The values of the leaves among the first `i` nodes read back from `img`.
spec fn values_stand(img: Seq<u8>, lf: Seq<bool>, vv: Seq<Seq<Seq<u8>>>, infos: Seq<Vec<ValueInfo>>, i: int) -> bool {
    forall|k: int|
        0 <= k < i && #[trigger] lf[k] ==> forall|j: int|
            0 <= j < vv[k].len() && (#[trigger] vv[k][j]).len() <= u32::MAX ==> value_reads_back(
                img,
                infos[k]@[j],
                vv[k][j],
            )
}

/// Values that read back keep doing so when bytes are appended, and the
/// values of leaf `i` just appended join them.
proof fn lemma_values_appended(
    img: Seq<u8>,
    more: Seq<u8>,
    lf: Seq<bool>,
    vv: Seq<Seq<Seq<u8>>>,
    infos: Seq<Vec<ValueInfo>>,
    i: int,
)
    requires
        0 <= i,
        values_stand(img, lf, vv, infos, i),
        lf[i] ==> forall|j: int|
            0 <= j < vv[i].len() && (#[trigger] vv[i][j]).len() <= u32::MAX ==> value_reads_back(
                img + more,
                infos[i]@[j],
                vv[i][j],
            ),
    ensures
        values_stand(img + more, lf, vv, infos, i + 1),
{
    assert forall|k: int| 0 <= k < i + 1 && #[trigger] lf[k] implies forall|j: int|
        0 <= j < vv[k].len() && (#[trigger] vv[k][j]).len() <= u32::MAX ==> value_reads_back(
            img + more,
            infos[k]@[j],
            vv[k][j],
        ) by {
        if k < i {
            assert forall|j: int| 0 <= j < vv[k].len() && (#[trigger] vv[k][j]).len() <= u32::MAX implies value_reads_back(
                img + more,
                infos[k]@[j],
                vv[k][j],
            ) by {
                lemma_value_kept(img, more, infos[k]@[j], vv[k][j]);
            }
        }
    }
}

/// The stored bytes of the values of the leaves among the first `i` nodes
/// stand where their placed infos point, the leaves' values placed from `ne`.
spec fn values_stored(img: Seq<u8>, lf: Seq<bool>, vv: Seq<Seq<Seq<u8>>>, ne: int, i: int) -> bool {
    forall|k: int, j: int|
        0 <= k < i && lf[k] && 0 <= j < vv[k].len() ==> #[trigger] value_stored(
            img,
            placed_infos(vv[k], values_end(lf, vv, k, ne)),
            vv[k],
            j,
        )
}

/// Stored bytes stay when more bytes are appended.
proof fn lemma_stored_kept(img: Seq<u8>, more: Seq<u8>, infos: Seq<ValueInfo>, vals: Seq<Seq<u8>>, j: int)
    requires
        0 <= j < infos.len(),
        value_stored(img, infos, vals, j),
    ensures
        value_stored(img + more, infos, vals, j),
{
    match infos[j].mode {
        crate::tree_format::ValueStorageMode::Single(o) => {
            lemma_prefix_keeps(img, more, o as int, o + crate::tree_format::value_record_bytes(vals[j]).len());
        },
        crate::tree_format::ValueStorageMode::Packed(o, _) => {
            lemma_prefix_keeps(img, more, o as int, o + BLOCK_SIZE);
        },
    }
}

/// The stored values of earlier leaves stay when bytes are appended, and
/// those of leaf `i` just appended join them.
proof fn lemma_stored_appended(
    img: Seq<u8>,
    more: Seq<u8>,
    lf: Seq<bool>,
    vv: Seq<Seq<Seq<u8>>>,
    ne: int,
    i: int,
)
    requires
        0 <= i,
        values_stored(img, lf, vv, ne, i),
        lf[i] ==> forall|j: int|
            0 <= j < vv[i].len() ==> #[trigger] value_stored(
                img + more,
                placed_infos(vv[i], values_end(lf, vv, i, ne)),
                vv[i],
                j,
            ),
    ensures
        values_stored(img + more, lf, vv, ne, i + 1),
{
    assert forall|k: int, j: int| 0 <= k < i + 1 && lf[k] && 0 <= j < vv[k].len() implies #[trigger] value_stored(
        img + more,
        placed_infos(vv[k], values_end(lf, vv, k, ne)),
        vv[k],
        j,
    ) by {
        if k < i {
            lemma_stored_kept(img, more, placed_infos(vv[k], values_end(lf, vv, k, ne)), vv[k], j);
        }
    }
}

/// Info records depend on the infos' modes and lengths alone.
proof fn lemma_info_records_same(a: Seq<ValueInfo>, b: Seq<ValueInfo>)
    requires
        a.len() == b.len(),
        forall|k: int| 0 <= k < a.len() ==> (#[trigger] a[k]).mode == b[k].mode && a[k].length == b[k].length,
    ensures
        info_records(a) == info_records(b),
    decreases a.len(),
{
    if a.len() > 0 {
        lemma_info_records_same(a.drop_last(), b.drop_last());
        assert(a.last().mode == b.last().mode && a.last().length == b.last().length);
    }
}

/// The block of one node: a leaf with the records of its placed value
/// infos, an inner node with the offsets of its children.
fn node_block(is_leaf: bool, keys: &Vec<u8>, infos: &Vec<ValueInfo>, children: &Vec<usize>, offsets: &Vec<u64>) -> (b: Vec<u8>)
    requires
        is_leaf ==> keys@.len() <= u32::MAX && INFO_WIDTH * infos@.len() <= u32::MAX && 9 + keys@.len() + INFO_WIDTH
            * infos@.len() + 4095 <= usize::MAX,
        !is_leaf ==> 9 + keys@.len() + 8 * children@.len() <= BLOCK_SIZE,
        forall|j: int| 0 <= j < children@.len() ==> (#[trigger] children@[j]) < offsets@.len(),
    ensures
        b@ == node_block_bytes(is_leaf, keys@, node_payload(is_leaf, infos@, children@, offsets@)),
        keys@.len() <= u32::MAX,
        node_payload(is_leaf, infos@, children@, offsets@).len() <= u32::MAX,
        b@.len() == if is_leaf {
            blocks_for(9 + keys@.len() + INFO_WIDTH * infos@.len())
        } else {
            BLOCK_SIZE as int
        },
{
    if is_leaf {
        let ie = encode_value_infos(infos.as_slice());
        proof {
            lemma_block_len(true, keys@, ie@);
        }
        match encode_leaf_block(keys.as_slice(), ie.as_slice()) {
            Ok(b) => b,
            Err(_) => Vec::new(),
        }
    } else {
        let mut pointers: Vec<u64> = Vec::new();
        let mut j: usize = 0;
        while j < children.len()
            invariant
                j <= children@.len(),
                forall|m: int| 0 <= m < children@.len() ==> (#[trigger] children@[m]) < offsets@.len(),
                pointers@ == children@.take(j as int).map_values(|c: usize| offsets@[c as int]),
            decreases children@.len() - j,
        {
            let c = children[j];
            pointers.push(offsets[c]);
            j = j + 1;
            proof {
                assert(pointers@ =~= children@.take(j as int).map_values(|c: usize| offsets@[c as int]));
            }
        }
        proof {
            assert(children@.take(j as int) =~= children@);
        }
        let pe = encode_child_offsets(pointers.as_slice());
        proof {
            lemma_block_len(false, keys@, pe@);
        }
        match encode_internal_block(keys.as_slice(), pe.as_slice()) {
            Ok(b) => b,
            Err(_) => Vec::new(),
        }
    }
}

/// The bytes of the file that stores a tree whose nodes, in breadth-first
/// order, have the flags `leaf`, the positions of their children
/// `children`, the encoded keys `keys` and the encoded values `values`, and
/// the offset after its last value. The root is the first node, right after
/// the header block; the nodes follow one after the other, each sized for
/// its keys and its value infos (a leaf) or in one block (an inner node);
/// the values of the leaves follow, placed leaf by leaf. Fails on the first
/// node that cannot be laid out, or where the image passes the range of
/// offsets.
pub fn lay_out_image(
    leaf: &Vec<bool>,
    children: &Vec<Vec<usize>>,
    keys: &Vec<Vec<u8>>,
    values: &Vec<Vec<Vec<u8>>>,
) -> (r: Result<(Vec<u8>, u64), TreeFormatError>)
    requires
        children@.len() == leaf@.len(),
        keys@.len() == leaf@.len(),
        values@.len() == leaf@.len(),
        forall|i: int, j: int|
            0 <= i < children@.len() && 0 <= j < children@[i]@.len() ==> (#[trigger] children@[i]@[j])
                < leaf@.len(),
    ensures
        r is Ok <==> layout_fits(leaf@, child_views(children@), views(keys@), value_views(values@)),
        r matches Ok((img, end)) ==> laid_out(
            img@,
            end as int,
            leaf@,
            child_views(children@),
            views(keys@),
            value_views(values@),
        ),
        r matches Err(e) ==> layout_error(e, leaf@, child_views(children@), views(keys@), value_views(values@)),
{
    let ghost lf = leaf@;
    let ghost cv = child_views(children@);
    let ghost kv = views(keys@);
    let ghost vv = value_views(values@);
    let n = leaf.len();
    let (mut infos, sizes) = match plan_nodes(leaf, children, keys, values) {
        Ok(p) => p,
        Err(e) => return Err(e),
    };
    // the offsets of the nodes
    let mut offsets: Vec<u64> = Vec::new();
    let mut total: u64 = HEADER_SIZE;
    let mut i: usize = 0;
    while i < n
        invariant
            n == lf.len(),
            lf == leaf@,
            kv == views(keys@),
            cv == child_views(children@),
            vv == value_views(values@),
            sizes@.len() == n,
            i <= n,
            forall|k: int| 0 <= k < n ==> #[trigger] sizes@[k] == node_size(lf[k], kv[k], vv[k].len() as int),
            forall|k: int| 0 <= k < n ==> #[trigger] node_fits(lf[k], kv[k], cv[k].len() as int, vv[k]),
            total == node_start(lf, kv, vv, i as int),
            offsets@.len() == i,
            forall|k: int| 0 <= k < i ==> #[trigger] offsets@[k] == node_start(lf, kv, vv, k),
        decreases n - i,
    {
        proof {
            assert(node_start(lf, kv, vv, i + 1) == node_start(lf, kv, vv, i as int) + sizes@[i as int]);
        }
        if total > u64::MAX - sizes[i] {
            proof {
                lemma_node_start_grows(lf, kv, vv, i + 1, n as int);
                lemma_values_end_grows(lf, vv, 0, n as int, node_start(lf, kv, vv, n as int));
            }
            return Err(TreeFormatError::OffsetOverflow);
        }
        offsets.push(total);
        total = total + sizes[i];
        i = i + 1;
    }
    let node_end = total;
    // the places of the values
    let mut cur: u64 = node_end;
    let mut i: usize = 0;
    while i < n
        invariant
            n == lf.len(),
            lf == leaf@,
            kv == views(keys@),
            cv == child_views(children@),
            vv == value_views(values@),
            values@.len() == n,
            i <= n,
            infos@.len() == n,
            node_end == node_start(lf, kv, vv, n as int),
            forall|k: int| 0 <= k < n ==> #[trigger] node_fits(lf[k], kv[k], cv[k].len() as int, vv[k]),
            cur == values_end(lf, vv, i as int, node_end as int),
            forall|k: int|
                0 <= k < i && #[trigger] lf[k] ==> leaf_placed(
                    infos@[k]@,
                    vv[k],
                    values_end(lf, vv, k, node_end as int),
                ),
            forall|k: int|
                i <= k < n && #[trigger] lf[k] ==> {
                    &&& infos@[k]@.len() == vv[k].len()
                    &&& forall|j: int| 0 <= j < infos@[k]@.len() ==> #[trigger] plan_holds(infos@[k]@, vv[k], j)
                },
        decreases n - i,
    {
        if leaf[i] {
            proof {
                lemma_plan_items(infos@[i as int]@, vv[i as int]);
            }
            match placed_end(infos[i].as_slice(), cur) {
                Some(_) => {},
                None => {
                    proof {
                        lemma_values_end_grows(lf, vv, i + 1, n as int, node_end as int);
                    }
                    return Err(TreeFormatError::OffsetOverflow);
                },
            }
            let ghost before = infos@;
            let next = place_leaf_values(&mut infos[i], cur);
            proof {
                let vs = vv[i as int];
                let old_i = before[i as int]@;
                let new_i = infos@[i as int]@;
                assert(info_items(old_i) == plan_items(vs));
                assert(new_i.len() == vs.len());
                assert forall|k: int| 0 <= k < vs.len() implies {
                    let c = crate::tree_format::compression_choice(vs[k]);
                    &&& (#[trigger] new_i[k]).mode == crate::tree_format::placed_mode(plan_items(vs), cur as int, k)
                    &&& new_i[k].length == planned(vs, k).1
                    &&& new_i[k].compressed_cache is Some <==> (vs[k].len() > crate::tree_format::SMALL_VALUE_THRESHOLD
                        && c.0 == crate::tree_format::COMPRESSION_FLAG_LZ4)
                    &&& new_i[k].compressed_cache matches Some((f, payload)) ==> f == c.0 && payload@ == c.1 && (
                    vs[k].len() <= u32::MAX ==> crate::tree_format::lz4_decompressed(payload@) == Some(vs[k]))
                } by {
                    assert(plan_holds(old_i, vs, k));
                    assert(new_i[k].compressed_cache == old_i[k].compressed_cache);
                    assert(new_i[k].length == old_i[k].length);
                }
                assert(leaf_placed(new_i, vs, cur as int));
                assert forall|k: int| 0 <= k < n && k != i implies #[trigger] infos@[k] == before[k] by {}
            }
            cur = next;
        }
        i = i + 1;
    }
    if cur > (usize::MAX as u64) - 4096 {
        return Err(TreeFormatError::OffsetOverflow);
    }
    proof {
        lemma_values_end_grows(lf, vv, 0, n as int, node_end as int);
        assert(layout_fits(lf, cv, kv, vv));
    }
    // the header, then the nodes
    let mut img = encode_file_header(HEADER_SIZE);
    proof {
        assert(img@.subrange(0, HEADER_SIZE as int) =~= file_header_bytes(HEADER_SIZE));
        }
    let mut i: usize = 0;
    while i < n
        invariant
            n == lf.len(),
            lf == leaf@,
            kv == views(keys@),
            cv == child_views(children@),
            vv == value_views(values@),
            children@.len() == n,
            keys@.len() == n,
            values@.len() == n,
            forall|a: int, b: int|
                0 <= a < children@.len() && 0 <= b < children@[a]@.len() ==> (#[trigger] children@[a]@[b]) < n,
            i <= n,
            infos@.len() == n,
            offsets@.len() == n,
            forall|k: int| 0 <= k < n ==> #[trigger] offsets@[k] == node_start(lf, kv, vv, k),
            forall|k: int| 0 <= k < n ==> #[trigger] node_fits(lf[k], kv[k], cv[k].len() as int, vv[k]),
            forall|k: int|
                0 <= k < n && #[trigger] lf[k] ==> leaf_placed(
                    infos@[k]@,
                    vv[k],
                    values_end(lf, vv, k, node_end as int),
                ),
            node_end == node_start(lf, kv, vv, n as int),
            node_end <= image_end(lf, kv, vv),
            image_end(lf, kv, vv) + BLOCK_SIZE <= usize::MAX,
            img@.len() == node_start(lf, kv, vv, i as int),
            img@.subrange(0, HEADER_SIZE as int) == file_header_bytes(HEADER_SIZE),
            nodes_stand(img@, lf, cv, kv, vv, infos@, offsets@, i as int),
        decreases n - i,
    {
        proof {
            lemma_node_start_grows(lf, kv, vv, i + 1, n as int);
            assert(node_start(lf, kv, vv, i + 1) == node_start(lf, kv, vv, i as int) + node_size(
                lf[i as int],
                kv[i as int],
                vv[i as int].len() as int,
            ));
            assert(kv[i as int] == keys@[i as int]@);
            assert(cv[i as int] == children@[i as int]@);
            assert(node_fits(lf[i as int], kv[i as int], cv[i as int].len() as int, vv[i as int]));
            if lf[i as int] {
                assert(infos@[i as int]@.len() == vv[i as int].len());
                let m: int = 9 + kv[i as int].len() + INFO_WIDTH * vv[i as int].len();
                assert(blocks_for(m) >= m) by (nonlinear_arith)
                    requires
                        m >= 0,
                ;
            }
            assert forall|j: int| 0 <= j < children@[i as int]@.len() implies (#[trigger] children@[i as int]@[j])
                < offsets@.len() by {
                assert(children@[i as int]@[j] < n);
            }
        }
        let block = node_block(leaf[i], &keys[i], &infos[i], &children[i], &offsets);
        let ghost before = img@;
        push_bytes(&mut img, block.as_slice());
        proof {
            lemma_node_appended(before, block@, lf, cv, kv, vv, infos@, offsets@, i as int);
            lemma_node_start_grows(lf, kv, vv, 0, i as int);
            lemma_prefix_keeps(before, block@, 0, HEADER_SIZE as int);
        }
        i = i + 1;
    }
    // then the values, leaf by leaf
    let mut i: usize = 0;
    while i < n
        invariant
            n == lf.len(),
            lf == leaf@,
            kv == views(keys@),
            cv == child_views(children@),
            vv == value_views(values@),
            values@.len() == n,
            i <= n,
            infos@.len() == n,
            offsets@.len() == n,
            forall|k: int| 0 <= k < n ==> #[trigger] node_fits(lf[k], kv[k], cv[k].len() as int, vv[k]),
            forall|k: int|
                0 <= k < n && #[trigger] lf[k] ==> leaf_placed(
                    infos@[k]@,
                    vv[k],
                    values_end(lf, vv, k, node_end as int),
                ),
            node_end == node_start(lf, kv, vv, n as int),
            cur == image_end(lf, kv, vv),
            image_end(lf, kv, vv) + BLOCK_SIZE <= usize::MAX,
            img@.len() == values_end(lf, vv, i as int, node_end as int),
            img@.subrange(0, HEADER_SIZE as int) == file_header_bytes(HEADER_SIZE),
            nodes_stand(img@, lf, cv, kv, vv, infos@, offsets@, n as int),
            values_stand(img@, lf, vv, infos@, i as int),
            values_stored(img@, lf, vv, node_end as int, i as int),
        decreases n - i,
    {
        let ghost before = img@;
        proof {
            lemma_values_end_grows(lf, vv, i + 1, n as int, node_end as int);
            lemma_values_end_grows(lf, vv, 0, i as int, node_end as int);
            lemma_values_end_grows(lf, vv, i as int, i + 1, node_end as int);
            lemma_node_start_grows(lf, kv, vv, 0, n as int);
            assert(vv[i as int] == views(values@[i as int]@));
        }
        if leaf[i] {
            proof {
                assert(node_fits(lf[i as int], kv[i as int], cv[i as int].len() as int, vv[i as int]));
            }
            append_leaf_values(&mut img, infos[i].as_slice(), values[i].as_slice());
        }
        proof {
            let more = img@.subrange(before.len() as int, img@.len() as int);
            assert(img@.len() == values_end(lf, vv, i + 1, node_end as int));
            assert(img@.subrange(0, before.len() as int) == before);
            assert(img@ =~= before + more);
            lemma_nodes_kept(before, more, lf, cv, kv, vv, infos@, offsets@, n as int);
            lemma_prefix_keeps(before, more, 0, HEADER_SIZE as int);
            if lf[i as int] {
                assert forall|j: int|
                    0 <= j < vv[i as int].len() && (#[trigger] vv[i as int][j]).len() <= u32::MAX implies value_reads_back(
                    before + more,
                    infos@[i as int]@[j],
                    vv[i as int][j],
                ) by {
                    assert(vv[i as int][j] == values@[i as int]@[j]@);
                }
            }
            lemma_values_appended(before, more, lf, vv, infos@, i as int);
            if lf[i as int] {
                assert forall|j: int| 0 <= j < vv[i as int].len() implies #[trigger] value_stored(
                    before + more,
                    placed_infos(vv[i as int], values_end(lf, vv, i as int, node_end as int)),
                    vv[i as int],
                    j,
                ) by {
                    assert(vv[i as int] == views(values@[i as int]@));
                }
            }
            lemma_stored_appended(before, more, lf, vv, node_end as int, i as int);
        }
        i = i + 1;
    }
    proof {
        let h = file_header_bytes(HEADER_SIZE);
        let rest = img@.subrange(HEADER_SIZE as int, img@.len() as int);
        lemma_node_start_grows(lf, kv, vv, 0, n as int);
        lemma_values_end_grows(lf, vv, 0, n as int, node_end as int);
        assert(img@ =~= h + rest);
        lemma_header_prefix(h, rest);
        lemma_file_header_roundtrip(HEADER_SIZE);
        assert(offsets@ =~= node_offsets(lf, kv, vv));
        lemma_nodes_read_back(img@, offsets@, lf, cv, kv, vv, infos@);
        assert forall|a: int, b: int| 0 <= a < b < n implies offsets@[a] < offsets@[b] by {
            lemma_node_start_grows(lf, kv, vv, a, b);
        }
        assert(image_nodes(img@, node_offsets(lf, kv, vv), lf, cv, kv, vv));
        assert forall|k: int| 0 <= k < n implies #[trigger] block_at(
            img@,
            node_start(lf, kv, vv, k),
            node_block_bytes(lf[k], kv[k], image_payload(lf, cv, kv, vv, k)),
        ) by {
            assert(node_stands(img@, lf, cv, kv, vv, infos@, offsets@, k));
            if lf[k] {
                let pi = placed_infos(vv[k], leaf_start(lf, kv, vv, k));
                assert(leaf_placed(infos@[k]@, vv[k], values_end(lf, vv, k, node_end as int)));
                assert forall|m: int| 0 <= m < pi.len() implies (#[trigger] pi[m]).mode == infos@[k]@[m].mode
                    && pi[m].length == infos@[k]@[m].length by {}
                lemma_info_records_same(pi, infos@[k]@);
            }
        }
        assert(image_bytes_placed(img@, lf, cv, kv, vv));
    }
    Ok((img, cur))
}



/// The flags of nodes.
pub open spec fn node_flags<K, V>(nodes: Seq<BPlusTreeNode<K, V>>) -> Seq<bool> {
    nodes.map_values(|n: BPlusTreeNode<K, V>| n.leaf_flag())
}

/// The position of the first child of node `i` in a breadth-first list:
/// the children of the nodes are numbered one after the other from 1 on.
pub open spec fn first_child_at<K, V>(nodes: Seq<BPlusTreeNode<K, V>>, i: int) -> int
    decreases i,
{
    if i <= 0 {
        1
    } else {
        first_child_at(nodes, i - 1) + queued_children(nodes[i - 1]).len()
    }
}

/// The positions of the children of each node in a breadth-first list.
pub open spec fn bfs_children<K, V>(nodes: Seq<BPlusTreeNode<K, V>>) -> Seq<Seq<usize>> {
    Seq::new(
        nodes.len(),
        |i: int| Seq::new(queued_children(nodes[i]).len(), |j: int| (first_child_at(nodes, i) + j) as usize),
    )
}

/// The keys of node `n` were handed to `fk`, as a slice, and `fk` gave back
/// the bytes `b`.
pub open spec fn keys_encoded_as<K, V, FK: Fn(&[K]) -> Option<Vec<u8>>>(
    fk: FK,
    n: BPlusTreeNode<K, V>,
    b: Seq<u8>,
) -> bool {
    exists|s: &[K], out: Vec<u8>| s@ == n.node_keys() && out@ == b && #[trigger] call_ensures(fk, (s,), Some(out))
}

/// The value `v` was handed to `fv`, which gave back the bytes `b`.
pub open spec fn value_encoded_as<V, FV: Fn(&V) -> Option<Vec<u8>>>(fv: FV, v: V, b: Seq<u8>) -> bool {
    exists|r: &V, out: Vec<u8>| *r == v && out@ == b && #[trigger] call_ensures(fv, (r,), Some(out))
}

/// `ks` and `vs` are what `fk` and `fv` gave back for the keys of each node
/// and for each value of each leaf of `nodes`.
pub open spec fn encoded_by<K, V, FK: Fn(&[K]) -> Option<Vec<u8>>, FV: Fn(&V) -> Option<Vec<u8>>>(
    fk: FK,
    fv: FV,
    nodes: Seq<BPlusTreeNode<K, V>>,
    ks: Seq<Seq<u8>>,
    vs: Seq<Seq<Seq<u8>>>,
) -> bool {
    &&& ks.len() == nodes.len()
    &&& vs.len() == nodes.len()
    &&& forall|i: int| 0 <= i < nodes.len() ==> #[trigger] keys_encoded_as(fk, nodes[i], ks[i])
    &&& forall|i: int| 0 <= i < nodes.len() ==> (#[trigger] vs[i]).len() == nodes[i].leaf_values().len()
    &&& forall|i: int, j: int|
        0 <= i < nodes.len() && 0 <= j < vs[i].len() ==> #[trigger] value_encoded_as(
            fv,
            nodes[i].leaf_values()[j],
            vs[i][j],
        )
}

/// `fk` gave back `None` for the keys of a node, or `fv` for a value of a
/// leaf.
pub open spec fn encoding_failed<K, V, FK: Fn(&[K]) -> Option<Vec<u8>>, FV: Fn(&V) -> Option<Vec<u8>>>(
    fk: FK,
    fv: FV,
    nodes: Seq<BPlusTreeNode<K, V>>,
) -> bool {
    ||| exists|i: int, s: &[K]|
        #![trigger call_ensures(fk, (s,), None), nodes[i]]
        0 <= i < nodes.len() && s@ == nodes[i].node_keys() && call_ensures(fk, (s,), None)
    ||| exists|i: int, j: int, r: &V|
        #![trigger call_ensures(fv, (r,), None), nodes[i].leaf_values()[j]]
        0 <= i < nodes.len() && 0 <= j < nodes[i].leaf_values().len() && *r == nodes[i].leaf_values()[j]
            && call_ensures(fv, (r,), None)
}

/// The positions of the children that the breadth-first walk gives are
/// those `first_child_at` counts.
proof fn lemma_first_child<'a, K, V>(es: Seq<NodeEntry<'a, K, V>>, nodes: Seq<BPlusTreeNode<K, V>>, i: int)
    requires
        es.len() == nodes.len(),
        0 <= i <= es.len(),
        forall|k: int| 0 <= k < es.len() ==> (#[trigger] es[k]).children@.len() == queued_children(nodes[k]).len(),
    ensures
        crate::bplustree::first_child_pos(es, i) == first_child_at(nodes, i),
    decreases i,
{
    if i > 0 {
        lemma_first_child(es, nodes, i - 1);
        assert(es[i - 1].children@.len() == queued_children(nodes[i - 1]).len());
    }
}

impl<K: TreeKey, V> BPlusTree<K, V> {
    /// The bytes of the file that stores the tree, and the offset after its
    /// last value: the keys of each node, in breadth-first order, go through
    /// the serializer `encode_keys`, and the values of each leaf, in order,
    /// through `encode_value`; the encoded tree is laid out by
    /// `lay_out_image`. Fails with `Serialization` where the serializer gives
    /// back `None`, else as the layout does.
    pub fn store_image<FK, FV>(&self, encode_keys: FK, encode_value: FV) -> (r: Result<(Vec<u8>, u64), TreeFormatError>)
        where
            FK: Fn(&[K]) -> Option<Vec<u8>>,
            FV: Fn(&V) -> Option<Vec<u8>>,
        requires
            forall|s: &[K]| #[trigger] encode_keys.requires((s,)),
            forall|v: &V| #[trigger] encode_value.requires((v,)),
        ensures
            r matches Ok((img, end)) ==> exists|ks: Seq<Seq<u8>>, vs: Seq<Seq<Seq<u8>>>|
                {
                    &&& #[trigger] encoded_by(encode_keys, encode_value, self.bfs_nodes(), ks, vs)
                    &&& laid_out(img@, end as int, node_flags(self.bfs_nodes()), bfs_children(self.bfs_nodes()), ks, vs)
                },
            r matches Err(e) ==> {
                ||| e is Serialization && encoding_failed(encode_keys, encode_value, self.bfs_nodes())
                ||| exists|ks: Seq<Seq<u8>>, vs: Seq<Seq<Seq<u8>>>|
                    {
                        &&& #[trigger] encoded_by(encode_keys, encode_value, self.bfs_nodes(), ks, vs)
                        &&& layout_error(e, node_flags(self.bfs_nodes()), bfs_children(self.bfs_nodes()), ks, vs)
                    }
            },
    {
        let nodes = self.nodes_breadth_first();
        let ghost bfs = self.bfs_nodes();
        let n = nodes.len();
        proof {
            lemma_first_child(nodes@, bfs, 0);
        }
        let mut leaf: Vec<bool> = Vec::new();
        let mut children: Vec<Vec<usize>> = Vec::new();
        let mut keys: Vec<Vec<u8>> = Vec::new();
        let mut values: Vec<Vec<Vec<u8>>> = Vec::new();
        let mut i: usize = 0;
        while i < n
            invariant
                n == nodes@.len(),
                bfs == self.bfs_nodes(),
                nodes@.len() == bfs.len(),
                forall|s: &[K]| #[trigger] encode_keys.requires((s,)),
                forall|v: &V| #[trigger] encode_value.requires((v,)),
                forall|k: int| 0 <= k < n ==> crate::bplustree::shows(#[trigger] nodes@[k], bfs[k]),
                forall|k: int|
                    0 <= k < n ==> (#[trigger] nodes@[k]).children@.len() == queued_children(bfs[k]).len(),
                forall|k: int, j: int|
                    0 <= k < n && 0 <= j < nodes@[k].children@.len() ==> #[trigger] nodes@[k].children@[j]
                        == crate::bplustree::first_child_pos(nodes@, k) + j,
                forall|k: int, j: int|
                    0 <= k < n && 0 <= j < nodes@[k].children@.len() ==> (#[trigger] nodes@[k].children@[j])
                        < n,
                i <= n,
                leaf@.len() == i,
                children@.len() == i,
                keys@.len() == i,
                values@.len() == i,
                forall|k: int| 0 <= k < i ==> #[trigger] leaf@[k] == nodes@[k].is_leaf,
                forall|k: int| 0 <= k < i ==> #[trigger] children@[k]@ == nodes@[k].children@,
                forall|k: int| 0 <= k < i ==> #[trigger] keys_encoded_as(encode_keys, bfs[k], keys@[k]@),
                forall|k: int| 0 <= k < i ==> (#[trigger] values@[k])@.len() == bfs[k].leaf_values().len(),
                forall|k: int, j: int|
                    0 <= k < i && 0 <= j < values@[k]@.len() ==> #[trigger] value_encoded_as(
                        encode_value,
                        bfs[k].leaf_values()[j],
                        values@[k]@[j]@,
                    ),
            decreases n - i,
        {
            let node = &nodes[i];
            proof {
                lemma_shows_flag(nodes@[i as int], bfs[i as int]);
            }
            let kr = encode_keys(node.keys);
            let kb = match kr {
                Some(b) => b,
                None => {
                    proof {
                        assert(call_ensures(encode_keys, (node.keys,), None));
                        assert(nodes@[i as int].keys@ == bfs[i as int].node_keys());
                        assert(encoding_failed(encode_keys, encode_value, bfs));
                    }
                    return Err(TreeFormatError::Serialization);
                },
            };
            proof {
                assert(call_ensures(encode_keys, (node.keys,), Some(kb)));
                assert(keys_encoded_as(encode_keys, bfs[i as int], kb@));
            }
            let mut vals: Vec<Vec<u8>> = Vec::new();
            if node.is_leaf {
                proof {
                    assert(node.values@ == bfs[i as int].leaf_values());
                }
                let mut j: usize = 0;
                while j < node.values.len()
                    invariant
                        j <= node.values@.len(),
                        vals@.len() == j,
                        i < n,
                        n == bfs.len(),
                        bfs == self.bfs_nodes(),
                        node.values@ == bfs[i as int].leaf_values(),
                        forall|v: &V| #[trigger] encode_value.requires((v,)),
                        forall|m: int|
                            0 <= m < j ==> #[trigger] value_encoded_as(encode_value, node.values@[m], vals@[m]@),
                    decreases node.values@.len() - j,
                {
                    let vr = encode_value(&node.values[j]);
                    match vr {
                        Some(b) => {
                            proof {
                                assert(call_ensures(encode_value, (&node.values[j as int],), Some(b)));
                                assert(value_encoded_as(encode_value, node.values@[j as int], b@));
                            }
                            vals.push(b);
                            proof {
                                assert forall|m: int| 0 <= m < j + 1 implies #[trigger] value_encoded_as(
                                    encode_value,
                                    node.values@[m],
                                    vals@[m]@,
                                ) by {}
                            }
                        },
                        None => {
                            proof {
                                assert(call_ensures(encode_value, (&node.values[j as int],), None));
                                assert(encoding_failed(encode_keys, encode_value, bfs));
                            }
                            return Err(TreeFormatError::Serialization);
                        },
                    }
                    j = j + 1;
                }
            }
            let mut cs: Vec<usize> = Vec::new();
            let mut j: usize = 0;
            while j < node.children.len()
                invariant
                    j <= node.children@.len(),
                    cs@ == node.children@.take(j as int),
                decreases node.children@.len() - j,
            {
                cs.push(node.children[j]);
                j = j + 1;
                proof {
                    assert(cs@ =~= node.children@.take(j as int));
                }
            }
            proof {
                assert(node.children@.take(j as int) =~= node.children@);
            }
            leaf.push(node.is_leaf);
            children.push(cs);
            keys.push(kb);
            values.push(vals);
            proof {
                assert(keys@[i as int] == kb);
                assert(values@[i as int] == vals);
                if node.is_leaf {
                    assert(node.values@ == bfs[i as int].leaf_values());
                }
            }
            i = i + 1;
        }
        let ghost fl = node_flags(bfs);
        let ghost cs = bfs_children(bfs);
        let ghost ks = views(keys@);
        let ghost vs = value_views(values@);
        proof {
            assert forall|a: int, b: int|
                0 <= a < children@.len() && 0 <= b < children@[a]@.len() implies (#[trigger] children@[a]@[b]) < leaf@.len() by {
                assert(children@[a]@ == nodes@[a].children@);
                assert(nodes@[a].children@[b] < nodes@.len());
            }
            assert forall|k: int| 0 <= k < n implies #[trigger] fl[k] == leaf@[k] by {
                lemma_shows_flag(nodes@[k], bfs[k]);
            }
            assert(fl =~= leaf@);
            assert forall|k: int| 0 <= k < n implies #[trigger] cs[k] == child_views(children@)[k] by {
                lemma_first_child(nodes@, bfs, k);
                assert(children@[k]@ == nodes@[k].children@);
                assert(cs[k] =~= nodes@[k].children@);
            }
            assert(cs =~= child_views(children@));
            assert forall|k: int| 0 <= k < n implies #[trigger] keys_encoded_as(encode_keys, bfs[k], ks[k]) by {
                assert(ks[k] == keys@[k]@);
            }
            assert forall|k: int| 0 <= k < n implies (#[trigger] vs[k]).len() == bfs[k].leaf_values().len() by {
                assert(vs[k] == views(values@[k]@));
            }
            assert forall|k: int, j: int| 0 <= k < n && 0 <= j < vs[k].len() implies #[trigger] value_encoded_as(
                encode_value,
                bfs[k].leaf_values()[j],
                vs[k][j],
            ) by {
                assert(vs[k] == views(values@[k]@));
                assert(vs[k][j] == values@[k]@[j]@);
            }
            assert(encoded_by(encode_keys, encode_value, bfs, ks, vs));
        }
        lay_out_image(&leaf, &children, &keys, &values)
    }
}

} // verus!
