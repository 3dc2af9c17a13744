//! The byte layout of the tree file.
//!
//! ```text
//! block 0:      ["BTRE"][version: u32][root offset: u64][zeros up to 4096]
//! node block:   [is_leaf: u8][keys_len: u32][keys][payload_len: u32][payload][zeros to a 4096 multiple]
//!               (payload: the value infos of a leaf, the child offsets of an inner node)
//! packed block: [count: u32]([len: u32][value bytes])*[zeros up to 4096]
//! single value: [flag: u8][payload]   (flag 1: the payload is LZ4 with the size in front)
//! ```
//!
//! Keys, value infos, child offsets and values travel here as the bytes
//! their serializer produced.
use vstd::prelude::*;
use std::collections::HashMap;
use crate::le::{
    le_u32_at, le_u64_at, u32_bytes, u64_bytes, zeros, lemma_u32_roundtrip, lemma_u64_roundtrip,
    lemma_le_u32_shift, lemma_le_u64_shift, read_u32, read_u64, push_u32, push_u64, push_bytes,
    push_zeros, copy_range,
};

verus! {

/// The version of the tree file format.
pub const STORAGE_VERSION: u32 = 1;

/// The size of the header block, where the first node starts.
pub const HEADER_SIZE: u64 = 4096;

/// Where the root offset stands in the header.
pub const ROOT_OFFSET_POS: u64 = 8;

/// The size of a block of the tree file.
pub const BLOCK_SIZE: usize = 4096;

/// Values at least this long are considered for compression.
pub const COMPRESSION_MIN_SIZE: usize = 64;

/// Compression is kept when the result is under this percentage of the input.
pub const COMPRESSION_THRESHOLD_PERCENT: usize = 85;

/// The flag of a value stored as it is.
pub const COMPRESSION_FLAG_NONE: u8 = 0;

/// The flag of a value stored LZ4-compressed.
pub const COMPRESSION_FLAG_LZ4: u8 = 1;

/// Values up to this long are packed with others in shared blocks.
pub const SMALL_VALUE_THRESHOLD: usize = 256;

/// The count at the start of a packed block.
pub const PACK_BLOCK_HEADER_SIZE: usize = 4;

/// The length in front of each value of a packed block.
pub const PACK_VALUE_HEADER_SIZE: usize = 4;

/// Why bytes are not what the tree file format says.
#[derive(Debug, Clone, Copy, PartialEq, Eq, Structural)]
pub enum TreeFormatError {
    /// The bytes end before the item being read.
    Truncated,
    /// The file does not start with the tree magic.
    BadMagic,
    /// The file has another format version.
    UnsupportedVersion(u32),
    /// A length does not fit its `u32` field.
    LengthOverflow,
    /// The keys and child offsets of an inner node do not fit one block.
    InternalNodeOverflow,
    /// A packed block holds a length that runs past its end.
    PackedBlockCorrupted,
    /// A compressed value does not decompress.
    Decompression,
    /// The serializer could not encode an item.
    Serialization,
    /// An offset in the file passes the range of the machine's integers.
    OffsetOverflow,
}

/// The magic bytes "BTRE".
pub open spec fn tree_magic() -> Seq<u8> {
    seq![66u8, 84u8, 82u8, 69u8]
}

/// The header block of a file whose root node is at `root`.
pub open spec fn file_header_bytes(root: u64) -> Seq<u8> {
    tree_magic() + u32_bytes(STORAGE_VERSION) + u64_bytes(root) + zeros(4080)
}

/// The root offset that the header of `s` gives, or why `s` has no header.
pub open spec fn parse_file_header(s: Seq<u8>) -> Result<u64, TreeFormatError> {
    if s.len() < 16 {
        Err(TreeFormatError::Truncated)
    } else if s.subrange(0, 4) != tree_magic() {
        Err(TreeFormatError::BadMagic)
    } else if le_u32_at(s, 4) != STORAGE_VERSION {
        Err(TreeFormatError::UnsupportedVersion(le_u32_at(s, 4) as u32))
    } else {
        Ok(le_u64_at(s, 8) as u64)
    }
}

/// The header block of a file whose root node is at `root_offset`.
pub fn encode_file_header(root_offset: u64) -> (r: Vec<u8>)
    ensures
        r@ == file_header_bytes(root_offset),
        r@.len() == BLOCK_SIZE,
{
    let mut h: Vec<u8> = Vec::new();
    h.push(66u8);
    h.push(84u8);
    h.push(82u8);
    h.push(69u8);
    push_u32(&mut h, STORAGE_VERSION);
    push_u64(&mut h, root_offset);
    push_zeros(&mut h, 4080);
    proof {
        assert(h@ =~= file_header_bytes(root_offset));
    }
    h
}

/// The root offset that the header in `s` gives.
pub fn decode_file_header(s: &[u8]) -> (r: Result<u64, TreeFormatError>)
    ensures
        r == parse_file_header(s@),
{
    if s.len() < 16 {
        return Err(TreeFormatError::Truncated);
    }
    if !(s[0] == 66u8 && s[1] == 84u8 && s[2] == 82u8 && s[3] == 69u8) {
        proof {
            if s@.subrange(0, 4) =~= tree_magic() {
                assert(s@.subrange(0, 4)[0] == s@[0]);
                assert(s@.subrange(0, 4)[1] == s@[1]);
                assert(s@.subrange(0, 4)[2] == s@[2]);
                assert(s@.subrange(0, 4)[3] == s@[3]);
            }
        }
        return Err(TreeFormatError::BadMagic);
    }
    proof {
        assert(s@.subrange(0, 4) =~= tree_magic());
    }
    let version = read_u32(s, 4);
    if version != STORAGE_VERSION {
        return Err(TreeFormatError::UnsupportedVersion(version));
    }
    Ok(read_u64(s, 8))
}

/// The header written for a root offset reads back as that offset.
pub proof fn lemma_file_header_roundtrip(root: u64)
    ensures
        parse_file_header(file_header_bytes(root)) == Ok::<u64, TreeFormatError>(root),
{
    let f = file_header_bytes(root);
    lemma_u32_roundtrip(STORAGE_VERSION);
    lemma_u64_roundtrip(root);
    assert(f.subrange(0, 4) =~= tree_magic());
    assert(f.subrange(4, 8) =~= u32_bytes(STORAGE_VERSION));
    lemma_le_u32_shift(f, 4, u32_bytes(STORAGE_VERSION));
    assert(f.subrange(8, 16) =~= u64_bytes(root));
    lemma_le_u64_shift(f, 8, u64_bytes(root));
}

/// The size of the whole blocks that hold `n` bytes.
pub open spec fn blocks_for(n: int) -> int {
    ((n + 4095) / 4096) * 4096
}

/// A node without padding: flag, keys with their length, payload with its length.
pub open spec fn node_content(is_leaf: bool, keys: Seq<u8>, payload: Seq<u8>) -> Seq<u8> {
    seq![if is_leaf { 1u8 } else { 0u8 }] + u32_bytes(keys.len() as u32) + keys + u32_bytes(
        payload.len() as u32,
    ) + payload
}

/// A node as it is written: its content filled with zeros to whole blocks.
pub open spec fn node_block_bytes(is_leaf: bool, keys: Seq<u8>, payload: Seq<u8>) -> Seq<u8> {
    let c = node_content(is_leaf, keys, payload);
    c + zeros(blocks_for(c.len() as int) - c.len())
}

/// The flag, keys and payload of the node at the start of `s`, or why there is none.
pub open spec fn parse_node_block(s: Seq<u8>) -> Result<(bool, Seq<u8>, Seq<u8>), TreeFormatError> {
    if s.len() < 5 {
        Err(TreeFormatError::Truncated)
    } else {
        let k = le_u32_at(s, 1);
        if 9 + k > s.len() {
            Err(TreeFormatError::Truncated)
        } else {
            let p = le_u32_at(s, 5 + k);
            if 9 + k + p > s.len() {
                Err(TreeFormatError::Truncated)
            } else {
                Ok((s[0] != 0, s.subrange(5, 5 + k), s.subrange(9 + k, 9 + k + p)))
            }
        }
    }
}

/// How many more bytes of the node block that starts with `s` are needed
/// before it can be read: the flag and the keys' length first, then the keys
/// and the payload's length, then the payload.
pub open spec fn node_read_need(s: Seq<u8>) -> int {
    if s.len() < 5 {
        5 - s.len()
    } else {
        let k = le_u32_at(s, 1);
        if s.len() < 9 + k {
            9 + k - s.len()
        } else {
            let total = 9 + k + le_u32_at(s, 5 + k);
            if s.len() < total {
                total - s.len()
            } else {
                0
            }
        }
    }
}

/// The number of bytes still to read of the node block that starts with
/// `s`; once it is 0 the node can be decoded.
pub fn node_block_more(s: &[u8]) -> (r: u64)
    ensures
        r == node_read_need(s@),
        r == 0 <==> parse_node_block(s@) is Ok,
{
    let n = s.len();
    if n < 5 {
        return (5 - n) as u64;
    }
    let k = read_u32(s, 1) as u64;
    if (n as u64) < 9 + k {
        return 9 + k - n as u64;
    }
    let kk = k as usize;
    let p = read_u32(s, 5 + kk) as u64;
    let total = 9 + k + p;
    if (n as u64) < total {
        total - n as u64
    } else {
        0
    }
}

/// The size, in whole blocks, of a node whose keys and payload take
/// `keys_len` and `payload_len` bytes.
pub fn node_block_size(keys_len: usize, payload_len: usize) -> (r: u64)
    requires
        keys_len + payload_len + 9 + 4095 <= u64::MAX,
    ensures
        r == blocks_for(9 + keys_len + payload_len),
{
    let size: u64 = 9 + keys_len as u64 + payload_len as u64;
    let blocks = (size + 4095) / 4096;
    proof {
        assert(blocks * 4096 <= size + 4095) by (nonlinear_arith)
            requires
                blocks == (size + 4095) / 4096,
        ;
    }
    blocks * 4096
}

/// Fills `b` with zeros up to the next whole block.
fn pad_to_blocks(b: &mut Vec<u8>)
    requires
        old(b)@.len() + 4095 <= usize::MAX,
    ensures
        final(b)@ == old(b)@ + zeros(blocks_for(old(b)@.len() as int) - old(b)@.len()),
        final(b)@.len() == blocks_for(old(b)@.len() as int),
{
    let n = b.len();
    let full = ((n + 4095) / 4096) * 4096;
    proof {
        let q = (n + 4095) / 4096;
        assert(n <= q * 4096 <= n + 4095) by (nonlinear_arith)
            requires
                q == (n + 4095) / 4096,
                n >= 0,
        ;
    }
    push_zeros(b, full - n);
}

/// The block of a leaf whose keys and value infos are encoded as `keys` and
/// `info`; fails when one of them is longer than its `u32` length field.
pub fn encode_leaf_block(keys: &[u8], info: &[u8]) -> (r: Result<Vec<u8>, TreeFormatError>)
    requires
        keys@.len() + info@.len() + 9 + 4095 <= usize::MAX,
    ensures
        r is Ok <==> (keys@.len() <= u32::MAX && info@.len() <= u32::MAX),
        r matches Ok(b) ==> b@ == node_block_bytes(true, keys@, info@),
        r matches Err(e) ==> e == TreeFormatError::LengthOverflow,
{
    if keys.len() > 4294967295usize || info.len() > 4294967295usize {
        return Err(TreeFormatError::LengthOverflow);
    }
    let mut b: Vec<u8> = Vec::new();
    b.push(1u8);
    push_u32(&mut b, keys.len() as u32);
    push_bytes(&mut b, keys);
    push_u32(&mut b, info.len() as u32);
    push_bytes(&mut b, info);
    proof {
        assert(b@ =~= node_content(true, keys@, info@));
    }
    pad_to_blocks(&mut b);
    Ok(b)
}

/// The single block of an inner node whose keys and child offsets are
/// encoded as `keys` and `pointers`; fails when they do not fit one block.
pub fn encode_internal_block(keys: &[u8], pointers: &[u8]) -> (r: Result<Vec<u8>, TreeFormatError>)
    ensures
        r is Ok <==> 9 + keys@.len() + pointers@.len() <= BLOCK_SIZE,
        r matches Ok(b) ==> b@ == node_block_bytes(false, keys@, pointers@) && b@.len() == BLOCK_SIZE,
        r matches Err(e) ==> e == TreeFormatError::InternalNodeOverflow,
{
    if keys.len() > 4087 || pointers.len() > 4087 - keys.len() {
        return Err(TreeFormatError::InternalNodeOverflow);
    }
    let mut b: Vec<u8> = Vec::new();
    b.push(0u8);
    push_u32(&mut b, keys.len() as u32);
    push_bytes(&mut b, keys);
    push_u32(&mut b, pointers.len() as u32);
    push_bytes(&mut b, pointers);
    proof {
        assert(b@ =~= node_content(false, keys@, pointers@));
        assert(blocks_for(b@.len() as int) == 4096);
    }
    pad_to_blocks(&mut b);
    Ok(b)
}

/// The flag, keys and payload of a node read from a block.
pub struct NodeBlock {
    pub is_leaf: bool,
    pub keys: Vec<u8>,
    pub payload: Vec<u8>,
}

/// Reads the node at the start of `s`.
pub fn decode_node_block(s: &[u8]) -> (r: Result<NodeBlock, TreeFormatError>)
    ensures
        match r {
            Ok(n) => parse_node_block(s@) == Ok::<(bool, Seq<u8>, Seq<u8>), TreeFormatError>(
                (n.is_leaf, n.keys@, n.payload@),
            ),
            Err(e) => parse_node_block(s@) == Err::<(bool, Seq<u8>, Seq<u8>), TreeFormatError>(e),
        },
{
    if s.len() < 5 {
        return Err(TreeFormatError::Truncated);
    }
    let k = read_u32(s, 1) as usize;
    if s.len() - 5 < k || s.len() - 5 - k < 4 {
        return Err(TreeFormatError::Truncated);
    }
    let p = read_u32(s, 5 + k) as usize;
    if s.len() - 9 - k < p {
        return Err(TreeFormatError::Truncated);
    }
    let keys = copy_range(s, 5, 5 + k);
    let payload = copy_range(s, 9 + k, 9 + k + p);
    Ok(NodeBlock { is_leaf: s[0] != 0, keys, payload })
}

/// A node block reads back as the flag, keys and payload it was written
/// with, whatever follows it.
pub proof fn lemma_node_block_roundtrip(is_leaf: bool, keys: Seq<u8>, payload: Seq<u8>, suffix: Seq<u8>)
    requires
        keys.len() <= u32::MAX,
        payload.len() <= u32::MAX,
    ensures
        parse_node_block(node_block_bytes(is_leaf, keys, payload) + suffix) == Ok::<
            (bool, Seq<u8>, Seq<u8>),
            TreeFormatError,
        >((is_leaf, keys, payload)),
{
    let s = node_block_bytes(is_leaf, keys, payload) + suffix;
    let k = keys.len() as int;
    lemma_u32_roundtrip(keys.len() as u32);
    lemma_u32_roundtrip(payload.len() as u32);
    let c = node_content(is_leaf, keys, payload);
    assert(blocks_for(c.len() as int) >= c.len()) by (nonlinear_arith)
        requires
            c.len() >= 0,
    ;
    assert(s.subrange(1, 5) =~= u32_bytes(keys.len() as u32));
    lemma_le_u32_shift(s, 1, u32_bytes(keys.len() as u32));
    assert(s.subrange(5 + k, 9 + k) =~= u32_bytes(payload.len() as u32));
    lemma_le_u32_shift(s, 5 + k, u32_bytes(payload.len() as u32));
    assert(s.subrange(5, 5 + k) =~= keys);
    assert(s.subrange(9 + k, 9 + k + payload.len()) =~= payload);
}

/// The values of a packed block after its count, each with its length in front.
pub open spec fn packed_values_bytes(vals: Seq<Seq<u8>>) -> Seq<u8>
    decreases vals.len(),
{
    if vals.len() == 0 {
        Seq::empty()
    } else {
        packed_values_bytes(vals.drop_last()) + u32_bytes(vals.last().len() as u32) + vals.last()
    }
}

/// A packed block holding `vals`, filled with zeros to a whole block.
pub open spec fn packed_block_bytes(vals: Seq<Seq<u8>>) -> Seq<u8> {
    let c = u32_bytes(vals.len() as u32) + packed_values_bytes(vals);
    c + zeros(4096 - c.len())
}

/// The value number `i` of a packed block whose value lengths start at
/// `pos`, or why it cannot be read.
pub open spec fn packed_value_at(s: Seq<u8>, pos: int, i: int) -> Result<Seq<u8>, TreeFormatError>
    decreases i,
{
    if pos < 0 || pos + 4 > s.len() {
        Err(TreeFormatError::PackedBlockCorrupted)
    } else {
        let start = pos + 4;
        let len = le_u32_at(s, pos);
        if i <= 0 {
            if start + len > s.len() {
                Err(TreeFormatError::PackedBlockCorrupted)
            } else {
                Ok(s.subrange(start, start + len))
            }
        } else {
            packed_value_at(s, start + len, i - 1)
        }
    }
}

/// The views of a list of byte vectors.
pub open spec fn views(vs: Seq<Vec<u8>>) -> Seq<Seq<u8>> {
    vs.map_values(|v: Vec<u8>| v@)
}

/// The packed block holding `values` in their order.
pub fn encode_packed_block(values: &[Vec<u8>]) -> (r: Vec<u8>)
    requires
        4 + packed_values_bytes(views(values@)).len() <= BLOCK_SIZE,
    ensures
        r@ == packed_block_bytes(views(values@)),
        r@.len() == BLOCK_SIZE,
{
    let ghost vs = views(values@);
    let mut b: Vec<u8> = Vec::new();
    proof {
        lemma_packed_values_len_bound(vs, values@.len() as int);
    }
    push_u32(&mut b, values.len() as u32);
    let mut i: usize = 0;
    while i < values.len()
        invariant
            i <= values@.len(),
            vs == views(values@),
            4 + packed_values_bytes(vs).len() <= BLOCK_SIZE,
            b@ == u32_bytes(values@.len() as u32) + packed_values_bytes(vs.take(i as int)),
        decreases values@.len() - i,
    {
        proof {
            lemma_packed_values_prefix_len(vs, i as int + 1);
            assert(vs.take(i as int + 1).drop_last() =~= vs.take(i as int));
            assert(vs.take(i as int + 1).last() == values@[i as int]@);
        }
        let v = &values[i];
        push_u32(&mut b, v.len() as u32);
        push_bytes(&mut b, v.as_slice());
        i = i + 1;
        proof {
            assert(b@ =~= u32_bytes(values@.len() as u32) + packed_values_bytes(vs.take(i as int)));
        }
    }
    proof {
        assert(vs.take(values@.len() as int) =~= vs);
    }
    let n = b.len();
    push_zeros(&mut b, 4096 - n);
    b
}

/// The values before `n` take no more room than all of them.
pub proof fn lemma_packed_values_prefix_len(vs: Seq<Seq<u8>>, n: int)
    requires
        0 <= n <= vs.len(),
    ensures
        packed_values_bytes(vs.take(n)).len() <= packed_values_bytes(vs).len(),
        n > 0 ==> vs[n - 1].len() + 4 <= packed_values_bytes(vs).len(),
    decreases vs.len(),
{
    if n < vs.len() {
        lemma_packed_values_prefix_len(vs.drop_last(), n);
        assert(vs.drop_last().take(n) =~= vs.take(n));
    } else {
        assert(vs.take(n) =~= vs);
    }
}

/// A packed block that fits one block holds fewer than 1024 values.
pub proof fn lemma_packed_values_len_bound(vs: Seq<Seq<u8>>, n: int)
    requires
        n == vs.len(),
    ensures
        packed_values_bytes(vs).len() >= 4 * n,
    decreases vs.len(),
{
    if vs.len() > 0 {
        lemma_packed_values_len_bound(vs.drop_last(), n - 1);
    }
}

/// The value number `index` of a packed block.
pub fn read_packed_value(block: &[u8], index: u16) -> (r: Result<Vec<u8>, TreeFormatError>)
    requires
        block@.len() == BLOCK_SIZE,
    ensures
        match r {
            Ok(v) => packed_value_at(block@, 4, index as int) == Ok::<Seq<u8>, TreeFormatError>(v@),
            Err(e) => packed_value_at(block@, 4, index as int) == Err::<Seq<u8>, TreeFormatError>(e),
        },
{
    let mut pos: usize = 4;
    let mut i: u16 = 0;
    loop
        invariant
            i <= index,
            4 <= pos <= BLOCK_SIZE + 4,
            block@.len() == BLOCK_SIZE,
            packed_value_at(block@, pos as int, index - i) == packed_value_at(block@, 4, index as int),
        decreases index - i,
    {
        if pos > 4092 {
            return Err(TreeFormatError::PackedBlockCorrupted);
        }
        let len = read_u32(block, pos);
        let start = pos + 4;
        if i == index {
            if len as usize > 4096 - start {
                return Err(TreeFormatError::PackedBlockCorrupted);
            }
            return Ok(copy_range(block, start, start + len as usize));
        }
        if len as usize > 4096 - start {
            proof {
                assert(packed_value_at(block@, (start + len) as int, index - i - 1) == Err::<
                    Seq<u8>,
                    TreeFormatError,
                >(TreeFormatError::PackedBlockCorrupted));
            }
            return Err(TreeFormatError::PackedBlockCorrupted);
        }
        pos = start + len as usize;
        i = i + 1;
    }
}

/// Value `i` of a packed block is read back as it was written.
pub proof fn lemma_packed_block_roundtrip(vals: Seq<Seq<u8>>, i: int)
    requires
        0 <= i < vals.len(),
        4 + packed_values_bytes(vals).len() <= 4096,
    ensures
        packed_value_at(packed_block_bytes(vals), 4, i) == Ok::<Seq<u8>, TreeFormatError>(vals[i]),
{
    let s = packed_block_bytes(vals);
    lemma_packed_values_len_bound(vals, vals.len() as int);
    lemma_packed_value_walk(vals, s, i, 0);
}

/// Walking a packed block from the value number `j`, whose length stands
/// at its place in the encoding, reaches value `i` unchanged.
proof fn lemma_packed_value_walk(vals: Seq<Seq<u8>>, s: Seq<u8>, i: int, j: int)
    requires
        0 <= j <= i < vals.len(),
        4 + packed_values_bytes(vals).len() <= 4096,
        s == packed_block_bytes(vals),
    ensures
        packed_value_at(s, 4 + packed_values_bytes(vals.take(j)).len() as int, i - j) == Ok::<
            Seq<u8>,
            TreeFormatError,
        >(vals[i]),
    decreases i - j,
{
    let pos: int = 4 + packed_values_bytes(vals.take(j)).len() as int;
    let v = vals[j];
    let vl: int = v.len() as int;
    lemma_packed_values_prefix_len(vals, j + 1);
    assert(vals.take(j + 1).drop_last() =~= vals.take(j));
    assert(vals.take(j + 1).last() == v);
    let pre = u32_bytes(vals.len() as u32) + packed_values_bytes(vals.take(j));
    lemma_packed_prefix_in_block(vals, j + 1);
    let whole = pre + u32_bytes(v.len() as u32) + v;
    assert(s.subrange(0, pos + 4 + vl) =~= whole);
    assert(pre.len() == pos);
    assert(s.subrange(pos, pos + 4) =~= whole.subrange(pos, pos + 4));
    assert(whole.subrange(pos, pos + 4) =~= u32_bytes(v.len() as u32));
    assert(s.subrange(pos + 4, pos + 4 + vl) =~= whole.subrange(pos + 4, pos + 4 + vl));
    assert(whole.subrange(pos + 4, pos + 4 + vl) =~= v);
    lemma_u32_roundtrip(v.len() as u32);
    lemma_le_u32_shift(s, pos, u32_bytes(v.len() as u32));
    if j < i {
        lemma_packed_value_walk(vals, s, i, j + 1);
    } else {
        assert(s.subrange(pos + 4, pos + 4 + vl) =~= v);
    }
}

/// The encoding of the first `n` values stands at the start of the block,
/// after the count.
proof fn lemma_packed_prefix_in_block(vals: Seq<Seq<u8>>, n: int)
    requires
        0 <= n <= vals.len(),
        4 + packed_values_bytes(vals).len() <= 4096,
    ensures
        packed_block_bytes(vals).subrange(0, 4 + packed_values_bytes(vals.take(n)).len() as int)
            == u32_bytes(vals.len() as u32) + packed_values_bytes(vals.take(n)),
    decreases vals.len() - n,
{
    let s = packed_block_bytes(vals);
    if n == vals.len() {
        assert(vals.take(n) =~= vals);
        assert(s.subrange(0, 4 + packed_values_bytes(vals).len() as int) =~= u32_bytes(
            vals.len() as u32,
        ) + packed_values_bytes(vals));
    } else {
        lemma_packed_prefix_in_block(vals, n + 1);
        lemma_packed_values_prefix_len(vals, n + 1);
        assert(s.len() == 4096);
        assert(vals.take(n + 1).drop_last() =~= vals.take(n));
        let a = packed_values_bytes(vals.take(n));
        let b = packed_values_bytes(vals.take(n + 1));
        assert(b == a + u32_bytes(vals[n].len() as u32) + vals[n]);
        assert(s.subrange(0, 4 + a.len() as int) =~= s.subrange(0, 4 + b.len() as int).subrange(
            0,
            4 + a.len() as int,
        ));
        assert((u32_bytes(vals.len() as u32) + b).subrange(0, 4 + a.len() as int) =~= u32_bytes(
            vals.len() as u32,
        ) + a);
    }
}

/// The bytes that `lz4_flex::compress_prepend_size` makes of `input`.
pub uninterp spec fn lz4_compressed(input: Seq<u8>) -> Seq<u8>;

/// What `lz4_flex::decompress_size_prepended` gives back of `input`; `None`
/// where it reports an error.
pub uninterp spec fn lz4_decompressed(input: Seq<u8>) -> Option<Seq<u8>>;

/// Calls `lz4_flex::compress_prepend_size`: the LZ4 block of `input` with the
/// input length in front as a little-endian `u32`. The contract names the
/// result, states that length prefix, and that `decompress_size_prepended`
/// gives the input back (the crate documents the two as a pair); the
/// compressed bytes themselves are not described.
#[verifier::external_body]
fn lz4_compress_prepend_size(input: &[u8]) -> (r: Vec<u8>)
    ensures
        r@ == lz4_compressed(input@),
        input@.len() <= u32::MAX ==> r@.len() >= 4 && le_u32_at(r@, 0) == input@.len(),
        input@.len() <= u32::MAX ==> lz4_decompressed(r@) == Some(input@),
{
    lz4_flex::compress_prepend_size(input)
}

/// Calls `lz4_flex::decompress_size_prepended`, `None` where it returns an
/// error. The contract names the result; what it is for input that
/// `compress_prepend_size` did not make is not described.
#[verifier::external_body]
fn lz4_decompress_size_prepended(input: &[u8]) -> (r: Option<Vec<u8>>)
    ensures
        r matches Some(v) ==> lz4_decompressed(input@) == Some(v@),
        r is None ==> lz4_decompressed(input@) is None,
{
    match lz4_flex::decompress_size_prepended(input) {
        Ok(v) => Some(v),
        Err(_) => None,
    }
}

/// The flag and payload a value's bytes are stored with: LZ4 where the value
/// is at least `COMPRESSION_MIN_SIZE` long and compresses below
/// `COMPRESSION_THRESHOLD_PERCENT` of its length, else the bytes as they are.
pub open spec fn compression_choice(raw: Seq<u8>) -> (u8, Seq<u8>) {
    if raw.len() >= COMPRESSION_MIN_SIZE && lz4_compressed(raw).len() < (raw.len()
        * COMPRESSION_THRESHOLD_PERCENT) / 100 {
        (COMPRESSION_FLAG_LZ4, lz4_compressed(raw))
    } else {
        (COMPRESSION_FLAG_NONE, raw)
    }
}

/// The flag and payload to store `raw_bytes` with.
pub fn compress_if_beneficial(raw_bytes: &[u8]) -> (r: (u8, Vec<u8>))
    requires
        raw_bytes@.len() * COMPRESSION_THRESHOLD_PERCENT <= usize::MAX,
    ensures
        (r.0, r.1@) == compression_choice(raw_bytes@),
        raw_bytes@.len() <= u32::MAX && r.0 == COMPRESSION_FLAG_LZ4 ==> lz4_decompressed(r.1@) == Some(
            raw_bytes@,
        ),
{
    if raw_bytes.len() >= COMPRESSION_MIN_SIZE {
        let compressed = lz4_compress_prepend_size(raw_bytes);
        let threshold = (raw_bytes.len() * COMPRESSION_THRESHOLD_PERCENT) / 100;
        if compressed.len() < threshold {
            (COMPRESSION_FLAG_LZ4, compressed)
        } else {
            (COMPRESSION_FLAG_NONE, copy_range(raw_bytes, 0, raw_bytes.len()))
        }
    } else {
        proof {
            assert(raw_bytes@.subrange(0, raw_bytes@.len() as int) =~= raw_bytes@);
        }
        (COMPRESSION_FLAG_NONE, copy_range(raw_bytes, 0, raw_bytes.len()))
    }
}

/// A value stored alone: its flag, then its payload.
pub open spec fn value_record_bytes(raw: Seq<u8>) -> Seq<u8> {
    seq![compression_choice(raw).0] + compression_choice(raw).1
}

/// The value bytes of a stored record, or why they cannot be had.
pub open spec fn parse_value_record(rec: Seq<u8>) -> Result<Seq<u8>, TreeFormatError> {
    if rec[0] == COMPRESSION_FLAG_LZ4 {
        match lz4_decompressed(rec.subrange(1, rec.len() as int)) {
            Some(v) => Ok(v),
            None => Err(TreeFormatError::Decompression),
        }
    } else {
        Ok(rec.subrange(1, rec.len() as int))
    }
}

/// The record that stores `raw_bytes` alone.
pub fn encode_value_record(raw_bytes: &[u8]) -> (r: Vec<u8>)
    requires
        raw_bytes@.len() * COMPRESSION_THRESHOLD_PERCENT <= usize::MAX,
    ensures
        r@ == value_record_bytes(raw_bytes@),
        raw_bytes@.len() <= u32::MAX ==> parse_value_record(r@) == Ok::<Seq<u8>, TreeFormatError>(
            raw_bytes@,
        ),
{
    let (flag, payload) = compress_if_beneficial(raw_bytes);
    let mut out: Vec<u8> = Vec::new();
    out.push(flag);
    push_bytes(&mut out, payload.as_slice());
    proof {
        assert(out@ =~= value_record_bytes(raw_bytes@));
        assert(out@.subrange(1, out@.len() as int) =~= payload@);
    }
    out
}

/// The value bytes of a record read from the file; `record` holds the
/// record's stored length of bytes.
pub fn value_from_record(record: &[u8]) -> (r: Result<Vec<u8>, TreeFormatError>)
    requires
        record@.len() >= 1,
    ensures
        match r {
            Ok(v) => parse_value_record(record@) == Ok::<Seq<u8>, TreeFormatError>(v@),
            Err(e) => parse_value_record(record@) == Err::<Seq<u8>, TreeFormatError>(e),
        },
{
    let payload = copy_range(record, 1, record.len());
    if record[0] == COMPRESSION_FLAG_LZ4 {
        match lz4_decompress_size_prepended(payload.as_slice()) {
            Some(v) => Ok(v),
            None => Err(TreeFormatError::Decompression),
        }
    } else {
        Ok(payload)
    }
}

/// How a leaf's value is stored: number `index` of the packed block at the
/// first offset, or alone at the offset.
#[derive(Debug, Clone, Copy, PartialEq, Eq, Structural)]
pub enum ValueStorageMode {
    Packed(u64, u16),
    Single(u64),
}

/// Where a leaf's value is stored, how many bytes it takes there, and, for a
/// value stored alone and compressed, its flag and payload.
pub struct ValueInfo {
    pub mode: ValueStorageMode,
    pub length: u32,
    pub compressed_cache: Option<(u8, Vec<u8>)>,
}

/// The offset that marks a value stored alone whose place is not yet known.
pub const UNPLACED: u64 = 0xffff_ffff_ffff_ffff;

/// Packing state: the number of the current packed block, the index the
/// next value gets in it, and the bytes it uses.
pub type PackState = (int, int, int);

/// How the next value is stored from state `st`, with its stored length,
/// and the state after it. Values up to `SMALL_VALUE_THRESHOLD` go into the
/// current packed block while it has room, else into a new one; longer ones
/// are stored alone, possibly compressed.
pub open spec fn plan_step(st: PackState, v: Seq<u8>) -> ((ValueStorageMode, int), PackState) {
    let (count, index, size) = st;
    if v.len() <= SMALL_VALUE_THRESHOLD {
        let e = PACK_VALUE_HEADER_SIZE + v.len();
        if size + e <= BLOCK_SIZE {
            ((ValueStorageMode::Packed(count as u64, index as u16), v.len() as int), (count, index + 1, size + e))
        } else {
            (
                (ValueStorageMode::Packed((count + 1) as u64, 0), v.len() as int),
                (count + 1, 1, PACK_BLOCK_HEADER_SIZE + e),
            )
        }
    } else {
        ((ValueStorageMode::Single(UNPLACED), 1 + compression_choice(v).1.len() as int), st)
    }
}

/// The packing state after the values `vals`.
pub open spec fn plan_after(vals: Seq<Seq<u8>>) -> PackState
    decreases vals.len(),
{
    if vals.len() == 0 {
        (0, 0, PACK_BLOCK_HEADER_SIZE as int)
    } else {
        plan_step(plan_after(vals.drop_last()), vals.last()).1
    }
}

/// How value `i` of a leaf holding `vals` is stored, with its stored length.
pub open spec fn planned(vals: Seq<Seq<u8>>, i: int) -> (ValueStorageMode, int) {
    plan_step(plan_after(vals.take(i)), vals[i]).0
}

/// The packing state stays in range: block numbers count up from 0 by at
/// most one per value, and a packed block never outgrows a block.
pub proof fn lemma_plan_bounds(vals: Seq<Seq<u8>>)
    ensures
        0 <= plan_after(vals).0 <= vals.len(),
        0 <= plan_after(vals).1,
        4 + 4 * plan_after(vals).1 <= plan_after(vals).2 <= BLOCK_SIZE,
    decreases vals.len(),
{
    if vals.len() > 0 {
        lemma_plan_bounds(vals.drop_last());
    }
}

/// Info `i` is the one planned for value `i` of `vals`: its mode and stored
/// length, and for a value stored alone and compressed, the flag and
/// payload, which decompress to the value.
pub open spec fn plan_holds(infos: Seq<ValueInfo>, vals: Seq<Seq<u8>>, i: int) -> bool {
    let p = planned(vals, i);
    let c = compression_choice(vals[i]);
    &&& infos[i].mode == p.0
    &&& infos[i].length == p.1
    &&& infos[i].compressed_cache is Some <==> (vals[i].len() > SMALL_VALUE_THRESHOLD && c.0
        == COMPRESSION_FLAG_LZ4)
    &&& infos[i].compressed_cache matches Some((f, payload)) ==> f == c.0 && payload@ == c.1 && (
    vals[i].len() <= u32::MAX ==> lz4_decompressed(payload@) == Some(vals[i]))
}

/// How each value of a leaf is stored, with placeholder offsets: packed
/// blocks are numbered from 0 and values stored alone are `UNPLACED`.
/// Fails when a value stored alone is longer than its `u32` length field.
pub fn plan_leaf_values(values: &[Vec<u8>]) -> (r: Result<Vec<ValueInfo>, TreeFormatError>)
    requires
        values@.len() < u32::MAX,
        forall|i: int|
            0 <= i < values@.len() ==> (#[trigger] values@[i])@.len() * COMPRESSION_THRESHOLD_PERCENT
                <= usize::MAX,
    ensures
        r is Ok <==> forall|i: int|
            0 <= i < values@.len() ==> (#[trigger] planned(views(values@), i)).1 <= u32::MAX,
        r matches Err(e) ==> e == TreeFormatError::LengthOverflow,
        r matches Ok(infos) ==> {
            &&& infos@.len() == values@.len()
            &&& forall|i: int| 0 <= i < values@.len() ==> #[trigger] plan_holds(infos@, views(values@), i)
        },
{
    let ghost vs = views(values@);
    let mut infos: Vec<ValueInfo> = Vec::new();
    let mut count: u32 = 0;
    let mut index: u16 = 0;
    let mut size: usize = PACK_BLOCK_HEADER_SIZE;
    let mut i: usize = 0;
    while i < values.len()
        invariant
            i <= values@.len(),
            values@.len() < u32::MAX,
            vs == views(values@),
            forall|k: int|
                0 <= k < values@.len() ==> (#[trigger] values@[k])@.len()
                    * COMPRESSION_THRESHOLD_PERCENT <= usize::MAX,
            (count as int, index as int, size as int) == plan_after(vs.take(i as int)),
            infos@.len() == i,
            forall|k: int| 0 <= k < i ==> (#[trigger] planned(vs, k)).1 <= u32::MAX,
            forall|k: int| 0 <= k < i ==> #[trigger] plan_holds(infos@, vs, k),
        decreases values@.len() - i,
    {
        let ghost before = vs.take(i as int);
        let ghost infos0 = infos@;
        proof {
            lemma_plan_bounds(before);
            assert(vs.take(i as int + 1).drop_last() =~= before);
            assert(vs.take(i as int + 1).last() == values@[i as int]@);
            assert(vs[i as int] == values@[i as int]@);
        }
        let v = &values[i];
        let len = v.len();
        if len <= SMALL_VALUE_THRESHOLD {
            let entry = PACK_VALUE_HEADER_SIZE + len;
            if size + entry <= BLOCK_SIZE {
                infos.push(
                    ValueInfo {
                        mode: ValueStorageMode::Packed(count as u64, index),
                        length: len as u32,
                        compressed_cache: None,
                    },
                );
                index = index + 1;
                size = size + entry;
            } else {
                count = count + 1;
                infos.push(
                    ValueInfo {
                        mode: ValueStorageMode::Packed(count as u64, 0),
                        length: len as u32,
                        compressed_cache: None,
                    },
                );
                index = 1;
                size = PACK_BLOCK_HEADER_SIZE + entry;
            }
        } else {
            let (flag, payload) = compress_if_beneficial(v.as_slice());
            if payload.len() >= 4294967295usize {
                proof {
                    assert(planned(vs, i as int).1 > u32::MAX);
                }
                return Err(TreeFormatError::LengthOverflow);
            }
            let stored = (1 + payload.len()) as u32;
            let cache = if flag == COMPRESSION_FLAG_LZ4 {
                Some((flag, payload))
            } else {
                None
            };
            infos.push(ValueInfo { mode: ValueStorageMode::Single(UNPLACED), length: stored, compressed_cache: cache });
        }
        proof {
            assert forall|k: int| 0 <= k < i + 1 implies #[trigger] plan_holds(infos@, vs, k) by {
                if k < i {
                    assert(infos@[k] == infos0[k]);
                    assert(plan_holds(infos0, vs, k));
                }
            }
        }
        i = i + 1;
    }
    proof {
        assert(vs.take(values@.len() as int) =~= vs);
    }
    Ok(infos)
}

/// The storage mode and stored length of each value info.
pub open spec fn info_items(infos: Seq<ValueInfo>) -> Seq<(ValueStorageMode, u32)> {
    infos.map_values(|i: ValueInfo| (i.mode, i.length))
}

/// The offset given to packed block number `p`, the latest entry for it first.
pub open spec fn find_pack(ps: Seq<(u64, u64)>, p: u64) -> Option<u64>
    decreases ps.len(),
{
    if ps.len() == 0 {
        None
    } else if ps.last().0 == p {
        Some(ps.last().1)
    } else {
        find_pack(ps.drop_last(), p)
    }
}

/// Placing values from offset `start`: the offsets given to packed block
/// numbers, in the order they were first met, and the next free offset. A
/// packed block takes a whole block when its number is first met; a value
/// stored alone and not yet placed takes its stored length.
pub open spec fn place_after(items: Seq<(ValueStorageMode, u32)>, start: int) -> (Seq<(u64, u64)>, int)
    decreases items.len(),
{
    if items.len() == 0 {
        (Seq::empty(), start)
    } else {
        let (ps, cur) = place_after(items.drop_last(), start);
        match items.last().0 {
            ValueStorageMode::Packed(p, _) => if find_pack(ps, p) is Some {
                (ps, cur)
            } else {
                (ps.push((p, cur as u64)), cur + BLOCK_SIZE)
            },
            ValueStorageMode::Single(o) => if o == UNPLACED {
                (ps, cur + items.last().1)
            } else {
                (ps, cur)
            },
        }
    }
}

/// The mode of value `i` once placed: packed block numbers become the
/// offsets their blocks got, and a value stored alone and not yet placed
/// gets the next free offset at its turn.
pub open spec fn placed_mode(items: Seq<(ValueStorageMode, u32)>, start: int, i: int) -> ValueStorageMode {
    match items[i].0 {
        ValueStorageMode::Packed(p, idx) => ValueStorageMode::Packed(
            find_pack(place_after(items, start).0, p).unwrap(),
            idx,
        ),
        ValueStorageMode::Single(o) => if o == UNPLACED {
            ValueStorageMode::Single(place_after(items.take(i), start).1 as u64)
        } else {
            ValueStorageMode::Single(o)
        },
    }
}

/// The next free offset only grows, and a packed block keeps the offset it got.
pub proof fn lemma_place_grows(items: Seq<(ValueStorageMode, u32)>, start: int, k: int, p: u64)
    requires
        0 <= k <= items.len(),
    ensures
        place_after(items.take(k), start).1 <= place_after(items, start).1,
        find_pack(place_after(items.take(k), start).0, p) is Some ==> find_pack(
            place_after(items, start).0,
            p,
        ) == find_pack(place_after(items.take(k), start).0, p),
    decreases items.len(),
{
    if k == items.len() {
        assert(items.take(k) =~= items);
    } else {
        lemma_place_grows(items.drop_last(), start, k, p);
        assert(items.drop_last().take(k) =~= items.take(k));
        let (ps, cur) = place_after(items.drop_last(), start);
        match items.last().0 {
            ValueStorageMode::Packed(q, _) => {
                if find_pack(ps, q) is None {
                    assert(ps.push((q, cur as u64)).drop_last() =~= ps);
                }
            },
            ValueStorageMode::Single(o) => {},
        }
    }
}

/// After placing, every packed block number met has an offset.
pub proof fn lemma_place_covers(items: Seq<(ValueStorageMode, u32)>, start: int, i: int)
    requires
        0 <= i < items.len(),
    ensures
        items[i].0 matches ValueStorageMode::Packed(p, _) ==> find_pack(place_after(items, start).0, p)
            is Some,
{
    if let ValueStorageMode::Packed(p, _) = items[i].0 {
        let pre = items.take(i + 1);
        assert(pre.drop_last() =~= items.take(i));
        assert(pre.last() == items[i]);
        let (ps, cur) = place_after(items.take(i), start);
        if find_pack(ps, p) is None {
            assert(ps.push((p, cur as u64)).drop_last() =~= ps);
        }
        lemma_place_grows(items, start, i + 1, p);
    }
}

/// Gives the values of a leaf their final places from offset `start_offset`
/// on, and returns the next free offset: packed blocks in the order their
/// numbers are first met, one block each, and values stored alone at their
/// turn, their stored length each.
pub fn place_leaf_values(infos: &mut Vec<ValueInfo>, start_offset: u64) -> (r: u64)
    requires
        place_after(info_items(old(infos)@), start_offset as int).1 <= u64::MAX,
    ensures
        r == place_after(info_items(old(infos)@), start_offset as int).1,
        final(infos)@.len() == old(infos)@.len(),
        forall|i: int|
            0 <= i < old(infos)@.len() ==> {
                &&& (#[trigger] final(infos)@[i]).mode == placed_mode(
                    info_items(old(infos)@),
                    start_offset as int,
                    i,
                )
                &&& final(infos)@[i].length == old(infos)@[i].length
                &&& final(infos)@[i].compressed_cache == old(infos)@[i].compressed_cache
            },
{
    let ghost items = info_items(infos@);
    let ghost orig = infos@;
    let n = infos.len();
    broadcast use vstd::std_specs::hash::group_hash_axioms;
    // the offset given to each packed block number met so far
    let mut packs: HashMap<u64, u64> = HashMap::new();
    let ghost mut ps: Seq<(u64, u64)> = Seq::empty();
    let mut cur: u64 = start_offset;
    let mut i: usize = 0;
    while i < n
        invariant
            i <= n,
            n == infos@.len(),
            orig.len() == n,
            items == info_items(orig),
            place_after(items, start_offset as int).1 <= u64::MAX,
            (ps, cur as int) == place_after(items.take(i as int), start_offset as int),
            forall|p: u64| #[trigger] packs@.contains_key(p) <==> find_pack(ps, p) is Some,
            forall|p: u64| #[trigger] packs@.contains_key(p) ==> find_pack(ps, p) == Some(packs@[p]),
            forall|k: int|
                0 <= k < n ==> {
                    &&& (#[trigger] infos@[k]).length == orig[k].length
                    &&& infos@[k].compressed_cache == orig[k].compressed_cache
                    &&& (k < i && orig[k].mode is Single) ==> infos@[k].mode == placed_mode(
                        items,
                        start_offset as int,
                        k,
                    )
                    &&& (k >= i || orig[k].mode is Packed) ==> infos@[k].mode == orig[k].mode
                },
        decreases n - i,
    {
        proof {
            lemma_place_grows(items, start_offset as int, i as int + 1, 0);
            assert(items.take(i as int + 1).drop_last() =~= items.take(i as int));
            assert(items.take(i as int + 1).last() == items[i as int]);
            assert(items[i as int] == (orig[i as int].mode, orig[i as int].length));
        }
        let mode = infos[i].mode;
        match mode {
            ValueStorageMode::Packed(p, _) => {
                if !packs.contains_key(&p) {
                    let ghost old_ps = ps;
                    packs.insert(p, cur);
                    proof {
                        ps = ps.push((p, cur));
                        assert(ps.drop_last() =~= old_ps);
                    }
                    cur = cur + 4096;
                }
            },
            ValueStorageMode::Single(o) => {
                if o == UNPLACED {
                    let len = infos[i].length;
                    infos[i].mode = ValueStorageMode::Single(cur);
                    cur = cur + len as u64;
                }
            },
        }
        i = i + 1;
    }
    proof {
        assert(items.take(n as int) =~= items);
    }
    let mut j: usize = 0;
    while j < n
        invariant
            j <= n,
            n == infos@.len(),
            orig.len() == n,
            items == info_items(orig),
            (ps, cur as int) == place_after(items, start_offset as int),
            forall|p: u64| #[trigger] packs@.contains_key(p) <==> find_pack(ps, p) is Some,
            forall|p: u64| #[trigger] packs@.contains_key(p) ==> find_pack(ps, p) == Some(packs@[p]),
            forall|k: int|
                0 <= k < n ==> {
                    &&& (#[trigger] infos@[k]).length == orig[k].length
                    &&& infos@[k].compressed_cache == orig[k].compressed_cache
                    &&& (k < j || orig[k].mode is Single) ==> infos@[k].mode == placed_mode(
                        items,
                        start_offset as int,
                        k,
                    )
                    &&& (k >= j && orig[k].mode is Packed) ==> infos@[k].mode == orig[k].mode
                },
        decreases n - j,
    {
        proof {
            lemma_place_covers(items, start_offset as int, j as int);
            assert(items[j as int] == (orig[j as int].mode, orig[j as int].length));
        }
        let mode = infos[j].mode;
        if let ValueStorageMode::Packed(p, idx) = mode {
            match packs.get(&p) {
                Some(o) => {
                    infos[j].mode = ValueStorageMode::Packed(*o, idx);
                },
                None => {},
            }
        }
        j = j + 1;
    }
    cur
}

/// The offset of block `i` when blocks of the given sizes are laid out one
/// after the other from `start`.
pub open spec fn running_offset(sizes: Seq<u64>, start: int, i: int) -> int
    decreases i,
{
    if i <= 0 {
        start
    } else {
        running_offset(sizes, start, i - 1) + sizes[i - 1]
    }
}

/// Running offsets only grow.
pub proof fn lemma_running_offset_grows(sizes: Seq<u64>, start: int, i: int, j: int)
    requires
        0 <= i <= j,
    ensures
        running_offset(sizes, start, i) <= running_offset(sizes, start, j),
    decreases j,
{
    if i < j {
        lemma_running_offset_grows(sizes, start, i, j - 1);
    }
}

/// The offsets of blocks of the given sizes laid out one after the other
/// from `start`, and the offset after the last one.
pub fn layout_offsets(sizes: &[u64], start: u64) -> (r: (Vec<u64>, u64))
    requires
        running_offset(sizes@, start as int, sizes@.len() as int) <= u64::MAX,
    ensures
        r.0@.len() == sizes@.len(),
        forall|i: int| 0 <= i < sizes@.len() ==> #[trigger] r.0@[i] == running_offset(sizes@, start as int, i),
        r.1 == running_offset(sizes@, start as int, sizes@.len() as int),
{
    let mut offsets: Vec<u64> = Vec::new();
    let mut cur: u64 = start;
    let mut i: usize = 0;
    while i < sizes.len()
        invariant
            i <= sizes@.len(),
            running_offset(sizes@, start as int, sizes@.len() as int) <= u64::MAX,
            cur == running_offset(sizes@, start as int, i as int),
            offsets@.len() == i,
            forall|k: int| 0 <= k < i ==> #[trigger] offsets@[k] == running_offset(sizes@, start as int, k),
        decreases sizes@.len() - i,
    {
        proof {
            lemma_running_offset_grows(sizes@, start as int, i as int + 1, sizes@.len() as int);
        }
        offsets.push(cur);
        cur = cur + sizes[i];
        i = i + 1;
    }
    (offsets, cur)
}

/// The record of a value stored alone: the cached flag and payload of a
/// compressed value, else the flag for plain bytes and the value's bytes.
pub open spec fn single_record(info: ValueInfo, raw: Seq<u8>) -> Seq<u8> {
    match info.compressed_cache {
        Some((f, p)) => seq![f] + p@,
        None => seq![COMPRESSION_FLAG_NONE] + raw,
    }
}

/// The writes of the values stored alone, in order: offset and record.
pub open spec fn single_writes(infos: Seq<ValueInfo>, values: Seq<Seq<u8>>) -> Seq<(u64, Seq<u8>)>
    decreases infos.len(),
{
    if infos.len() == 0 {
        Seq::empty()
    } else {
        let rest = single_writes(infos.drop_last(), values);
        match infos.last().mode {
            ValueStorageMode::Single(o) => rest.push((o, single_record(infos.last(), values[infos.len() - 1]))),
            ValueStorageMode::Packed(_, _) => rest,
        }
    }
}

/// The offsets of the packed blocks of a leaf, in the order first met.
pub open spec fn pack_offsets(infos: Seq<ValueInfo>) -> Seq<u64>
    decreases infos.len(),
{
    if infos.len() == 0 {
        Seq::empty()
    } else {
        let rest = pack_offsets(infos.drop_last());
        match infos.last().mode {
            ValueStorageMode::Packed(o, _) => if rest.contains(o) {
                rest
            } else {
                rest.push(o)
            },
            ValueStorageMode::Single(_) => rest,
        }
    }
}

/// The values of the packed block at offset `o`, each with its index, in
/// the order the infos give them.
pub open spec fn pack_members(infos: Seq<ValueInfo>, values: Seq<Seq<u8>>, o: u64) -> Seq<(u16, Seq<u8>)>
    decreases infos.len(),
{
    if infos.len() == 0 {
        Seq::empty()
    } else {
        let rest = pack_members(infos.drop_last(), values, o);
        match infos.last().mode {
            ValueStorageMode::Packed(b, idx) => if b == o {
                rest.push((idx, values[infos.len() - 1]))
            } else {
                rest
            },
            ValueStorageMode::Single(_) => rest,
        }
    }
}

/// Where `x` goes into `t` when inserting from the end: after the last
/// element whose index is not greater.
pub open spec fn insert_pos(t: Seq<(u16, Seq<u8>)>, key: u16) -> int
    decreases t.len(),
{
    if t.len() == 0 {
        0
    } else if t.last().0 > key {
        insert_pos(t.drop_last(), key)
    } else {
        t.len() as int
    }
}

/// `s` sorted by index, values of equal index keeping their order.
pub open spec fn sort_by_index(s: Seq<(u16, Seq<u8>)>) -> Seq<(u16, Seq<u8>)>
    decreases s.len(),
{
    if s.len() == 0 {
        Seq::empty()
    } else {
        let t = sort_by_index(s.drop_last());
        let k = insert_pos(t, s.last().0);
        t.take(k) + seq![s.last()] + t.skip(k)
    }
}

/// The value bytes of index-tagged values.
pub open spec fn member_bytes(s: Seq<(u16, Seq<u8>)>) -> Seq<Seq<u8>> {
    s.map_values(|m: (u16, Seq<u8>)| m.1)
}

/// The writes of the packed blocks, in the order their offsets are first met.
pub open spec fn pack_writes(infos: Seq<ValueInfo>, values: Seq<Seq<u8>>) -> Seq<(u64, Seq<u8>)> {
    pack_offsets(infos).map_values(
        |o: u64| (o, packed_block_bytes(member_bytes(sort_by_index(pack_members(infos, values, o))))),
    )
}

/// Every packed block of the leaf fits one block.
pub open spec fn packs_fit(infos: Seq<ValueInfo>, values: Seq<Seq<u8>>) -> bool {
    forall|o: u64|
        #![trigger pack_members(infos, values, o)]
        4 + packed_values_bytes(member_bytes(sort_by_index(pack_members(infos, values, o)))).len()
            <= BLOCK_SIZE
}

/// The writes that store the values of a leaf: the values stored alone,
/// then the packed blocks, each with its offset.
pub fn leaf_value_writes(infos: &[ValueInfo], values: &[Vec<u8>]) -> (r: Vec<(u64, Vec<u8>)>)
    requires
        infos@.len() == values@.len(),
        packs_fit(infos@, views(values@)),
    ensures
        r@.map_values(|w: (u64, Vec<u8>)| (w.0, w.1@)) == single_writes(infos@, views(values@))
            + pack_writes(infos@, views(values@)),
{
    let ghost vs = views(values@);
    let mut out: Vec<(u64, Vec<u8>)> = Vec::new();
    let mut i: usize = 0;
    while i < infos.len()
        invariant
            i <= infos@.len(),
            infos@.len() == values@.len(),
            vs == views(values@),
            out@.map_values(|w: (u64, Vec<u8>)| (w.0, w.1@)) == single_writes(infos@.take(i as int), vs),
        decreases infos@.len() - i,
    {
        proof {
            assert(infos@.take(i as int + 1).drop_last() =~= infos@.take(i as int));
            assert(infos@.take(i as int + 1).last() == infos@[i as int]);
        }
        let info = &infos[i];
        if let ValueStorageMode::Single(o) = info.mode {
            let mut rec: Vec<u8> = Vec::new();
            match &info.compressed_cache {
                Some((f, payload)) => {
                    rec.push(*f);
                    push_bytes(&mut rec, payload.as_slice());
                },
                None => {
                    rec.push(COMPRESSION_FLAG_NONE);
                    push_bytes(&mut rec, values[i].as_slice());
                },
            }
            proof {
                assert(rec@ =~= single_record(infos@[i as int], vs[i as int]));
            }
            out.push((o, rec));
        }
        i = i + 1;
        proof {
            assert(out@.map_values(|w: (u64, Vec<u8>)| (w.0, w.1@)) =~= single_writes(infos@.take(i as int), vs));
        }
    }
    proof {
        assert(infos@.take(infos@.len() as int) =~= infos@);
    }
    let offsets = distinct_pack_offsets(infos);
    let ghost singles = out@.map_values(|w: (u64, Vec<u8>)| (w.0, w.1@));
    let mut j: usize = 0;
    while j < offsets.len()
        invariant
            j <= offsets@.len(),
            offsets@ == pack_offsets(infos@),
            infos@.len() == values@.len(),
            vs == views(values@),
            packs_fit(infos@, vs),
            out@.map_values(|w: (u64, Vec<u8>)| (w.0, w.1@)) == singles + pack_writes(infos@, vs).take(j as int),
        decreases offsets@.len() - j,
    {
        let o = offsets[j];
        let members = pack_members_of(infos, values, o);
        let sorted = sort_members(members);
        let mut bytes_list: Vec<Vec<u8>> = Vec::new();
        let mut k: usize = 0;
        while k < sorted.len()
            invariant
                k <= sorted@.len(),
                bytes_list@.len() == k,
                forall|m: int| 0 <= m < k ==> (#[trigger] bytes_list@[m])@ == sorted@[m].1@,
            decreases sorted@.len() - k,
        {
            let b = copy_range(sorted[k].1.as_slice(), 0, sorted[k].1.len());
            proof {
                assert(sorted@[k as int].1@.subrange(0, sorted@[k as int].1@.len() as int) =~= sorted@[k as int].1@);
            }
            bytes_list.push(b);
            k = k + 1;
        }
        let ghost sv = sort_by_index(pack_members(infos@, vs, o));
        proof {
            assert(views(bytes_list@) =~= member_bytes(sv));
            assert(4 + packed_values_bytes(member_bytes(sv)).len() <= BLOCK_SIZE);
        }
        let block = encode_packed_block(bytes_list.as_slice());
        let ghost before = out@.map_values(|w: (u64, Vec<u8>)| (w.0, w.1@));
        let ghost bv = block@;
        out.push((o, block));
        j = j + 1;
        proof {
            assert(out@.map_values(|w: (u64, Vec<u8>)| (w.0, w.1@)) =~= before.push((o, bv)));
            assert(pack_writes(infos@, vs)[j - 1] == (o, packed_block_bytes(member_bytes(sv))));
            assert(pack_writes(infos@, vs).take(j as int) =~= pack_writes(infos@, vs).take(j - 1).push(
                (o, packed_block_bytes(member_bytes(sv))),
            ));
            assert(out@.map_values(|w: (u64, Vec<u8>)| (w.0, w.1@)) =~= singles + pack_writes(infos@, vs).take(j as int));
        }
    }
    proof {
        assert(pack_writes(infos@, vs).take(offsets@.len() as int) =~= pack_writes(infos@, vs));
    }
    out
}

/// The offsets of the packed blocks, in the order first met.
fn distinct_pack_offsets(infos: &[ValueInfo]) -> (r: Vec<u64>)
    ensures
        r@ == pack_offsets(infos@),
{
    let mut out: Vec<u64> = Vec::new();
    let mut i: usize = 0;
    while i < infos.len()
        invariant
            i <= infos@.len(),
            out@ == pack_offsets(infos@.take(i as int)),
        decreases infos@.len() - i,
    {
        proof {
            assert(infos@.take(i as int + 1).drop_last() =~= infos@.take(i as int));
            assert(infos@.take(i as int + 1).last() == infos@[i as int]);
        }
        if let ValueStorageMode::Packed(o, _) = infos[i].mode {
            let mut found = false;
            let mut k: usize = 0;
            while k < out.len()
                invariant
                    k <= out@.len(),
                    found <==> exists|m: int| 0 <= m < k && #[trigger] out@[m] == o,
                decreases out@.len() - k,
            {
                if out[k] == o {
                    found = true;
                }
                k = k + 1;
            }
            proof {
                if found {
                    let m = choose|m: int| 0 <= m < k && #[trigger] out@[m] == o;
                    assert(out@.contains(o));
                } else {
                    assert(!out@.contains(o));
                }
            }
            if !found {
                out.push(o);
            }
        }
        i = i + 1;
    }
    proof {
        assert(infos@.take(infos@.len() as int) =~= infos@);
    }
    out
}

/// The values of the packed block at `o`, with their indices, in info order.
fn pack_members_of(infos: &[ValueInfo], values: &[Vec<u8>], o: u64) -> (r: Vec<(u16, Vec<u8>)>)
    requires
        infos@.len() == values@.len(),
    ensures
        r@.map_values(|m: (u16, Vec<u8>)| (m.0, m.1@)) == pack_members(infos@, views(values@), o),
{
    let ghost vs = views(values@);
    let mut out: Vec<(u16, Vec<u8>)> = Vec::new();
    let mut i: usize = 0;
    while i < infos.len()
        invariant
            i <= infos@.len(),
            infos@.len() == values@.len(),
            vs == views(values@),
            out@.map_values(|m: (u16, Vec<u8>)| (m.0, m.1@)) == pack_members(infos@.take(i as int), vs, o),
        decreases infos@.len() - i,
    {
        proof {
            assert(infos@.take(i as int + 1).drop_last() =~= infos@.take(i as int));
            assert(infos@.take(i as int + 1).last() == infos@[i as int]);
            lemma_pack_members_prefix(infos@, vs, o, i as int + 1);
            lemma_pack_members_prefix(infos@, vs, o, i as int);
        }
        if let ValueStorageMode::Packed(b, idx) = infos[i].mode {
            if b == o {
                let v = copy_range(values[i].as_slice(), 0, values[i].len());
                proof {
                    assert(values@[i as int]@.subrange(0, values@[i as int]@.len() as int) =~= vs[i as int]);
                }
                out.push((idx, v));
            }
        }
        i = i + 1;
        proof {
            assert(out@.map_values(|m: (u16, Vec<u8>)| (m.0, m.1@)) =~= pack_members(infos@.take(i as int), vs, o));
        }
    }
    proof {
        assert(infos@.take(infos@.len() as int) =~= infos@);
    }
    out
}

/// The members of a block met in the first `n` infos only look at the
/// first `n` values.
proof fn lemma_pack_members_prefix(infos: Seq<ValueInfo>, vs: Seq<Seq<u8>>, o: u64, n: int)
    requires
        0 <= n <= infos.len(),
        infos.len() == vs.len(),
    ensures
        pack_members(infos.take(n), vs, o) == pack_members(infos.take(n), vs.take(n), o),
    decreases n,
{
    if n > 0 {
        lemma_pack_members_prefix(infos, vs, o, n - 1);
        assert(infos.take(n).drop_last() =~= infos.take(n - 1));
        lemma_pack_members_values(infos.take(n - 1), vs, vs.take(n));
        lemma_pack_members_values(infos.take(n - 1), vs.take(n - 1), vs.take(n));
    }
}

/// The members of a block only look at the values the infos reach.
proof fn lemma_pack_members_values(infos: Seq<ValueInfo>, a: Seq<Seq<u8>>, b: Seq<Seq<u8>>)
    requires
        infos.len() <= a.len(),
        infos.len() <= b.len(),
        forall|i: int| 0 <= i < infos.len() ==> a[i] == b[i],
    ensures
        forall|o: u64| #[trigger] pack_members(infos, a, o) == pack_members(infos, b, o),
    decreases infos.len(),
{
    if infos.len() > 0 {
        lemma_pack_members_values(infos.drop_last(), a, b);
        assert forall|o: u64| #[trigger] pack_members(infos, a, o) == pack_members(infos, b, o) by {
            assert(pack_members(infos.drop_last(), a, o) == pack_members(infos.drop_last(), b, o));
            assert(a[infos.len() - 1] == b[infos.len() - 1]);
        }
    }
}

/// Sorts values by index, values of equal index keeping their order.
fn sort_members(s: Vec<(u16, Vec<u8>)>) -> (r: Vec<(u16, Vec<u8>)>)
    ensures
        r@.map_values(|m: (u16, Vec<u8>)| (m.0, m.1@)) == sort_by_index(
            s@.map_values(|m: (u16, Vec<u8>)| (m.0, m.1@)),
        ),
{
    let ghost sv = s@.map_values(|m: (u16, Vec<u8>)| (m.0, m.1@));
    let total: usize = s.len();
    let mut src = s;
    let mut rev: Vec<(u16, Vec<u8>)> = Vec::new();
    // take the items off the end, then insert them front to back
    while src.len() > 0
        invariant
            sv.len() == src@.len() + rev@.len(),
            forall|k: int| 0 <= k < src@.len() ==> (src@[k].0, src@[k].1@) == #[trigger] sv[k],
            forall|k: int| 0 <= k < rev@.len() ==> (rev@[k].0, rev@[k].1@) == #[trigger] sv[sv.len() - 1 - k],
        decreases src@.len(),
    {
        let x = src.pop().unwrap();
        rev.push(x);
    }
    let mut out: Vec<(u16, Vec<u8>)> = Vec::new();
    let mut n: usize = 0;
    while rev.len() > 0
        invariant
            n + rev@.len() == sv.len(),
            sv.len() == total,
            forall|k: int| 0 <= k < rev@.len() ==> (rev@[k].0, rev@[k].1@) == #[trigger] sv[sv.len() - 1 - k],
            out@.map_values(|m: (u16, Vec<u8>)| (m.0, m.1@)) == sort_by_index(sv.take(n as int)),
        decreases rev@.len(),
    {
        let ghost r0 = rev@;
        let x = rev.pop().unwrap();
        let ghost t = out@.map_values(|m: (u16, Vec<u8>)| (m.0, m.1@));
        proof {
            assert(x == r0[r0.len() - 1]);
            assert((r0[r0.len() - 1].0, r0[r0.len() - 1].1@) == sv[sv.len() - 1 - (r0.len() - 1)]);
            assert((x.0, x.1@) == sv[n as int]);
            assert(sv.take(n as int + 1).drop_last() =~= sv.take(n as int));
            assert(sv.take(n as int + 1).last() == sv[n as int]);
        }
        let mut pos: usize = out.len();
        proof {
            assert(t.take(pos as int) =~= t);
        }
        while pos > 0 && out[pos - 1].0 > x.0
            invariant
                pos <= out@.len(),
                t == out@.map_values(|m: (u16, Vec<u8>)| (m.0, m.1@)),
                insert_pos(t, x.0) == insert_pos(t.take(pos as int), x.0),
            decreases pos,
        {
            proof {
                assert(t.take(pos as int).drop_last() =~= t.take(pos - 1));
            }
            pos = pos - 1;
        }
        proof {
            if pos > 0 {
                assert(t.take(pos as int).last() == t[pos - 1]);
            }
            assert(insert_pos(t, x.0) == pos);
        }
        out.insert(pos, x);
        n = n + 1;
        proof {
            assert(out@.map_values(|m: (u16, Vec<u8>)| (m.0, m.1@)) =~= t.take(pos as int) + seq![sv[n - 1]]
                + t.skip(pos as int));
        }
    }
    proof {
        assert(sv.take(n as int) =~= sv);
    }
    out
}

/// An image of the file after `bytes` was written at offset `off`: gaps
/// before `off` read as zeros, bytes after the written ones stay.
pub open spec fn written_at(img: Seq<u8>, off: int, bytes: Seq<u8>) -> Seq<u8> {
    let base = if img.len() < off {
        img + zeros(off - img.len())
    } else {
        img
    };
    let tail = if base.len() > off + bytes.len() {
        base.subrange(off + bytes.len(), base.len() as int)
    } else {
        Seq::empty()
    };
    base.subrange(0, off) + bytes + tail
}

/// Writes `bytes` at `offset` into an in-memory image of the file.
pub fn write_at(img: &mut Vec<u8>, offset: usize, bytes: &[u8])
    requires
        offset + bytes@.len() <= usize::MAX,
    ensures
        final(img)@ == written_at(old(img)@, offset as int, bytes@),
{
    let ghost orig = img@;
    if img.len() < offset {
        let n = img.len();
        push_zeros(img, offset - n);
    }
    let ghost base = img@;
    proof {
        assert(base == if orig.len() < offset {
            orig + zeros(offset - orig.len())
        } else {
            orig
        });
    }
    let mut i: usize = 0;
    while i < bytes.len()
        invariant
            i <= bytes@.len(),
            offset + bytes@.len() <= usize::MAX,
            base.len() >= offset,
            img@.len() == if base.len() > offset + i { base.len() as int } else { offset + i },
            forall|k: int| 0 <= k < offset ==> #[trigger] img@[k] == base[k],
            forall|k: int| 0 <= k < i ==> #[trigger] img@[offset + k] == bytes@[k],
            forall|k: int| offset + i <= k < img@.len() ==> #[trigger] img@[k] == base[k],
        decreases bytes@.len() - i,
    {
        if offset + i < img.len() {
            img.set(offset + i, bytes[i]);
        } else {
            img.push(bytes[i]);
        }
        i = i + 1;
    }
    proof {
        let w = written_at(orig, offset as int, bytes@);
        assert(w.len() == img@.len());
        assert forall|k: int| 0 <= k < img@.len() implies img@[k] == w[k] by {
            if k < offset {
                assert(img@[k] == base[k]);
            } else if k < offset + bytes@.len() {
                assert(img@[offset + (k - offset)] == bytes@[k - offset]);
            } else {
                assert(img@[k] == base[k]);
            }
        }
        assert(img@ =~= w);
    }
}

/// The next free offset after placing the values of a leaf from `start`,
/// or `None` where it passes the range of `u64`.
pub fn placed_end(infos: &[ValueInfo], start: u64) -> (r: Option<u64>)
    ensures
        r matches Some(e) ==> e == place_after(info_items(infos@), start as int).1,
        r is None ==> place_after(info_items(infos@), start as int).1 > u64::MAX,
{
    let ghost items = info_items(infos@);
    broadcast use vstd::std_specs::hash::group_hash_axioms;
    // the offset given to each packed block number met so far
    let mut packs: HashMap<u64, u64> = HashMap::new();
    let ghost mut ps: Seq<(u64, u64)> = Seq::empty();
    let mut cur: u64 = start;
    let mut i: usize = 0;
    while i < infos.len()
        invariant
            i <= infos@.len(),
            items == info_items(infos@),
            (ps, cur as int) == place_after(items.take(i as int), start as int),
            forall|p: u64| #[trigger] packs@.contains_key(p) <==> find_pack(ps, p) is Some,
        decreases infos@.len() - i,
    {
        proof {
            assert(items.take(i as int + 1).drop_last() =~= items.take(i as int));
            assert(items.take(i as int + 1).last() == items[i as int]);
        }
        match infos[i].mode {
            ValueStorageMode::Packed(p, _) => {
                if !packs.contains_key(&p) {
                    if cur > u64::MAX - 4096 {
                        proof {
                            lemma_place_grows(items, start as int, i as int + 1, 0);
                        }
                        return None;
                    }
                    let ghost old_ps = ps;
                    packs.insert(p, cur);
                    proof {
                        ps = ps.push((p, cur));
                        assert(ps.drop_last() =~= old_ps);
                    }
                    cur = cur + 4096;
                }
            },
            ValueStorageMode::Single(o) => {
                if o == UNPLACED {
                    let len = infos[i].length as u64;
                    if cur > u64::MAX - len {
                        proof {
                            lemma_place_grows(items, start as int, i as int + 1, 0);
                        }
                        return None;
                    }
                    cur = cur + len;
                }
            },
        }
        i = i + 1;
    }
    proof {
        assert(items.take(infos@.len() as int) =~= items);
    }
    Some(cur)
}

/// Values of a packed block whose indices count up from 0 in order.
pub open spec fn consecutive(pm: Seq<(u16, Seq<u8>)>) -> bool {
    forall|t: int| 0 <= t < pm.len() ==> (#[trigger] pm[t]).0 == t
}

/// The packed blocks of a plan: blocks before the current one are closed,
/// hold indices counting up from 0 and fit a block; the current one holds
/// as many values as its next index and uses as many bytes as the state
/// says; no value is in a later block.
proof fn lemma_plan_packs(plan: Seq<ValueInfo>, vals: Seq<Seq<u8>>, n: int)
    requires
        plan.len() == vals.len(),
        vals.len() < u32::MAX,
        forall|k: int| 0 <= k < plan.len() ==> #[trigger] plan_holds(plan, vals, k),
        0 <= n <= vals.len(),
    ensures
        ({
            let (c, idx, size) = plan_after(vals.take(n));
            &&& forall|q: u64| q > c ==> #[trigger] pack_members(plan.take(n), vals, q).len() == 0
            &&& consecutive(pack_members(plan.take(n), vals, c as u64))
            &&& pack_members(plan.take(n), vals, c as u64).len() == idx
            &&& 4 + packed_values_bytes(member_bytes(pack_members(plan.take(n), vals, c as u64))).len()
                == size
            &&& forall|q: u64|
                q < c ==> consecutive(#[trigger] pack_members(plan.take(n), vals, q)) && 4
                    + packed_values_bytes(member_bytes(pack_members(plan.take(n), vals, q))).len()
                    <= BLOCK_SIZE
        }),
    decreases n,
{
    if n == 0 {
        assert(plan.take(0) =~= Seq::<ValueInfo>::empty());
        assert(member_bytes(Seq::<(u16, Seq<u8>)>::empty()) =~= Seq::<Seq<u8>>::empty());
    } else {
        let m = n - 1;
        lemma_plan_packs(plan, vals, m);
        lemma_plan_bounds(vals.take(m));
        let (c, idx, size) = plan_after(vals.take(m));
        let v = vals[m];
        assert(vals.take(n).drop_last() =~= vals.take(m));
        assert(vals.take(n).last() == v);
        assert(plan.take(n).drop_last() =~= plan.take(m));
        assert(plan.take(n).last() == plan[m]);
        assert(vals.take(m + 1).take(m) =~= vals.take(m));
        assert(plan_holds(plan, vals, m));
        assert(planned(vals, m) == plan_step(plan_after(vals.take(m)), vals[m]).0);
        let pre = plan.take(m);
        let cur = plan.take(n);
        if v.len() <= SMALL_VALUE_THRESHOLD {
            let e = PACK_VALUE_HEADER_SIZE + v.len();
            if size + e <= BLOCK_SIZE {
                assert(plan[m].mode == ValueStorageMode::Packed(c as u64, idx as u16));
                let old_pm = pack_members(pre, vals, c as u64);
                let new_pm = pack_members(cur, vals, c as u64);
                assert(new_pm == old_pm.push((idx as u16, v)));
                assert(member_bytes(new_pm) =~= member_bytes(old_pm).push(v));
                assert(member_bytes(new_pm).drop_last() =~= member_bytes(old_pm));
                assert(member_bytes(new_pm).last() == v);
                assert(packed_values_bytes(member_bytes(new_pm)).len() == packed_values_bytes(
                    member_bytes(old_pm),
                ).len() + 4 + v.len());
                assert(plan_after(vals.take(n)) == (c, idx + 1, size + e));
                assert forall|q: u64| q != c implies #[trigger] pack_members(cur, vals, q) == pack_members(
                    pre,
                    vals,
                    q,
                ) by {}
            } else {
                assert(plan[m].mode == ValueStorageMode::Packed((c + 1) as u64, 0));
                let old_pm = pack_members(pre, vals, (c + 1) as u64);
                assert(old_pm.len() == 0);
                let new_pm = pack_members(cur, vals, (c + 1) as u64);
                assert(new_pm =~= seq![(0u16, v)]);
                assert(member_bytes(new_pm) =~= seq![v]);
                assert(member_bytes(new_pm).drop_last() =~= Seq::<Seq<u8>>::empty());
                assert(member_bytes(new_pm).last() == v);
                assert(packed_values_bytes(Seq::<Seq<u8>>::empty()).len() == 0);
                assert(packed_values_bytes(member_bytes(new_pm)).len() == 4 + v.len());
                assert(plan_after(vals.take(n)) == (c + 1, 1int, 4 + e));
                assert forall|q: u64| q != c + 1 implies #[trigger] pack_members(cur, vals, q) == pack_members(
                    pre,
                    vals,
                    q,
                ) by {}
            }
        } else {
            assert(plan[m].mode == ValueStorageMode::Single(UNPLACED));
            assert forall|q: u64| #[trigger] pack_members(cur, vals, q) == pack_members(pre, vals, q) by {}
        }
    }
}

/// A value of a packed block is among the block's members.
proof fn lemma_pack_members_has(infos: Seq<ValueInfo>, vals: Seq<Seq<u8>>, i: int, n: int)
    requires
        0 <= i < n <= infos.len(),
        infos[i].mode is Packed,
    ensures
        pack_members(infos.take(n), vals, infos[i].mode->Packed_0).contains((infos[i].mode->Packed_1, vals[i])),
    decreases n,
{
    let p = infos[i].mode->Packed_0;
    let t = infos.take(n);
    assert(t.drop_last() =~= infos.take(n - 1));
    assert(t.last() == infos[n - 1]);
    if i == n - 1 {
        let pm = pack_members(t, vals, p);
        assert(pm.last() == (infos[i].mode->Packed_1, vals[i]));
        assert(pm[pm.len() - 1] == (infos[i].mode->Packed_1, vals[i]));
    } else {
        lemma_pack_members_has(infos, vals, i, n - 1);
        let before = pack_members(infos.take(n - 1), vals, p);
        let k = choose|k: int| 0 <= k < before.len() && before[k] == (infos[i].mode->Packed_1, vals[i]);
        match t.last().mode {
            ValueStorageMode::Packed(b, idx) => {
                if b == p {
                    assert(pack_members(t, vals, p)[k] == before[k]);
                }
            },
            ValueStorageMode::Single(_) => {},
        }
    }
}

/// Values already in index order stay as they are when sorted by index.
proof fn lemma_sort_consecutive(pm: Seq<(u16, Seq<u8>)>)
    requires
        consecutive(pm),
    ensures
        sort_by_index(pm) == pm,
    decreases pm.len(),
{
    if pm.len() > 0 {
        let d = pm.drop_last();
        assert(consecutive(d)) by {
            assert forall|t: int| 0 <= t < d.len() implies (#[trigger] d[t]).0 == t by {
                assert(d[t] == pm[t]);
            }
        }
        lemma_sort_consecutive(d);
        if d.len() > 0 {
            assert(d.last() == pm[d.len() - 1]);
            assert(d.last().0 == d.len() - 1);
            assert(pm.last().0 == pm.len() - 1);
        }
        assert(insert_pos(d, pm.last().0) == d.len());
        assert(d.take(d.len() as int) + seq![pm.last()] + d.skip(d.len() as int) =~= pm);
    }
}

/// What `find_pack` finds is an entry of the list; what it does not find is
/// in no entry.
proof fn lemma_find_pack_entry(ps: Seq<(u64, u64)>, p: u64)
    ensures
        find_pack(ps, p) matches Some(o) ==> exists|a: int| 0 <= a < ps.len() && #[trigger] ps[a] == (p, o),
        find_pack(ps, p) is None ==> forall|a: int| 0 <= a < ps.len() ==> (#[trigger] ps[a]).0 != p,
    decreases ps.len(),
{
    if ps.len() > 0 {
        lemma_find_pack_entry(ps.drop_last(), p);
        if ps.last().0 == p {
            assert(ps[ps.len() - 1] == (p, ps.last().1));
        } else if let Some(o) = find_pack(ps.drop_last(), p) {
            let a = choose|a: int| 0 <= a < ps.drop_last().len() && ps.drop_last()[a] == (p, o);
            assert(ps[a] == (p, o));
        } else {
            assert forall|a: int| 0 <= a < ps.len() implies (#[trigger] ps[a]).0 != p by {
                if a < ps.len() - 1 {
                    assert(ps[a] == ps.drop_last()[a]);
                }
            }
        }
    }
}

/// Placing gives packed blocks offsets that grow strictly, each a whole
/// block before the next free offset, to block numbers met once each.
proof fn lemma_place_distinct(items: Seq<(ValueStorageMode, u32)>, start: int)
    requires
        0 <= start,
        place_after(items, start).1 <= u64::MAX,
    ensures
        ({
            let (ps, cur) = place_after(items, start);
            &&& cur >= start
            &&& forall|a: int, b: int| 0 <= a < b < ps.len() ==> (#[trigger] ps[a]).1 < (#[trigger] ps[b]).1
            &&& forall|a: int, b: int| 0 <= a < b < ps.len() ==> (#[trigger] ps[a]).0 != (#[trigger] ps[b]).0
            &&& forall|a: int| 0 <= a < ps.len() ==> (#[trigger] ps[a]).1 + BLOCK_SIZE <= cur
        }),
    decreases items.len(),
{
    if items.len() > 0 {
        lemma_place_grows(items, start, items.len() - 1, 0);
        assert(items.take(items.len() - 1) =~= items.drop_last());
        lemma_place_distinct(items.drop_last(), start);
        let (ps, cur) = place_after(items.drop_last(), start);
        if let ValueStorageMode::Packed(p, _) = items.last().0 {
            if find_pack(ps, p) is None {
                lemma_find_pack_entry(ps, p);
                let ps2 = ps.push((p, cur as u64));
                assert forall|a: int, b: int| 0 <= a < b < ps2.len() implies (#[trigger] ps2[a]).1 < (
                #[trigger] ps2[b]).1 by {
                    if b == ps.len() {
                        assert(ps2[a] == ps[a]);
                    }
                }
                assert forall|a: int, b: int| 0 <= a < b < ps2.len() implies (#[trigger] ps2[a]).0 != (
                #[trigger] ps2[b]).0 by {
                    if b == ps.len() {
                        assert(ps2[a] == ps[a]);
                    }
                }
            }
        }
    }
}

/// The offset of a block number once placed.
pub open spec fn pack_offset_of(items: Seq<(ValueStorageMode, u32)>, start: int, p: u64) -> u64 {
    find_pack(place_after(items, start).0, p).unwrap()
}

/// Two block numbers that were placed at the same offset are the same.
proof fn lemma_pack_offset_injective(items: Seq<(ValueStorageMode, u32)>, start: int, p: u64, q: u64)
    requires
        0 <= start,
        place_after(items, start).1 <= u64::MAX,
        find_pack(place_after(items, start).0, p) is Some,
        find_pack(place_after(items, start).0, q) is Some,
        pack_offset_of(items, start, p) == pack_offset_of(items, start, q),
    ensures
        p == q,
{
    let ps = place_after(items, start).0;
    lemma_place_distinct(items, start);
    lemma_find_pack_entry(ps, p);
    lemma_find_pack_entry(ps, q);
    let o = pack_offset_of(items, start, p);
    let a = choose|a: int| 0 <= a < ps.len() && ps[a] == (p, o);
    let b = choose|b: int| 0 <= b < ps.len() && ps[b] == (q, o);
    if a < b {
        assert(ps[a].1 < ps[b].1);
    } else if b < a {
        assert(ps[b].1 < ps[a].1);
    }
}

/// After placing, the members of the block at the offset of block number
/// `p` are those that block number `p` had.
proof fn lemma_placed_members(
    plan: Seq<ValueInfo>,
    placed: Seq<ValueInfo>,
    vals: Seq<Seq<u8>>,
    start: int,
    p: u64,
    n: int,
)
    requires
        plan.len() == placed.len(),
        0 <= n <= plan.len(),
        0 <= start,
        place_after(info_items(plan), start).1 <= u64::MAX,
        forall|k: int|
            0 <= k < plan.len() ==> (#[trigger] placed[k]).mode == placed_mode(info_items(plan), start, k),
        find_pack(place_after(info_items(plan), start).0, p) is Some,
    ensures
        pack_members(placed.take(n), vals, pack_offset_of(info_items(plan), start, p)) == pack_members(
            plan.take(n),
            vals,
            p,
        ),
    decreases n,
{
    let items = info_items(plan);
    let o = pack_offset_of(items, start, p);
    if n == 0 {
        assert(placed.take(0) =~= Seq::<ValueInfo>::empty());
        assert(plan.take(0) =~= Seq::<ValueInfo>::empty());
    } else {
        lemma_placed_members(plan, placed, vals, start, p, n - 1);
        let j = n - 1;
        assert(placed.take(n).drop_last() =~= placed.take(j));
        assert(placed.take(n).last() == placed[j]);
        assert(plan.take(n).drop_last() =~= plan.take(j));
        assert(plan.take(n).last() == plan[j]);
        assert(items[j] == (plan[j].mode, plan[j].length));
        match plan[j].mode {
            ValueStorageMode::Packed(q, idx) => {
                lemma_place_covers(items, start, j);
                assert(placed[j].mode == ValueStorageMode::Packed(pack_offset_of(items, start, q), idx));
                if pack_offset_of(items, start, q) == o {
                    lemma_pack_offset_injective(items, start, p, q);
                }
            },
            ValueStorageMode::Single(_) => {},
        }
    }
}

/// The record a leaf writes for a value stored alone, as planned: as long as
/// its info says, and it reads back as the value.
proof fn lemma_single_record_reads_back(info: ValueInfo, raw: Seq<u8>)
    requires
        raw.len() > SMALL_VALUE_THRESHOLD,
        raw.len() <= u32::MAX,
        info.length == 1 + compression_choice(raw).1.len(),
        info.compressed_cache is Some <==> compression_choice(raw).0 == COMPRESSION_FLAG_LZ4,
        info.compressed_cache matches Some((f, payload)) ==> f == compression_choice(raw).0
            && payload@ == compression_choice(raw).1 && lz4_decompressed(payload@) == Some(raw),
    ensures
        single_record(info, raw).len() == info.length,
        parse_value_record(single_record(info, raw)) == Ok::<Seq<u8>, TreeFormatError>(raw),
{
    let rec = single_record(info, raw);
    match info.compressed_cache {
        Some((f, payload)) => {
            assert(rec.subrange(1, rec.len() as int) =~= payload@);
        },
        None => {
            assert(rec.subrange(1, rec.len() as int) =~= raw);
        },
    }
}

/// The writes of the values stored alone hold one for value `i`.
proof fn lemma_single_write_present(infos: Seq<ValueInfo>, vals: Seq<Seq<u8>>, i: int)
    requires
        0 <= i < infos.len(),
        infos[i].mode is Single,
    ensures
        single_writes(infos, vals).contains((infos[i].mode->Single_0, single_record(infos[i], vals[i]))),
    decreases infos.len(),
{
    let w = (infos[i].mode->Single_0, single_record(infos[i], vals[i]));
    if i == infos.len() - 1 {
        let ws = single_writes(infos, vals);
        assert(ws[ws.len() - 1] == w);
    } else {
        lemma_single_write_present(infos.drop_last(), vals, i);
        assert(infos.drop_last()[i] == infos[i]);
        let before = single_writes(infos.drop_last(), vals);
        let k = choose|k: int| 0 <= k < before.len() && before[k] == w;
        match infos.last().mode {
            ValueStorageMode::Single(_) => {
                assert(single_writes(infos, vals)[k] == before[k]);
            },
            ValueStorageMode::Packed(_, _) => {},
        }
    }
}

/// A block offset met in the infos is among the offsets of the packed blocks.
proof fn lemma_pack_offset_listed(infos: Seq<ValueInfo>, i: int)
    requires
        0 <= i < infos.len(),
        infos[i].mode is Packed,
    ensures
        pack_offsets(infos).contains(infos[i].mode->Packed_0),
    decreases infos.len(),
{
    let o = infos[i].mode->Packed_0;
    let rest = pack_offsets(infos.drop_last());
    if i == infos.len() - 1 {
        if !rest.contains(o) {
            assert(rest.push(o)[rest.len() as int] == o);
        }
    } else {
        lemma_pack_offset_listed(infos.drop_last(), i);
        assert(infos.drop_last()[i] == infos[i]);
        let k = choose|k: int| 0 <= k < rest.len() && rest[k] == o;
        match infos.last().mode {
            ValueStorageMode::Packed(b, _) => {
                if !rest.contains(b) {
                    assert(rest.push(b)[k] == o);
                }
            },
            ValueStorageMode::Single(_) => {},
        }
    }
}

/// What the file gives back of a leaf's values: once the values of a leaf
/// are planned and placed, the leaf's writes hold, for a value stored
/// alone, a record at its offset that is as long as its info says and
/// reads back as the value, and for a packed value, a block at its offset
/// that fits one block and whose value at the value's index is the value.
pub proof fn lemma_leaf_value_reads_back(
    plan: Seq<ValueInfo>,
    placed: Seq<ValueInfo>,
    vals: Seq<Seq<u8>>,
    start: int,
    i: int,
)
    requires
        plan.len() == vals.len(),
        placed.len() == vals.len(),
        vals.len() < u32::MAX,
        forall|k: int| 0 <= k < plan.len() ==> #[trigger] plan_holds(plan, vals, k),
        forall|k: int|
            0 <= k < plan.len() ==> {
                &&& (#[trigger] placed[k]).mode == placed_mode(info_items(plan), start, k)
                &&& placed[k].length == plan[k].length
                &&& placed[k].compressed_cache == plan[k].compressed_cache
            },
        0 <= i < vals.len(),
        vals[i].len() <= u32::MAX,
        0 <= start,
        place_after(info_items(plan), start).1 <= u64::MAX,
    ensures
        match placed[i].mode {
            ValueStorageMode::Single(o) => {
                let rec = single_record(placed[i], vals[i]);
                &&& single_writes(placed, vals).contains((o, rec))
                &&& rec.len() == placed[i].length
                &&& parse_value_record(rec) == Ok::<Seq<u8>, TreeFormatError>(vals[i])
            },
            ValueStorageMode::Packed(o, idx) => {
                let members = member_bytes(sort_by_index(pack_members(placed, vals, o)));
                &&& pack_writes(placed, vals).contains((o, packed_block_bytes(members)))
                &&& 4 + packed_values_bytes(members).len() <= BLOCK_SIZE
                &&& packed_value_at(packed_block_bytes(members), 4, idx as int) == Ok::<
                    Seq<u8>,
                    TreeFormatError,
                >(vals[i])
            },
        },
{
    let items = info_items(plan);
    assert(plan_holds(plan, vals, i));
    assert(items[i] == (plan[i].mode, plan[i].length));
    assert(plan.take(plan.len() as int) =~= plan);
    assert(placed.take(placed.len() as int) =~= placed);
    assert(vals.take(vals.len() as int) =~= vals);
    if vals[i].len() > SMALL_VALUE_THRESHOLD {
        assert(plan[i].mode == ValueStorageMode::Single(UNPLACED));
        lemma_single_record_reads_back(placed[i], vals[i]);
        lemma_single_write_present(placed, vals, i);
    } else {
        let p = plan[i].mode->Packed_0;
        let idx = plan[i].mode->Packed_1;
        lemma_place_covers(items, start, i);
        let o = pack_offset_of(items, start, p);
        assert(placed[i].mode == ValueStorageMode::Packed(o, idx));
        lemma_placed_members(plan, placed, vals, start, p, plan.len() as int);
        let pm = pack_members(plan, vals, p);
        assert(pack_members(placed, vals, o) == pm);
        lemma_plan_packs(plan, vals, vals.len() as int);
        lemma_plan_bounds(vals);
        lemma_pack_members_has(plan, vals, i, plan.len() as int);
        let t = choose|t: int| 0 <= t < pm.len() && pm[t] == (idx, vals[i]);
        let (c, nidx, size) = plan_after(vals);
        if p > c {
            assert(pack_members(plan.take(vals.len() as int), vals, p).len() == 0);
        }
        assert(consecutive(pm));
        assert(pm[t].0 == t);
        lemma_sort_consecutive(pm);
        let members = member_bytes(pm);
        assert(4 + packed_values_bytes(members).len() <= BLOCK_SIZE);
        assert(members[idx as int] == vals[i]);
        lemma_packed_block_roundtrip(members, idx as int);
        lemma_pack_offset_listed(placed, i);
        let offs = pack_offsets(placed);
        let k = choose|k: int| 0 <= k < offs.len() && offs[k] == o;
        assert(pack_writes(placed, vals)[k] == (o, packed_block_bytes(members)));
    }
}


/// The mode and stored length each value of a leaf holding `vals` is
/// planned with, in order.
pub open spec fn plan_items(vals: Seq<Seq<u8>>) -> Seq<(ValueStorageMode, u32)> {
    Seq::new(vals.len(), |k: int| (planned(vals, k).0, planned(vals, k).1 as u32))
}

/// The infos of a leaf holding `vals` once planned and placed from `start`:
/// each with its placed mode and planned length, and for a value stored
/// alone and compressed, the flag and payload, which decompress to the value.
pub open spec fn leaf_placed(placed: Seq<ValueInfo>, vals: Seq<Seq<u8>>, start: int) -> bool {
    &&& placed.len() == vals.len()
    &&& forall|k: int|
        0 <= k < vals.len() ==> {
            let c = compression_choice(vals[k]);
            &&& (#[trigger] placed[k]).mode == placed_mode(plan_items(vals), start, k)
            &&& placed[k].length == planned(vals, k).1
            &&& placed[k].compressed_cache is Some <==> (vals[k].len() > SMALL_VALUE_THRESHOLD && c.0
                == COMPRESSION_FLAG_LZ4)
            &&& placed[k].compressed_cache matches Some((f, payload)) ==> f == c.0 && payload@ == c.1 && (
            vals[k].len() <= u32::MAX ==> lz4_decompressed(payload@) == Some(vals[k]))
        }
}

/// The value that `info` describes reads back from `img` as `val`: a value
/// stored alone from its record of the stored length at its offset, a packed
/// value from the block at its offset, at its index.
pub open spec fn value_reads_back(img: Seq<u8>, info: ValueInfo, val: Seq<u8>) -> bool {
    match info.mode {
        ValueStorageMode::Single(o) => {
            &&& info.length >= 1
            &&& o + info.length <= img.len()
            &&& parse_value_record(img.subrange(o as int, o + info.length)) == Ok::<Seq<u8>, TreeFormatError>(
                val,
            )
        },
        ValueStorageMode::Packed(o, idx) => {
            &&& o + BLOCK_SIZE <= img.len()
            &&& packed_value_at(img.subrange(o as int, o + BLOCK_SIZE), 4, idx as int) == Ok::<
                Seq<u8>,
                TreeFormatError,
            >(val)
        },
    }
}

/// The record of a value stored alone stands in `img` at its offset.
spec fn single_stands(img: Seq<u8>, info: ValueInfo, raw: Seq<u8>) -> bool {
    let o = info.mode->Single_0;
    let rec = single_record(info, raw);
    &&& o + rec.len() <= img.len()
    &&& img.subrange(o as int, o + rec.len()) == rec
}

/// The packed block at offset `o` stands in `img` there.
spec fn pack_stands(img: Seq<u8>, infos: Seq<ValueInfo>, vals: Seq<Seq<u8>>, o: u64) -> bool {
    &&& o + BLOCK_SIZE <= img.len()
    &&& img.subrange(o as int, o + BLOCK_SIZE) == packed_block_bytes(
        member_bytes(sort_by_index(pack_members(infos, vals, o))),
    )
}

/// Bytes that stand in a prefix of an image stand there after more bytes
/// are appended.
proof fn lemma_append_keeps(img: Seq<u8>, more: Seq<u8>, a: int, b: int)
    requires
        0 <= a <= b <= img.len(),
    ensures
        (img + more).subrange(a, b) == img.subrange(a, b),
{
    assert((img + more).subrange(a, b) =~= img.subrange(a, b));
}

/// The packed block at offset `o` of a leaf: its values sorted by index.
fn pack_block_at(infos: &[ValueInfo], values: &[Vec<u8>], o: u64) -> (r: Vec<u8>)
    requires
        infos@.len() == values@.len(),
        4 + packed_values_bytes(member_bytes(sort_by_index(pack_members(infos@, views(values@), o)))).len()
            <= BLOCK_SIZE,
    ensures
        r@ == packed_block_bytes(member_bytes(sort_by_index(pack_members(infos@, views(values@), o)))),
        r@.len() == BLOCK_SIZE,
{
    let members = pack_members_of(infos, values, o);
    let sorted = sort_members(members);
    let mut bytes_list: Vec<Vec<u8>> = Vec::new();
    let mut k: usize = 0;
    while k < sorted.len()
        invariant
            k <= sorted@.len(),
            bytes_list@.len() == k,
            forall|m: int| 0 <= m < k ==> (#[trigger] bytes_list@[m])@ == sorted@[m].1@,
        decreases sorted@.len() - k,
    {
        let b = copy_range(sorted[k].1.as_slice(), 0, sorted[k].1.len());
        proof {
            assert(sorted@[k as int].1@.subrange(0, sorted@[k as int].1@.len() as int) =~= sorted@[k as int].1@);
        }
        bytes_list.push(b);
        k = k + 1;
    }
    let ghost sv = sort_by_index(pack_members(infos@, views(values@), o));
    proof {
        assert(views(bytes_list@) =~= member_bytes(sv));
    }
    encode_packed_block(bytes_list.as_slice())
}

/// The infos a leaf's values were planned with, before they were placed.
spec fn leaf_plan(placed: Seq<ValueInfo>, vs: Seq<Seq<u8>>) -> Seq<ValueInfo> {
    let items = plan_items(vs);
    Seq::new(
        vs.len(),
        |k: int| ValueInfo { mode: items[k].0, length: items[k].1, compressed_cache: placed[k].compressed_cache },
    )
}

/// The plan of placed infos is the one `plan_leaf_values` makes, and the
/// infos were placed from it.
proof fn lemma_leaf_plan(placed: Seq<ValueInfo>, vs: Seq<Seq<u8>>, start: int)
    requires
        leaf_placed(placed, vs, start),
    ensures
        info_items(leaf_plan(placed, vs)) == plan_items(vs),
        leaf_plan(placed, vs).len() == vs.len(),
        forall|m: int| 0 <= m < vs.len() ==> #[trigger] plan_holds(leaf_plan(placed, vs), vs, m),
        forall|k: int|
            0 <= k < vs.len() ==> {
                &&& (#[trigger] placed[k]).mode == placed_mode(info_items(leaf_plan(placed, vs)), start, k)
                &&& placed[k].length == leaf_plan(placed, vs)[k].length
                &&& placed[k].compressed_cache == leaf_plan(placed, vs)[k].compressed_cache
            },
{
    let plan = leaf_plan(placed, vs);
    assert(info_items(plan) =~= plan_items(vs));
    assert forall|m: int| 0 <= m < vs.len() implies #[trigger] plan_holds(plan, vs, m) by {
        assert(placed[m].length == planned(vs, m).1);
    }
}

/// The values of the first `k` infos of a leaf were appended to `img`: it
/// ends where placing them ended, the records of those stored alone stand at
/// their offsets, and each packed block placed so far stands at its offset.
#[verifier::opaque]
spec fn appended_upto(img: Seq<u8>, placed: Seq<ValueInfo>, vs: Seq<Seq<u8>>, start: int, k: int) -> bool {
    let items = plan_items(vs);
    &&& img.len() == place_after(items.take(k), start).1
    &&& forall|m: int| 0 <= m < k && (#[trigger] placed[m]).mode is Single ==> single_stands(img, placed[m], vs[m])
    &&& forall|p: u64|
        #![trigger find_pack(place_after(items.take(k), start).0, p)]
        find_pack(place_after(items.take(k), start).0, p) matches Some(o) ==> pack_stands(img, placed, vs, o)
}

proof fn lemma_appended_start(img: Seq<u8>, placed: Seq<ValueInfo>, vs: Seq<Seq<u8>>)
    ensures
        appended_upto(img, placed, vs, img.len() as int, 0),
{
    reveal(appended_upto);
    assert(plan_items(vs).take(0) =~= Seq::<(ValueStorageMode, u32)>::empty());
}

/// Appending the record of value `k`, stored alone, takes the area one
/// value further.
proof fn lemma_append_single(
    before: Seq<u8>,
    rec: Seq<u8>,
    placed: Seq<ValueInfo>,
    vs: Seq<Seq<u8>>,
    start: int,
    k: int,
)
    requires
        0 <= start,
        0 <= k < vs.len(),
        leaf_placed(placed, vs, start),
        place_after(plan_items(vs), start).1 <= u64::MAX,
        appended_upto(before, placed, vs, start, k),
        placed[k].mode is Single,
        rec == single_record(placed[k], vs[k]),
    ensures
        appended_upto(before + rec, placed, vs, start, k + 1),
        placed[k].mode->Single_0 == before.len(),
{
    reveal(appended_upto);
    let items = plan_items(vs);
    let cur = before.len() as int;
    let img = before + rec;
    assert(items.take(k + 1).drop_last() =~= items.take(k));
    assert(items.take(k + 1).last() == items[k]);
    assert(placed[k].mode == placed_mode(items, start, k));
    assert(items[k].0 == ValueStorageMode::Single(UNPLACED));
    lemma_place_grows(items, start, k, 0);
    assert(placed[k].mode->Single_0 == cur);
    let c = compression_choice(vs[k]);
    match placed[k].compressed_cache {
        Some((f, payload)) => {
            assert(rec.len() == 1 + c.1.len());
        },
        None => {
            assert(c.1 == vs[k]);
        },
    }
    assert(rec.len() == items[k].1);
    let ps = place_after(items.take(k), start).0;
    assert(place_after(items.take(k + 1), start).0 == ps);
    assert(img.subrange(cur, cur + rec.len()) =~= rec);
    assert forall|m: int| 0 <= m < k + 1 && (#[trigger] placed[m]).mode is Single implies single_stands(
        img,
        placed[m],
        vs[m],
    ) by {
        if m < k {
            let om = placed[m].mode->Single_0;
            let r = single_record(placed[m], vs[m]);
            lemma_append_keeps(before, rec, om as int, om + r.len());
        }
    }
    assert forall|p: u64|
        #![trigger find_pack(place_after(items.take(k + 1), start).0, p)]
        find_pack(place_after(items.take(k + 1), start).0, p) is Some implies pack_stands(
            img,
            placed,
            vs,
            find_pack(place_after(items.take(k + 1), start).0, p)->Some_0,
        ) by {
        let op = find_pack(ps, p)->Some_0;
        assert(pack_stands(before, placed, vs, op));
        lemma_append_keeps(before, rec, op as int, op + BLOCK_SIZE);
    }
}

/// A packed value's block was placed at the current end of the area when it
/// is the first of its block; the block then fits one block. Otherwise the
/// block already stands and nothing is appended.
proof fn lemma_pack_turn(img: Seq<u8>, placed: Seq<ValueInfo>, vs: Seq<Seq<u8>>, start: int, k: int)
    requires
        0 <= start,
        0 <= k < vs.len(),
        vs.len() < u32::MAX,
        leaf_placed(placed, vs, start),
        place_after(plan_items(vs), start).1 <= u64::MAX,
        appended_upto(img, placed, vs, start, k),
        placed[k].mode is Packed,
    ensures
        placed[k].mode->Packed_0 != img.len() ==> appended_upto(img, placed, vs, start, k + 1),
        placed[k].mode->Packed_0 == img.len() ==> 4 + packed_values_bytes(
            member_bytes(sort_by_index(pack_members(placed, vs, placed[k].mode->Packed_0))),
        ).len() <= BLOCK_SIZE,
        placed[k].mode->Packed_0 == img.len() ==> find_pack(
            place_after(plan_items(vs).take(k), start).0,
            plan_items(vs)[k].0->Packed_0,
        ) is None,
{
    reveal(appended_upto);
    let items = plan_items(vs);
    let cur = img.len() as int;
    let ps = place_after(items.take(k), start).0;
    let o = placed[k].mode->Packed_0;
    assert(items.take(k + 1).drop_last() =~= items.take(k));
    assert(items.take(k + 1).last() == items[k]);
    assert(placed[k].mode == placed_mode(items, start, k));
    let p = items[k].0->Packed_0;
    lemma_find_pack_entry(ps, p);
    lemma_place_grows(items, start, k, p);
    lemma_place_grows(items, start, k + 1, p);
    if let Some(op) = find_pack(ps, p) {
        assert(pack_stands(img, placed, vs, op));
        assert(o == op);
        assert(place_after(items.take(k + 1), start) == place_after(items.take(k), start));
        assert forall|m: int| 0 <= m < k + 1 && (#[trigger] placed[m]).mode is Single implies single_stands(
            img,
            placed[m],
            vs[m],
        ) by {
            if m == k {
                assert(placed[m].mode is Packed);
            }
        }
    } else {
        assert(find_pack(ps.push((p, cur as u64)), p) == Some(cur as u64));
        assert(o == cur);
        assert(vs[k].len() <= SMALL_VALUE_THRESHOLD);
        lemma_leaf_plan(placed, vs, start);
        lemma_leaf_value_reads_back(leaf_plan(placed, vs), placed, vs, start, k);
    }
}

/// Appending the block of a packed value that is the first of its block
/// takes the area one value further.
proof fn lemma_append_pack(
    before: Seq<u8>,
    block: Seq<u8>,
    placed: Seq<ValueInfo>,
    vs: Seq<Seq<u8>>,
    start: int,
    k: int,
)
    requires
        0 <= start,
        0 <= k < vs.len(),
        leaf_placed(placed, vs, start),
        appended_upto(before, placed, vs, start, k),
        placed[k].mode is Packed,
        placed[k].mode->Packed_0 == before.len(),
        find_pack(place_after(plan_items(vs).take(k), start).0, plan_items(vs)[k].0->Packed_0) is None,
        block == packed_block_bytes(member_bytes(sort_by_index(pack_members(placed, vs, before.len() as u64)))),
        block.len() == BLOCK_SIZE,
    ensures
        appended_upto(before + block, placed, vs, start, k + 1),
{
    reveal(appended_upto);
    let items = plan_items(vs);
    let cur = before.len() as int;
    let img = before + block;
    let ps = place_after(items.take(k), start).0;
    assert(items.take(k + 1).drop_last() =~= items.take(k));
    assert(items.take(k + 1).last() == items[k]);
    assert(placed[k].mode == placed_mode(items, start, k));
    let p = items[k].0->Packed_0;
    let nps = ps.push((p, cur as u64));
    assert(place_after(items.take(k + 1), start).0 == nps);
    assert(img.subrange(cur, cur + BLOCK_SIZE) =~= block);
    assert forall|m: int| 0 <= m < k + 1 && (#[trigger] placed[m]).mode is Single implies single_stands(
        img,
        placed[m],
        vs[m],
    ) by {
        let om = placed[m].mode->Single_0;
        let r = single_record(placed[m], vs[m]);
        lemma_append_keeps(before, block, om as int, om + r.len());
    }
    assert forall|q: u64|
        #![trigger find_pack(place_after(items.take(k + 1), start).0, q)]
        find_pack(place_after(items.take(k + 1), start).0, q) is Some implies pack_stands(
            img,
            placed,
            vs,
            find_pack(place_after(items.take(k + 1), start).0, q)->Some_0,
        ) by {
        let oq = find_pack(nps, q)->Some_0;
        if q != p {
            assert(nps.drop_last() =~= ps);
            assert(find_pack(nps, q) == find_pack(ps, q));
            assert(pack_stands(before, placed, vs, oq));
            lemma_append_keeps(before, block, oq as int, oq + BLOCK_SIZE);
        }
    }
}

/// Once all values of a leaf were appended, each reads back from the image.
proof fn lemma_appended_reads_back(img: Seq<u8>, placed: Seq<ValueInfo>, vs: Seq<Seq<u8>>, start: int)
    requires
        0 <= start,
        vs.len() < u32::MAX,
        leaf_placed(placed, vs, start),
        place_after(plan_items(vs), start).1 <= u64::MAX,
        appended_upto(img, placed, vs, start, vs.len() as int),
    ensures
        img.len() == place_after(plan_items(vs), start).1,
        forall|j: int|
            0 <= j < vs.len() && (#[trigger] vs[j]).len() <= u32::MAX ==> value_reads_back(img, placed[j], vs[j]),
{
    reveal(appended_upto);
    let items = plan_items(vs);
    assert(items.take(vs.len() as int) =~= items);
    lemma_leaf_plan(placed, vs, start);
    assert forall|j: int| 0 <= j < vs.len() && (#[trigger] vs[j]).len() <= u32::MAX implies value_reads_back(
        img,
        placed[j],
        vs[j],
    ) by {
        lemma_leaf_value_reads_back(leaf_plan(placed, vs), placed, vs, start, j);
        match placed[j].mode {
            ValueStorageMode::Single(o) => {
                assert(single_stands(img, placed[j], vs[j]));
            },
            ValueStorageMode::Packed(o, idx) => {
                lemma_place_covers(items, start, j);
                assert(placed[j].mode == placed_mode(items, start, j));
                let p = items[j].0->Packed_0;
                assert(find_pack(place_after(items, start).0, p) == Some(o));
                assert(pack_stands(img, placed, vs, o));
            },
        }
    }
}

/// The infos of a leaf holding `vals` once its values are placed from
/// `start`: each value's placed mode and planned stored length.
pub open spec fn placed_infos(vals: Seq<Seq<u8>>, start: int) -> Seq<ValueInfo> {
    Seq::new(
        vals.len(),
        |j: int|
            ValueInfo {
                mode: placed_mode(plan_items(vals), start, j),
                length: planned(vals, j).1 as u32,
                compressed_cache: None,
            },
    )
}

/// The bytes of value `j` of a leaf whose infos are `infos` stand in `img`:
/// a value stored alone as its record at its offset, a packed value's whole
/// block, with its count and its values sorted by index, at the block's
/// offset.
pub open spec fn value_stored(img: Seq<u8>, infos: Seq<ValueInfo>, vals: Seq<Seq<u8>>, j: int) -> bool {
    match infos[j].mode {
        ValueStorageMode::Single(o) => {
            &&& o + value_record_bytes(vals[j]).len() <= img.len()
            &&& img.subrange(o as int, o + value_record_bytes(vals[j]).len()) == value_record_bytes(vals[j])
        },
        ValueStorageMode::Packed(o, _) => {
            &&& o + BLOCK_SIZE <= img.len()
            &&& img.subrange(o as int, o + BLOCK_SIZE) == packed_block_bytes(
                member_bytes(sort_by_index(pack_members(infos, vals, o))),
            )
        },
    }
}

/// The members of a packed block depend on the infos' modes alone.
pub proof fn lemma_pack_members_modes(a: Seq<ValueInfo>, b: Seq<ValueInfo>, vals: Seq<Seq<u8>>, o: u64)
    requires
        a.len() == b.len(),
        forall|k: int| 0 <= k < a.len() ==> (#[trigger] a[k]).mode == b[k].mode,
    ensures
        pack_members(a, vals, o) == pack_members(b, vals, o),
    decreases a.len(),
{
    if a.len() > 0 {
        lemma_pack_members_modes(a.drop_last(), b.drop_last(), vals, o);
        assert(a.last().mode == b.last().mode);
    }
}

/// Once all values of a leaf were appended, the stored bytes of each stand
/// where its placed info points.
proof fn lemma_appended_stored(img: Seq<u8>, placed: Seq<ValueInfo>, vs: Seq<Seq<u8>>, start: int)
    requires
        0 <= start,
        leaf_placed(placed, vs, start),
        place_after(plan_items(vs), start).1 <= u64::MAX,
        appended_upto(img, placed, vs, start, vs.len() as int),
    ensures
        forall|j: int| 0 <= j < vs.len() ==> #[trigger] value_stored(img, placed_infos(vs, start), vs, j),
{
    reveal(appended_upto);
    let items = plan_items(vs);
    let pi = placed_infos(vs, start);
    assert(items.take(vs.len() as int) =~= items);
    assert forall|k: int| 0 <= k < placed.len() implies (#[trigger] placed[k]).mode == pi[k].mode by {}
    assert forall|o: u64| #[trigger] pack_members(pi, vs, o) == pack_members(placed, vs, o) by {
        lemma_pack_members_modes(pi, placed, vs, o);
    }
    assert forall|j: int| 0 <= j < vs.len() implies #[trigger] value_stored(img, pi, vs, j) by {
        match placed[j].mode {
            ValueStorageMode::Single(o) => {
                assert(single_stands(img, placed[j], vs[j]));
                assert(items[j] == (planned(vs, j).0, planned(vs, j).1 as u32));
                assert(placed[j].mode == placed_mode(items, start, j));
                assert(vs[j].len() > SMALL_VALUE_THRESHOLD);
                let c = compression_choice(vs[j]);
                match placed[j].compressed_cache {
                    Some((f, payload)) => {
                        assert(single_record(placed[j], vs[j]) =~= value_record_bytes(vs[j]));
                    },
                    None => {
                        assert(c.0 != COMPRESSION_FLAG_LZ4);
                        assert(single_record(placed[j], vs[j]) =~= value_record_bytes(vs[j]));
                    },
                }
            },
            ValueStorageMode::Packed(o, idx) => {
                lemma_place_covers(items, start, j);
                assert(placed[j].mode == placed_mode(items, start, j));
                let p = items[j].0->Packed_0;
                assert(find_pack(place_after(items, start).0, p) == Some(o));
                assert(pack_stands(img, placed, vs, o));
            },
        }
    }
}

/// Appends the value area of a leaf to `img`, whose end is where the leaf's
/// values were placed: each value stored alone as its record, and each
/// packed block as a whole block, in the order they were placed. Each value
/// of at most `u32::MAX` bytes then reads back from the image as the value.
pub fn append_leaf_values(img: &mut Vec<u8>, placed: &[ValueInfo], values: &[Vec<u8>])
    requires
        values@.len() < u32::MAX,
        leaf_placed(placed@, views(values@), old(img)@.len() as int),
        place_after(plan_items(views(values@)), old(img)@.len() as int).1 <= u64::MAX,
    ensures
        final(img)@.len() == place_after(plan_items(views(values@)), old(img)@.len() as int).1,
        final(img)@.subrange(0, old(img)@.len() as int) == old(img)@,
        forall|j: int|
            0 <= j < values@.len() && (#[trigger] values@[j])@.len() <= u32::MAX ==> value_reads_back(
                final(img)@,
                placed@[j],
                values@[j]@,
            ),
        forall|j: int|
            0 <= j < values@.len() ==> #[trigger] value_stored(
                final(img)@,
                placed_infos(views(values@), old(img)@.len() as int),
                views(values@),
                j,
            ),
{
    let ghost vs = views(values@);
    let ghost start = img@.len() as int;
    let ghost img0 = img@;
    proof {
        lemma_appended_start(img@, placed@, vs);
        assert(img@.subrange(0, start) =~= img0);
    }
    let mut k: usize = 0;
    while k < placed.len()
        invariant
            k <= placed@.len(),
            placed@.len() == values@.len(),
            values@.len() < u32::MAX,
            vs == views(values@),
            leaf_placed(placed@, vs, start),
            0 <= start,
            place_after(plan_items(vs), start).1 <= u64::MAX,
            appended_upto(img@, placed@, vs, start, k as int),
            start <= img@.len(),
            img@.subrange(0, start) == img0,
        decreases placed@.len() - k,
    {
        let ghost before = img@;
        match placed[k].mode {
            ValueStorageMode::Single(o) => {
                let mut rec: Vec<u8> = Vec::new();
                match &placed[k].compressed_cache {
                    Some((f, payload)) => {
                        rec.push(*f);
                        push_bytes(&mut rec, payload.as_slice());
                    },
                    None => {
                        rec.push(COMPRESSION_FLAG_NONE);
                        push_bytes(&mut rec, values[k].as_slice());
                    },
                }
                proof {
                    assert(rec@ =~= single_record(placed@[k as int], vs[k as int]));
                    lemma_append_single(before, rec@, placed@, vs, start, k as int);
                }
                push_bytes(img, rec.as_slice());
                proof {
                    lemma_append_keeps(before, rec@, 0, start);
                }
            },
            ValueStorageMode::Packed(o, _) => {
                proof {
                    lemma_pack_turn(img@, placed@, vs, start, k as int);
                }
                if o == img.len() as u64 {
                    let block = pack_block_at(placed, values, o);
                    proof {
                        lemma_append_pack(before, block@, placed@, vs, start, k as int);
                    }
                    push_bytes(img, block.as_slice());
                    proof {
                        lemma_append_keeps(before, block@, 0, start);
                    }
                }
            },
        }
        k = k + 1;
    }
    proof {
        lemma_appended_reads_back(img@, placed@, vs, start);
        lemma_appended_stored(img@, placed@, vs, start);
        assert forall|j: int|
            0 <= j < values@.len() && (#[trigger] values@[j])@.len() <= u32::MAX implies value_reads_back(
                img@,
                placed@[j],
                values@[j]@,
            ) by {
            assert(vs[j] == values@[j]@);
        }
    }
}

} // verus!
