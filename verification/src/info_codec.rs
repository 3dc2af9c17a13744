//! The payloads of node blocks: the value infos of a leaf, one record of
//! fixed width per info, so that a leaf block keeps the size it was laid out
//! with when its values get their offsets; and the child offsets of an
//! inner node, one little-endian `u64` each.
//!
//! ```text
//! info:   [mode: u8 (0 alone, 1 packed)][offset: u64][index: u16][length: u32]
//! child:  [offset: u64]
//! ```
use vstd::prelude::*;
use crate::le::{
    le_u16_at, le_u32_at, le_u64_at, u16_bytes, u32_bytes, u64_bytes, lemma_u16_roundtrip,
    lemma_u32_roundtrip, lemma_u64_roundtrip, lemma_le_u16_shift, lemma_le_u32_shift,
    lemma_le_u64_shift, read_u16, read_u32, read_u64, push_u16, push_u32, push_u64,
};
use crate::tree_format::{TreeFormatError, ValueInfo, ValueStorageMode};

verus! {

/// The width of the record of one value info.
pub const INFO_WIDTH: usize = 15;

/// The record of one value info.
pub open spec fn info_record(i: ValueInfo) -> Seq<u8> {
    match i.mode {
        ValueStorageMode::Packed(o, idx) => seq![1u8] + u64_bytes(o) + u16_bytes(idx) + u32_bytes(i.length),
        ValueStorageMode::Single(o) => seq![0u8] + u64_bytes(o) + u16_bytes(0) + u32_bytes(i.length),
    }
}

/// The records of value infos, one after the other.
pub open spec fn info_records(infos: Seq<ValueInfo>) -> Seq<u8>
    decreases infos.len(),
{
    if infos.len() == 0 {
        Seq::empty()
    } else {
        info_records(infos.drop_last()) + info_record(infos.last())
    }
}

/// The mode and length read from the record at `pos` of `s`.
pub open spec fn parse_info_at(s: Seq<u8>, pos: int) -> (ValueStorageMode, u32) {
    let o = le_u64_at(s, pos + 1) as u64;
    let idx = le_u16_at(s, pos + 9) as u16;
    let len = le_u32_at(s, pos + 11) as u32;
    (if s[pos] == 1 {
        ValueStorageMode::Packed(o, idx)
    } else {
        ValueStorageMode::Single(o)
    }, len)
}

/// The payload of a leaf block holding `infos`.
pub fn encode_value_infos(infos: &[ValueInfo]) -> (r: Vec<u8>)
    ensures
        r@ == info_records(infos@),
        r@.len() == INFO_WIDTH * infos@.len(),
{
    let mut out: Vec<u8> = Vec::new();
    let mut i: usize = 0;
    proof {
        assert(infos@.take(0) =~= Seq::<ValueInfo>::empty());
    }
    while i < infos.len()
        invariant
            i <= infos@.len(),
            out@ == info_records(infos@.take(i as int)),
        decreases infos@.len() - i,
    {
        let ghost before = out@;
        match infos[i].mode {
            ValueStorageMode::Packed(o, idx) => {
                out.push(1u8);
                push_u64(&mut out, o);
                push_u16(&mut out, idx);
            },
            ValueStorageMode::Single(o) => {
                out.push(0u8);
                push_u64(&mut out, o);
                push_u16(&mut out, 0u16);
            },
        }
        push_u32(&mut out, infos[i].length);
        proof {
            assert(infos@.take(i + 1).drop_last() =~= infos@.take(i as int));
            assert(infos@.take(i + 1).last() == infos@[i as int]);
            assert(out@ =~= before + info_record(infos@[i as int]));
        }
        i = i + 1;
    }
    proof {
        assert(infos@.take(infos@.len() as int) =~= infos@);
        lemma_info_records_prefix(infos@, 0);
    }
    out
}

/// The value infos in the payload of a leaf block; fails with `Truncated`
/// where the payload is not a whole number of records.
pub fn decode_value_infos(bytes: &[u8]) -> (r: Result<Vec<ValueInfo>, TreeFormatError>)
    ensures
        r is Ok <==> bytes@.len() as int % (INFO_WIDTH as int) == 0,
        r matches Err(e) ==> e is Truncated,
        r matches Ok(v) ==> {
            &&& v@.len() * INFO_WIDTH == bytes@.len()
            &&& forall|k: int|
                0 <= k < v@.len() ==> ((#[trigger] v@[k]).mode, v@[k].length) == parse_info_at(bytes@, INFO_WIDTH * k)
                    && v@[k].compressed_cache is None
        },
{
    if bytes.len() % INFO_WIDTH != 0 {
        return Err(TreeFormatError::Truncated);
    }
    let n = bytes.len();
    let count = n / INFO_WIDTH;
    let mut out: Vec<ValueInfo> = Vec::new();
    let mut i: usize = 0;
    while i < count
        invariant
            n == bytes@.len(),
            count * INFO_WIDTH == n,
            i <= count,
            out@.len() == i,
            forall|k: int|
                0 <= k < i ==> ((#[trigger] out@[k]).mode, out@[k].length) == parse_info_at(bytes@, INFO_WIDTH * k)
                    && out@[k].compressed_cache is None,
        decreases count - i,
    {
        proof {
            assert(i * INFO_WIDTH + INFO_WIDTH <= n) by (nonlinear_arith)
                requires
                    i < count,
                    count * INFO_WIDTH == n,
            ;
        }
        let pos = i * INFO_WIDTH;
        let o = read_u64(bytes, pos + 1);
        let idx = read_u16(bytes, pos + 9);
        let len = read_u32(bytes, pos + 11);
        let mode = if bytes[pos] == 1 {
            ValueStorageMode::Packed(o, idx)
        } else {
            ValueStorageMode::Single(o)
        };
        out.push(ValueInfo { mode, length: len, compressed_cache: None });
        proof {
            assert(INFO_WIDTH * (i as int) == pos);
        }
        i = i + 1;
    }
    proof {
        assert(out@.len() * INFO_WIDTH == bytes@.len());
    }
    Ok(out)
}

/// The records of infos take one record width each, and those of a prefix
/// come first.
proof fn lemma_info_records_prefix(infos: Seq<ValueInfo>, k: int)
    requires
        0 <= k <= infos.len(),
    ensures
        info_records(infos).len() == INFO_WIDTH * infos.len(),
        info_records(infos.take(k)).len() == INFO_WIDTH * k,
        info_records(infos).subrange(0, INFO_WIDTH * k) == info_records(infos.take(k)),
    decreases infos.len(),
{
    if infos.len() > 0 {
        let init = infos.drop_last();
        lemma_info_records_prefix(init, if k < infos.len() { k } else { init.len() as int });
        let last = infos.last();
        assert(info_record(last).len() == INFO_WIDTH);
        if k < infos.len() {
            assert(init.take(k) =~= infos.take(k));
            assert(info_records(infos).subrange(0, INFO_WIDTH * k) =~= info_records(init).subrange(0, INFO_WIDTH * k));
        } else {
            assert(infos.take(k) =~= infos);
        }
    } else {
        assert(infos.take(k) =~= infos);
    }
}

/// What a read gives back of a write: record `k` of the payload written for
/// `infos` reads back as the mode and length of `infos[k]`.
#[verifier::spinoff_prover]
pub proof fn lemma_info_records_roundtrip(infos: Seq<ValueInfo>, k: int)
    requires
        0 <= k < infos.len(),
    ensures
        info_records(infos).len() == INFO_WIDTH * infos.len(),
        parse_info_at(info_records(infos), INFO_WIDTH * k) == (infos[k].mode, infos[k].length),
{
    lemma_info_records_prefix(infos, k + 1);
    lemma_info_records_prefix(infos.take(k + 1), k);
    let s = info_records(infos);
    let pre = info_records(infos.take(k + 1));
    assert(infos.take(k + 1).drop_last() =~= infos.take(k));
    assert(infos.take(k + 1).take(k) =~= infos.take(k));
    assert(infos.take(k + 1).last() == infos[k]);
    let rec = info_record(infos[k]);
    let p = INFO_WIDTH * k;
    assert(pre == info_records(infos.take(k)) + rec);
    assert(s.subrange(p, p + INFO_WIDTH) =~= rec) by {
        assert(s.subrange(0, p + INFO_WIDTH) == pre);
        assert forall|x: int| 0 <= x < INFO_WIDTH implies s.subrange(p, p + INFO_WIDTH)[x] == rec[x] by {
            assert(s[p + x] == s.subrange(0, p + INFO_WIDTH)[p + x]);
            assert(pre[p + x] == rec[x]);
        }
    }
    let (o, idx) = match infos[k].mode {
        ValueStorageMode::Packed(o, idx) => (o, idx),
        ValueStorageMode::Single(o) => (o, 0u16),
    };
    lemma_u64_roundtrip(o);
    lemma_u16_roundtrip(idx);
    lemma_u32_roundtrip(infos[k].length);
    assert(s.subrange(p + 1, p + 9) =~= u64_bytes(o)) by {
        assert forall|x: int| 0 <= x < 8 implies s.subrange(p + 1, p + 9)[x] == u64_bytes(o)[x] by {
            assert(s[p + 1 + x] == rec[1 + x]);
        }
    }
    assert(s.subrange(p + 9, p + 11) =~= u16_bytes(idx)) by {
        assert forall|x: int| 0 <= x < 2 implies s.subrange(p + 9, p + 11)[x] == u16_bytes(idx)[x] by {
            assert(s[p + 9 + x] == rec[9 + x]);
        }
    }
    assert(s.subrange(p + 11, p + 15) =~= u32_bytes(infos[k].length)) by {
        assert forall|x: int| 0 <= x < 4 implies s.subrange(p + 11, p + 15)[x] == u32_bytes(infos[k].length)[x] by {
            assert(s[p + 11 + x] == rec[11 + x]);
        }
    }
    lemma_le_u64_shift(s, p + 1, u64_bytes(o));
    lemma_le_u16_shift(s, p + 9, u16_bytes(idx));
    lemma_le_u32_shift(s, p + 11, u32_bytes(infos[k].length));
    assert(s[p] == rec[0]);
}

/// The payload of an inner node whose children stand at `offsets`.
pub open spec fn offset_records(offsets: Seq<u64>) -> Seq<u8>
    decreases offsets.len(),
{
    if offsets.len() == 0 {
        Seq::empty()
    } else {
        offset_records(offsets.drop_last()) + u64_bytes(offsets.last())
    }
}

/// The payload of an inner node with the given child offsets.
pub fn encode_child_offsets(offsets: &[u64]) -> (r: Vec<u8>)
    ensures
        r@ == offset_records(offsets@),
        r@.len() == 8 * offsets@.len(),
{
    let mut out: Vec<u8> = Vec::new();
    let mut i: usize = 0;
    proof {
        assert(offsets@.take(0) =~= Seq::<u64>::empty());
    }
    while i < offsets.len()
        invariant
            i <= offsets@.len(),
            out@ == offset_records(offsets@.take(i as int)),
            out@.len() == 8 * i,
        decreases offsets@.len() - i,
    {
        push_u64(&mut out, offsets[i]);
        proof {
            lemma_u64_roundtrip(offsets@[i as int]);
            assert(offsets@.take(i + 1).drop_last() =~= offsets@.take(i as int));
        }
        i = i + 1;
    }
    proof {
        assert(offsets@.take(offsets@.len() as int) =~= offsets@);
    }
    out
}

/// The child offsets in the payload of an inner node; fails with
/// `Truncated` where the payload is not a whole number of offsets.
pub fn decode_child_offsets(bytes: &[u8]) -> (r: Result<Vec<u64>, TreeFormatError>)
    ensures
        r is Ok <==> bytes@.len() as int % 8 == 0,
        r matches Err(e) ==> e is Truncated,
        r matches Ok(v) ==> {
            &&& v@.len() * 8 == bytes@.len()
            &&& forall|k: int| 0 <= k < v@.len() ==> #[trigger] v@[k] == le_u64_at(bytes@, 8 * k)
        },
{
    if bytes.len() % 8 != 0 {
        return Err(TreeFormatError::Truncated);
    }
    let n = bytes.len();
    let count = n / 8;
    let mut out: Vec<u64> = Vec::new();
    let mut i: usize = 0;
    while i < count
        invariant
            n == bytes@.len(),
            count * 8 == n,
            i <= count,
            out@.len() == i,
            forall|k: int| 0 <= k < i ==> #[trigger] out@[k] == le_u64_at(bytes@, 8 * k),
        decreases count - i,
    {
        let x = read_u64(bytes, i * 8);
        out.push(x);
        i = i + 1;
    }
    Ok(out)
}

/// The records of offsets take eight bytes each, and those of a prefix come
/// first.
proof fn lemma_offset_records_prefix(offsets: Seq<u64>, k: int)
    requires
        0 <= k <= offsets.len(),
    ensures
        offset_records(offsets).len() == 8 * offsets.len(),
        offset_records(offsets).subrange(0, 8 * k) == offset_records(offsets.take(k)),
    decreases offsets.len(),
{
    if offsets.len() > 0 {
        let init = offsets.drop_last();
        lemma_offset_records_prefix(init, if k < offsets.len() { k } else { init.len() as int });
        lemma_u64_roundtrip(offsets.last());
        if k < offsets.len() {
            assert(init.take(k) =~= offsets.take(k));
            assert(offset_records(offsets).subrange(0, 8 * k) =~= offset_records(init).subrange(0, 8 * k));
        } else {
            assert(offsets.take(k) =~= offsets);
        }
    } else {
        assert(offsets.take(k) =~= offsets);
    }
}

/// What a read gives back of a write: offset `k` of the payload written for
/// `offsets` reads back as `offsets[k]`.
pub proof fn lemma_offset_records_roundtrip(offsets: Seq<u64>, k: int)
    requires
        0 <= k < offsets.len(),
    ensures
        offset_records(offsets).len() == 8 * offsets.len(),
        le_u64_at(offset_records(offsets), 8 * k) == offsets[k],
{
    lemma_offset_records_prefix(offsets, k + 1);
    lemma_offset_records_prefix(offsets.take(k + 1), k);
    let s = offset_records(offsets);
    let pre = offset_records(offsets.take(k + 1));
    assert(offsets.take(k + 1).drop_last() =~= offsets.take(k));
    assert(offsets.take(k + 1).take(k) =~= offsets.take(k));
    lemma_u64_roundtrip(offsets[k]);
    let rec = u64_bytes(offsets[k]);
    assert(pre == offset_records(offsets.take(k)) + rec);
    assert(s.subrange(8 * k, 8 * k + 8) =~= rec) by {
        assert(s.subrange(0, 8 * k + 8) == pre);
        assert forall|x: int| 0 <= x < 8 implies s.subrange(8 * k, 8 * k + 8)[x] == rec[x] by {
            assert(s[8 * k + x] == s.subrange(0, 8 * k + 8)[8 * k + x]);
            assert(pre[8 * k + x] == rec[x]);
        }
    }
    lemma_le_u64_shift(s, 8 * k, rec);
}

} // verus!
