//! The sorted index file: entries in the order of a secondary key, each with
//! the primary key and the place where the value is stored in the tree file.
//!
//! ```text
//! [magic "SIDX"][version: u32][count: u64][entry0][entry1]...
//! entry:    [sort_key_len: u32][sort_key][primary_key_len: u32][primary_key][location]
//! location: [0][offset: u64][length: u32]  or  [1][block_offset: u64][index: u16][length: u32]
//! ```
//!
//! Keys travel here as the bytes their serializer produced.
use vstd::prelude::*;
use crate::le::{
    le_u16_at, le_u32_at, le_u64_at, u16_bytes, u32_bytes, u64_bytes, lemma_u16_roundtrip,
    lemma_u32_roundtrip, lemma_u64_roundtrip, read_u16, read_u32, read_u64, push_u16, push_u32,
    push_u64, push_bytes, copy_range, lemma_le_u16_shift, lemma_le_u32_shift, lemma_le_u64_shift,
};
use crate::tree_format::{ValueInfo, ValueStorageMode};

verus! {

/// The version of the index format.
pub const INDEX_VERSION: u32 = 3;

/// The size of the index file header.
pub const INDEX_HEADER_SIZE: usize = 16;

/// The mode byte of a location of a value stored alone.
pub const MODE_SINGLE: u8 = 0;

/// The mode byte of a location of a value in a packed block.
pub const MODE_PACKED: u8 = 1;

/// Where a value can be read from in the tree file.
#[derive(Debug, Clone, Copy, PartialEq, Eq, Structural)]
pub enum ValueLocation {
    /// A value stored alone at `offset`, `length` bytes long.
    Single { offset: u64, length: u32 },
    /// The value number `index` of the packed block at `block_offset`.
    Packed { block_offset: u64, index: u16, length: u32 },
}

/// Why bytes are not an index file.
#[derive(Debug, Clone, Copy, PartialEq, Eq, Structural)]
pub enum IndexFormatError {
    /// The bytes end before the item being read.
    Truncated,
    /// The file does not start with the index magic.
    BadMagic,
    /// The file has another format version.
    UnsupportedVersion(u32),
    /// A location starts with an unknown mode byte.
    UnknownLocationMode(u8),
    /// A key is longer than its `u32` length field can say.
    KeyTooLong,
}

/// One entry of the index.
#[derive(Debug, Clone)]
pub struct IndexEntry<SortKey, K> {
    pub sort_key: SortKey,
    pub primary_key: K,
    pub location: ValueLocation,
}

/// The magic bytes "SIDX".
pub open spec fn index_magic() -> Seq<u8> {
    seq![83u8, 73u8, 68u8, 88u8]
}

/// The encoding of a location.
pub open spec fn location_bytes(l: ValueLocation) -> Seq<u8> {
    match l {
        ValueLocation::Single { offset, length } => seq![MODE_SINGLE] + u64_bytes(offset) + u32_bytes(
            length,
        ),
        ValueLocation::Packed { block_offset, index, length } => seq![MODE_PACKED] + u64_bytes(
            block_offset,
        ) + u16_bytes(index) + u32_bytes(length),
    }
}

/// The location encoded at `pos` of `s`, with the position after it.
pub open spec fn parse_location(s: Seq<u8>, pos: int) -> Result<(ValueLocation, int), IndexFormatError> {
    if pos < 0 || pos >= s.len() {
        Err(IndexFormatError::Truncated)
    } else if s[pos] == MODE_SINGLE {
        if pos + 13 <= s.len() {
            Ok(
                (
                    ValueLocation::Single {
                        offset: le_u64_at(s, pos + 1) as u64,
                        length: le_u32_at(s, pos + 9) as u32,
                    },
                    pos + 13,
                ),
            )
        } else {
            Err(IndexFormatError::Truncated)
        }
    } else if s[pos] == MODE_PACKED {
        if pos + 15 <= s.len() {
            Ok(
                (
                    ValueLocation::Packed {
                        block_offset: le_u64_at(s, pos + 1) as u64,
                        index: le_u16_at(s, pos + 9) as u16,
                        length: le_u32_at(s, pos + 11) as u32,
                    },
                    pos + 15,
                ),
            )
        } else {
            Err(IndexFormatError::Truncated)
        }
    } else {
        Err(IndexFormatError::UnknownLocationMode(s[pos]))
    }
}

/// The encoding of one entry, its keys given as bytes.
pub open spec fn entry_bytes(sk: Seq<u8>, pk: Seq<u8>, l: ValueLocation) -> Seq<u8> {
    u32_bytes(sk.len() as u32) + sk + u32_bytes(pk.len() as u32) + pk + location_bytes(l)
}

/// The entry encoded at `pos` of `s`: sort key bytes, primary key bytes,
/// location, and the position after it.
#[verifier::opaque]
pub open spec fn parse_entry(s: Seq<u8>, pos: int) -> Result<
    (Seq<u8>, Seq<u8>, ValueLocation, int),
    IndexFormatError,
> {
    if pos < 0 || pos + 4 > s.len() {
        Err(IndexFormatError::Truncated)
    } else {
        let p1 = pos + 4 + le_u32_at(s, pos);
        if p1 + 4 > s.len() {
            Err(IndexFormatError::Truncated)
        } else {
            let p2 = p1 + 4 + le_u32_at(s, p1);
            if p2 > s.len() {
                Err(IndexFormatError::Truncated)
            } else {
                match parse_location(s, p2) {
                    Ok((l, p3)) => Ok((s.subrange(pos + 4, p1), s.subrange(p1 + 4, p2), l, p3)),
                    Err(e) => Err(e),
                }
            }
        }
    }
}

/// The header of an index with `count` entries.
pub open spec fn index_header_bytes(count: u64) -> Seq<u8> {
    index_magic() + u32_bytes(INDEX_VERSION) + u64_bytes(count)
}

/// The entry count that the header of `s` gives, or why `s` has no header.
pub open spec fn parse_index_header(s: Seq<u8>) -> Result<u64, IndexFormatError> {
    if s.len() < 16 {
        Err(IndexFormatError::Truncated)
    } else if s.subrange(0, 4) != index_magic() {
        Err(IndexFormatError::BadMagic)
    } else if le_u32_at(s, 4) != INDEX_VERSION {
        Err(IndexFormatError::UnsupportedVersion(le_u32_at(s, 4) as u32))
    } else {
        Ok(le_u64_at(s, 8) as u64)
    }
}

/// One entry as bytes: sort key, primary key and location.
pub type IndexRecord = (Seq<u8>, Seq<u8>, ValueLocation);

/// The encoding of entries one after the other.
pub open spec fn entries_bytes(es: Seq<IndexRecord>) -> Seq<u8>
    decreases es.len(),
{
    if es.len() == 0 {
        Seq::empty()
    } else {
        entries_bytes(es.drop_last()) + entry_bytes(es.last().0, es.last().1, es.last().2)
    }
}

/// The whole index file holding `es`.
pub open spec fn index_file_bytes(es: Seq<IndexRecord>) -> Seq<u8> {
    index_header_bytes(es.len() as u64) + entries_bytes(es)
}

/// Every key of the records fits its `u32` length field.
pub open spec fn records_fit(es: Seq<IndexRecord>) -> bool {
    forall|i: int|
        0 <= i < es.len() ==> (#[trigger] es[i]).0.len() <= u32::MAX && es[i].1.len() <= u32::MAX
}

/// Reading a location back from its encoding gives the location and the
/// position right after it.
pub proof fn lemma_location_roundtrip(l: ValueLocation, prefix: Seq<u8>, suffix: Seq<u8>)
    ensures
        parse_location(prefix + location_bytes(l) + suffix, prefix.len() as int) == Ok::<
            (ValueLocation, int),
            IndexFormatError,
        >((l, (prefix.len() + location_bytes(l).len()) as int)),
{
    let s = prefix + location_bytes(l) + suffix;
    let p = prefix.len() as int;
    match l {
        ValueLocation::Single { offset, length } => {
            lemma_u64_roundtrip(offset);
            lemma_u32_roundtrip(length);
            assert(s.subrange(p + 1, p + 9) =~= u64_bytes(offset));
            assert(s.subrange(p + 9, p + 13) =~= u32_bytes(length));
            assert(le_u64_at(s, p + 1) == le_u64_at(u64_bytes(offset), 0)) by {
                lemma_le_u64_shift(s, p + 1, u64_bytes(offset));
            }
            assert(le_u32_at(s, p + 9) == le_u32_at(u32_bytes(length), 0)) by {
                lemma_le_u32_shift(s, p + 9, u32_bytes(length));
            }
        },
        ValueLocation::Packed { block_offset, index, length } => {
            lemma_u64_roundtrip(block_offset);
            lemma_u16_roundtrip(index);
            lemma_u32_roundtrip(length);
            assert(s.subrange(p + 1, p + 9) =~= u64_bytes(block_offset));
            assert(s.subrange(p + 9, p + 11) =~= u16_bytes(index));
            assert(s.subrange(p + 11, p + 15) =~= u32_bytes(length));
            assert(le_u64_at(s, p + 1) == le_u64_at(u64_bytes(block_offset), 0)) by {
                lemma_le_u64_shift(s, p + 1, u64_bytes(block_offset));
            }
            assert(le_u16_at(s, p + 9) == le_u16_at(u16_bytes(index), 0)) by {
                lemma_le_u16_shift(s, p + 9, u16_bytes(index));
            }
            assert(le_u32_at(s, p + 11) == le_u32_at(u32_bytes(length), 0)) by {
                lemma_le_u32_shift(s, p + 11, u32_bytes(length));
            }
        },
    }
}

impl ValueLocation {
    /// Where the value that `info` describes is read from.
    pub fn of_info(info: &ValueInfo) -> (r: ValueLocation)
        ensures
            r == (match info.mode {
                ValueStorageMode::Single(offset) => ValueLocation::Single { offset, length: info.length },
                ValueStorageMode::Packed(block_offset, index) => ValueLocation::Packed {
                    block_offset,
                    index,
                    length: info.length,
                },
            }),
    {
        match info.mode {
            ValueStorageMode::Single(offset) => ValueLocation::Single { offset, length: info.length },
            ValueStorageMode::Packed(block_offset, index) => ValueLocation::Packed {
                block_offset,
                index,
                length: info.length,
            },
        }
    }

    /// The value info of a value read from this location, without a
    /// compressed payload beside it.
    pub fn to_info(self) -> (r: ValueInfo)
        ensures
            r.mode == (match self {
                ValueLocation::Single { offset, .. } => ValueStorageMode::Single(offset),
                ValueLocation::Packed { block_offset, index, .. } => ValueStorageMode::Packed(block_offset, index),
            }),
            r.length == (match self {
                ValueLocation::Single { length, .. } => length,
                ValueLocation::Packed { length, .. } => length,
            }),
            r.compressed_cache is None,
    {
        match self {
            ValueLocation::Single { offset, length } => ValueInfo {
                mode: ValueStorageMode::Single(offset),
                length,
                compressed_cache: None,
            },
            ValueLocation::Packed { block_offset, index, length } => ValueInfo {
                mode: ValueStorageMode::Packed(block_offset, index),
                length,
                compressed_cache: None,
            },
        }
    }
}

impl ValueLocation {
    /// The encoding of the location.
    pub fn to_bytes(self) -> (r: Vec<u8>)
        ensures
            r@ == location_bytes(self),
    {
        let mut bytes: Vec<u8> = Vec::new();
        match self {
            ValueLocation::Single { offset, length } => {
                bytes.push(MODE_SINGLE);
                push_u64(&mut bytes, offset);
                push_u32(&mut bytes, length);
            },
            ValueLocation::Packed { block_offset, index, length } => {
                bytes.push(MODE_PACKED);
                push_u64(&mut bytes, block_offset);
                push_u16(&mut bytes, index);
                push_u32(&mut bytes, length);
            },
        }
        proof {
            assert(bytes@ =~= location_bytes(self));
        }
        bytes
    }

    /// Reads the location encoded at `pos`; gives it with the position after it.
    pub fn from_bytes(s: &[u8], pos: usize) -> (r: Result<(ValueLocation, usize), IndexFormatError>)
        ensures
            match r {
                Ok((l, next)) => parse_location(s@, pos as int) == Ok::<
                    (ValueLocation, int),
                    IndexFormatError,
                >((l, next as int)),
                Err(e) => parse_location(s@, pos as int) == Err::<(ValueLocation, int), IndexFormatError>(
                    e,
                ),
            },
    {
        if pos >= s.len() {
            return Err(IndexFormatError::Truncated);
        }
        let mode = s[pos];
        if mode == MODE_SINGLE {
            if s.len() - pos >= 13 {
                let offset = read_u64(s, pos + 1);
                let length = read_u32(s, pos + 9);
                Ok((ValueLocation::Single { offset, length }, pos + 13))
            } else {
                Err(IndexFormatError::Truncated)
            }
        } else if mode == MODE_PACKED {
            if s.len() - pos >= 15 {
                let block_offset = read_u64(s, pos + 1);
                let index = read_u16(s, pos + 9);
                let length = read_u32(s, pos + 11);
                Ok((ValueLocation::Packed { block_offset, index, length }, pos + 15))
            } else {
                Err(IndexFormatError::Truncated)
            }
        } else {
            Err(IndexFormatError::UnknownLocationMode(mode))
        }
    }
}

/// Reading an entry back from its encoding gives its keys, its location and
/// the position right after it.
#[verifier::rlimit(40)]
pub proof fn lemma_entry_roundtrip(
    sk: Seq<u8>,
    pk: Seq<u8>,
    l: ValueLocation,
    prefix: Seq<u8>,
    suffix: Seq<u8>,
)
    requires
        sk.len() <= u32::MAX,
        pk.len() <= u32::MAX,
    ensures
        parse_entry(prefix + entry_bytes(sk, pk, l) + suffix, prefix.len() as int) == Ok::<
            (Seq<u8>, Seq<u8>, ValueLocation, int),
            IndexFormatError,
        >((sk, pk, l, (prefix.len() + entry_bytes(sk, pk, l).len()) as int)),
{
    reveal(parse_entry);
    let s = prefix + entry_bytes(sk, pk, l) + suffix;
    let p = prefix.len() as int;
    let p1 = p + 4 + sk.len();
    let p2 = p1 + 4 + pk.len();
    lemma_u32_roundtrip(sk.len() as u32);
    lemma_u32_roundtrip(pk.len() as u32);
    assert(s.subrange(p, p + 4) =~= u32_bytes(sk.len() as u32));
    lemma_le_u32_shift(s, p, u32_bytes(sk.len() as u32));
    assert(s.subrange(p1, p1 + 4) =~= u32_bytes(pk.len() as u32));
    lemma_le_u32_shift(s, p1, u32_bytes(pk.len() as u32));
    let before = prefix + u32_bytes(sk.len() as u32) + sk + u32_bytes(pk.len() as u32) + pk;
    assert(s =~= before + location_bytes(l) + suffix);
    lemma_location_roundtrip(l, before, suffix);
    assert(s.subrange(p + 4, p1) =~= sk);
    assert(s.subrange(p1 + 4, p2) =~= pk);
}

/// The encoding of entries put one after the other is the two encodings one
/// after the other.
pub proof fn lemma_entries_bytes_add(a: Seq<IndexRecord>, b: Seq<IndexRecord>)
    ensures
        entries_bytes(a + b) == entries_bytes(a) + entries_bytes(b),
    decreases b.len(),
{
    if b.len() == 0 {
        assert(a + b =~= a);
        assert(entries_bytes(a) + entries_bytes(b) =~= entries_bytes(a));
    } else {
        lemma_entries_bytes_add(a, b.drop_last());
        assert((a + b).drop_last() =~= a + b.drop_last());
        assert((a + b).last() == b.last());
        assert(entries_bytes(a + b) =~= entries_bytes(a) + entries_bytes(b));
    }
}

/// The entry encoding of one record.
pub proof fn lemma_entries_bytes_one(r: IndexRecord)
    ensures
        entries_bytes(seq![r]) == entry_bytes(r.0, r.1, r.2),
{
    assert(seq![r].drop_last() =~= Seq::<IndexRecord>::empty());
    assert(entries_bytes(Seq::<IndexRecord>::empty()) + entry_bytes(r.0, r.1, r.2) =~= entry_bytes(
        r.0,
        r.1,
        r.2,
    ));
}

/// The position of entry `i` in the index file holding `es`.
pub open spec fn entry_position(es: Seq<IndexRecord>, i: int) -> int {
    16 + entries_bytes(es.take(i)).len() as int
}

/// The entries before `i`, entry `i` and the entries after it, one after the other.
pub proof fn lemma_entries_bytes_split(es: Seq<IndexRecord>, i: int)
    requires
        0 <= i < es.len(),
    ensures
        entries_bytes(es) == entries_bytes(es.take(i)) + entry_bytes(es[i].0, es[i].1, es[i].2)
            + entries_bytes(es.subrange(i + 1, es.len() as int)),
        entries_bytes(es.take(i + 1)) == entries_bytes(es.take(i)) + entry_bytes(
            es[i].0,
            es[i].1,
            es[i].2,
        ),
{
    let before = es.take(i);
    let mid = seq![es[i]];
    let rest = es.subrange(i + 1, es.len() as int);
    assert(es =~= (before + mid) + rest);
    assert(es.take(i + 1) =~= before + mid);
    lemma_entries_bytes_add(before + mid, rest);
    lemma_entries_bytes_add(before, mid);
    lemma_entries_bytes_one(es[i]);
}

/// Entry `i` of the file holding `es` is read back at its position as `es[i]`.
pub proof fn lemma_index_entry_read_back(es: Seq<IndexRecord>, i: int)
    requires
        records_fit(es),
        0 <= i < es.len(),
    ensures
        parse_entry(index_file_bytes(es), entry_position(es, i)) == Ok::<
            (Seq<u8>, Seq<u8>, ValueLocation, int),
            IndexFormatError,
        >((es[i].0, es[i].1, es[i].2, entry_position(es, i + 1))),
{
    let r = es[i];
    let pre = index_header_bytes(es.len() as u64) + entries_bytes(es.take(i));
    let e = entry_bytes(r.0, r.1, r.2);
    let post = entries_bytes(es.subrange(i + 1, es.len() as int));
    lemma_entries_bytes_split(es, i);
    assert(r.0.len() <= u32::MAX && r.1.len() <= u32::MAX);
    lemma_entry_roundtrip(r.0, r.1, r.2, pre, post);
    assert(index_file_bytes(es) =~= pre + e + post);
}

/// What a reader gives back of what a writer wrote: the header of the file
/// holding `es` gives their number, entry `i` is read back at its position
/// as `es[i]`, and the last entry ends where the file ends.
pub proof fn lemma_index_file_roundtrip(es: Seq<IndexRecord>)
    requires
        records_fit(es),
        es.len() <= u64::MAX,
    ensures
        parse_index_header(index_file_bytes(es)) == Ok::<u64, IndexFormatError>(es.len() as u64),
        entry_position(es, es.len() as int) == index_file_bytes(es).len(),
        forall|i: int|
            0 <= i < es.len() ==> #[trigger] parse_entry(index_file_bytes(es), entry_position(es, i))
                == Ok::<(Seq<u8>, Seq<u8>, ValueLocation, int), IndexFormatError>(
                (es[i].0, es[i].1, es[i].2, entry_position(es, i + 1)),
            ),
{
    let f = index_file_bytes(es);
    lemma_u32_roundtrip(INDEX_VERSION);
    lemma_u64_roundtrip(es.len() as u64);
    assert(f.subrange(0, 4) =~= index_magic());
    assert(f.subrange(4, 8) =~= u32_bytes(INDEX_VERSION));
    lemma_le_u32_shift(f, 4, u32_bytes(INDEX_VERSION));
    assert(f.subrange(8, 16) =~= u64_bytes(es.len() as u64));
    lemma_le_u64_shift(f, 8, u64_bytes(es.len() as u64));
    assert(es.take(es.len() as int) =~= es);
    assert forall|i: int| 0 <= i < es.len() implies #[trigger] parse_entry(f, entry_position(es, i))
        == Ok::<(Seq<u8>, Seq<u8>, ValueLocation, int), IndexFormatError>(
        (es[i].0, es[i].1, es[i].2, entry_position(es, i + 1)),
    ) by {
        lemma_index_entry_read_back(es, i);
    }
}

/// Builds an index file in memory. Entries are written in the order they
/// are pushed; the caller pushes them sorted.
pub struct SortedIndexWriter {
    bytes: Vec<u8>,
    count: u64,
    records: Ghost<Seq<IndexRecord>>,
}

impl SortedIndexWriter {
    /// The bytes so far are the header with a zero count and the entries.
    pub closed spec fn wf(&self) -> bool {
        &&& self.bytes@ == index_header_bytes(0) + entries_bytes(self.records@)
        &&& self.count == self.records@.len()
        &&& records_fit(self.records@)
    }

    /// The entries pushed so far.
    pub closed spec fn written(&self) -> Seq<IndexRecord> {
        self.records@
    }

    /// A writer with no entries; its header carries a zero count until `finish`.
    pub fn new() -> (r: Self)
        ensures
            r.wf(),
            r.written() == Seq::<IndexRecord>::empty(),
    {
        let mut bytes: Vec<u8> = Vec::new();
        bytes.push(83u8);
        bytes.push(73u8);
        bytes.push(68u8);
        bytes.push(88u8);
        push_u32(&mut bytes, INDEX_VERSION);
        push_u64(&mut bytes, 0);
        let r = SortedIndexWriter { bytes, count: 0, records: Ghost(Seq::empty()) };
        proof {
            assert(entries_bytes(Seq::<IndexRecord>::empty()) =~= Seq::<u8>::empty());
            assert(r.bytes@ =~= index_header_bytes(0) + entries_bytes(r.records@));
        }
        r
    }

    /// Appends an entry; fails when a key is too long for its length field.
    pub fn push(&mut self, sort_key: &[u8], primary_key: &[u8], location: ValueLocation) -> (r: Result<
        (),
        IndexFormatError,
    >)
        requires
            old(self).wf(),
            old(self).written().len() < u64::MAX,
        ensures
            final(self).wf(),
            r is Ok <==> (sort_key@.len() <= u32::MAX && primary_key@.len() <= u32::MAX),
            r is Ok ==> final(self).written() == old(self).written().push(
                (sort_key@, primary_key@, location),
            ),
            r is Err ==> r == Err::<(), IndexFormatError>(IndexFormatError::KeyTooLong)
                && final(self).written() == old(self).written(),
    {
        if sort_key.len() > 4294967295usize || primary_key.len() > 4294967295usize {
            return Err(IndexFormatError::KeyTooLong);
        }
        let ghost old_bytes = self.bytes@;
        push_u32(&mut self.bytes, sort_key.len() as u32);
        push_bytes(&mut self.bytes, sort_key);
        push_u32(&mut self.bytes, primary_key.len() as u32);
        push_bytes(&mut self.bytes, primary_key);
        let loc = location.to_bytes();
        push_bytes(&mut self.bytes, loc.as_slice());
        self.count = self.count + 1;
        let ghost rec: IndexRecord = (sort_key@, primary_key@, location);
        let ghost old_records = self.records@;
        self.records = Ghost(old_records.push(rec));
        proof {
            assert(self.records@.drop_last() =~= old_records);
            assert(self.bytes@ =~= old_bytes + entry_bytes(sort_key@, primary_key@, location));
            assert(self.bytes@ =~= index_header_bytes(0) + entries_bytes(self.records@));
            assert forall|i: int| 0 <= i < self.records@.len() implies (#[trigger] self.records@[i]).0.len()
                <= u32::MAX && self.records@[i].1.len() <= u32::MAX by {
                if i < old_records.len() {
                    assert(self.records@[i] == old_records[i]);
                }
            }
        }
        Ok(())
    }

    /// The finished index file, with the entry count in its header, and the count.
    pub fn finish(self) -> (r: (Vec<u8>, u64))
        requires
            self.wf(),
        ensures
            r.0@ == index_file_bytes(self.written()),
            r.1 == self.written().len(),
    {
        let mut bytes = self.bytes;
        let count = self.count;
        let ghost before = bytes@;
        let mut c: Vec<u8> = Vec::new();
        push_u64(&mut c, count);
        let mut i: usize = 0;
        while i < 8
            invariant
                i <= 8,
                c@ == u64_bytes(count),
                bytes@.len() == before.len(),
                before.len() >= 16,
                forall|k: int| 0 <= k < bytes@.len() ==> #[trigger] bytes@[k] == if 8 <= k < 8 + i {
                    c@[k - 8]
                } else {
                    before[k]
                },
            decreases 8 - i,
        {
            bytes.set(8 + i, c[i]);
            i = i + 1;
        }
        proof {
            assert(bytes@ =~= index_file_bytes(self.written()));
        }
        (bytes, count)
    }
}

/// Reads the entries of an index file held in memory.
pub struct SortedIndexReader {
    data: Vec<u8>,
    pos: usize,
    remaining: u64,
}

impl SortedIndexReader {
    /// The bytes of the file.
    pub closed spec fn data(&self) -> Seq<u8> {
        self.data@
    }

    /// Where the next entry starts.
    pub closed spec fn pos(&self) -> int {
        self.pos as int
    }

    /// How many entries are left to read.
    pub closed spec fn left(&self) -> u64 {
        self.remaining
    }

    /// Checks the header of `data` and positions the reader on the first entry.
    pub fn open(data: Vec<u8>) -> (r: Result<Self, IndexFormatError>)
        ensures
            match r {
                Ok(rd) => {
                    &&& parse_index_header(data@) == Ok::<u64, IndexFormatError>(rd.left())
                    &&& rd.data() == data@
                    &&& rd.pos() == 16
                },
                Err(e) => parse_index_header(data@) == Err::<u64, IndexFormatError>(e),
            },
    {
        if data.len() < 16 {
            return Err(IndexFormatError::Truncated);
        }
        if !(data[0] == 83u8 && data[1] == 73u8 && data[2] == 68u8 && data[3] == 88u8) {
            proof {
                if data@.subrange(0, 4) =~= index_magic() {
                    assert(data@.subrange(0, 4)[0] == data@[0]);
                    assert(data@.subrange(0, 4)[1] == data@[1]);
                    assert(data@.subrange(0, 4)[2] == data@[2]);
                    assert(data@.subrange(0, 4)[3] == data@[3]);
                }
            }
            return Err(IndexFormatError::BadMagic);
        }
        proof {
            assert(data@.subrange(0, 4) =~= index_magic());
        }
        let version = read_u32(data.as_slice(), 4);
        if version != INDEX_VERSION {
            return Err(IndexFormatError::UnsupportedVersion(version));
        }
        let count = read_u64(data.as_slice(), 8);
        Ok(SortedIndexReader { data, pos: 16, remaining: count })
    }

    /// How many entries are left to read.
    pub fn remaining(&self) -> (r: u64)
        ensures
            r == self.left(),
    {
        self.remaining
    }

    /// No entry is left to read.
    pub fn is_empty(&self) -> (r: bool)
        ensures
            r == (self.left() == 0),
    {
        self.remaining == 0
    }

    /// The next entry, with its keys as bytes, or `None` when all entries were read.
    pub fn read_next(&mut self) -> (r: Result<Option<IndexEntry<Vec<u8>, Vec<u8>>>, IndexFormatError>)
        ensures
            final(self).data() == old(self).data(),
            old(self).left() == 0 ==> (r matches Ok(None) && final(self).pos() == old(self).pos()
                && final(self).left() == 0),
            old(self).left() > 0 ==> match parse_entry(old(self).data(), old(self).pos()) {
                Ok((sk, pk, l, next)) => {
                    &&& r matches Ok(Some(e)) && e.sort_key@ == sk && e.primary_key@ == pk
                        && e.location == l
                    &&& final(self).pos() == next
                    &&& final(self).left() == old(self).left() - 1
                },
                Err(err) => {
                    &&& r == Err::<Option<IndexEntry<Vec<u8>, Vec<u8>>>, IndexFormatError>(err)
                    &&& final(self).pos() == old(self).pos()
                    &&& final(self).left() == old(self).left()
                },
            },
    {
        proof {
            reveal(parse_entry);
        }
        if self.remaining == 0 {
            return Ok(None);
        }
        let s = self.data.as_slice();
        let pos = self.pos;
        if pos > s.len() || s.len() - pos < 4 {
            return Err(IndexFormatError::Truncated);
        }
        let sk_len = read_u32(s, pos) as usize;
        let sk_start = pos + 4;
        if s.len() - sk_start < sk_len || s.len() - sk_start - sk_len < 4 {
            return Err(IndexFormatError::Truncated);
        }
        let p1 = sk_start + sk_len;
        let pk_len = read_u32(s, p1) as usize;
        let pk_start = p1 + 4;
        if s.len() - pk_start < pk_len {
            return Err(IndexFormatError::Truncated);
        }
        let p2 = pk_start + pk_len;
        match ValueLocation::from_bytes(s, p2) {
            Ok((location, next)) => {
                let sort_key = copy_range(s, sk_start, p1);
                let primary_key = copy_range(s, pk_start, p2);
                self.pos = next;
                self.remaining = self.remaining - 1;
                Ok(Some(IndexEntry { sort_key, primary_key, location }))
            },
            Err(e) => Err(e),
        }
    }
}

} // verus!
