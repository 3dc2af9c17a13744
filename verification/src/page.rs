//! Slotted pages: a 16-byte header, a slot directory growing down from the
//! header, and cell data growing up from the end of the page.
//!
//! Every cell starts with a little-endian `u32` that gives the number of
//! bytes that follow it.
use crate::le::{le_u16_at, le_u32_at, le_u64_at, lemma_u16_roundtrip, lemma_u64_roundtrip, read_u16, read_u32, read_u64, u16_bytes, u64_bytes};
use vstd::prelude::*;
use crate::text::{concat, io_error_text};
use vstd::std_specs::convert::FromSpecImpl;

verus! {

pub const PAGE_SIZE: u16 = 4096;

pub const PAGE_SIZE_USIZE: usize = 4096;

pub const PAGE_HEADER_SIZE: u16 = 16;

pub const PAGE_HEADER_SIZE_USIZE: usize = 16;

pub const SLOT_SIZE: usize = 2;

/// An I/O error of std, carried through by the error types of this crate.
#[verifier::external_type_specification]
#[verifier::external_body]
pub struct ExIoError(std::io::Error);

#[derive(Debug, Clone, Copy, PartialEq, Eq, Structural)]
pub enum PageType {
    Leaf,
    Internal,
    Overflow,
}

/// The byte that stands for a page type in the header.
pub open spec fn page_type_code(t: PageType) -> u8 {
    match t {
        PageType::Leaf => 1,
        PageType::Internal => 2,
        PageType::Overflow => 3,
    }
}

/// The page type that a header byte stands for, if any.
pub open spec fn page_type_of_code(b: u8) -> Option<PageType> {
    if b == 1 {
        Some(PageType::Leaf)
    } else if b == 2 {
        Some(PageType::Internal)
    } else if b == 3 {
        Some(PageType::Overflow)
    } else {
        None
    }
}

impl PageType {
    pub fn code(&self) -> (r: u8)
        ensures
            r == page_type_code(*self),
    {
        match self {
            PageType::Leaf => 1,
            PageType::Internal => 2,
            PageType::Overflow => 3,
        }
    }
}

#[derive(Debug, Clone, Copy)]
pub struct PageHeader {
    pub page_type: PageType,
    pub cell_count: u16,
    pub free_start: u16,
    pub free_end: u16,
    pub right_sibling: u64,
    pub checksum: u32,
}

/// A fresh header of the given page type.
pub open spec fn fresh_header(t: PageType) -> PageHeader {
    PageHeader {
        page_type: t,
        cell_count: 0,
        free_start: PAGE_HEADER_SIZE,
        free_end: PAGE_SIZE,
        right_sibling: 0,
        checksum: 0,
    }
}

/// The 16 bytes that encode a header (the checksum is not stored).
pub open spec fn header_bytes(h: PageHeader) -> Seq<u8> {
    seq![page_type_code(h.page_type), 0u8] + u16_bytes(h.cell_count) + u16_bytes(h.free_start)
        + u16_bytes(h.free_end) + u64_bytes(h.right_sibling)
}

/// The header that the first 16 bytes of `s` encode, if they encode one.
pub open spec fn decode_header(s: Seq<u8>) -> Option<PageHeader> {
    if s.len() < 16 {
        None
    } else {
        match page_type_of_code(s[0]) {
            None => None,
            Some(t) => Some(
                PageHeader {
                    page_type: t,
                    cell_count: le_u16_at(s, 2) as u16,
                    free_start: le_u16_at(s, 4) as u16,
                    free_end: le_u16_at(s, 6) as u16,
                    right_sibling: le_u64_at(s, 8) as u64,
                    checksum: 0,
                },
            ),
        }
    }
}

/// The header with its checksum cleared, as it comes back from storage.
pub open spec fn stored_header(h: PageHeader) -> PageHeader {
    PageHeader { checksum: 0, ..h }
}

/// Decoding the bytes of an encoded header gives the header back (without checksum).
pub proof fn lemma_header_roundtrip(h: PageHeader)
    ensures
        header_bytes(h).len() == 16,
        decode_header(header_bytes(h)) == Some(stored_header(h)),
{
    let s = header_bytes(h);
    lemma_u16_roundtrip(h.cell_count);
    lemma_u16_roundtrip(h.free_start);
    lemma_u16_roundtrip(h.free_end);
    lemma_u64_roundtrip(h.right_sibling);
    assert(s.subrange(2, 4) =~= u16_bytes(h.cell_count));
    assert(s.subrange(4, 6) =~= u16_bytes(h.free_start));
    assert(s.subrange(6, 8) =~= u16_bytes(h.free_end));
    assert(s.subrange(8, 16) =~= u64_bytes(h.right_sibling));
    assert(le_u16_at(s, 2) == le_u16_at(u16_bytes(h.cell_count), 0));
    assert(le_u16_at(s, 4) == le_u16_at(u16_bytes(h.free_start), 0));
    assert(le_u16_at(s, 6) == le_u16_at(u16_bytes(h.free_end), 0));
    let r = s.subrange(8, 16);
    assert(le_u32_at(s, 8) == le_u32_at(r, 0));
    assert(le_u32_at(s, 12) == le_u32_at(r, 4));
}

/// Writes the encoded header into the first 16 bytes of `data`.
fn write_header(data: &mut [u8], h: &PageHeader)
    requires
        old(data)@.len() >= 16,
    ensures
        final(data)@ == header_bytes(*h) + old(data)@.subrange(16, old(data)@.len() as int),
{
    data[0] = h.page_type.code();
    data[1] = 0;
    data[2] = (h.cell_count % 256) as u8;
    data[3] = (h.cell_count / 256) as u8;
    data[4] = (h.free_start % 256) as u8;
    data[5] = (h.free_start / 256) as u8;
    data[6] = (h.free_end % 256) as u8;
    data[7] = (h.free_end / 256) as u8;
    let lo = (h.right_sibling % 4294967296) as u32;
    let hi = (h.right_sibling / 4294967296) as u32;
    data[8] = (lo % 256) as u8;
    data[9] = ((lo / 256) % 256) as u8;
    data[10] = ((lo / 65536) % 256) as u8;
    data[11] = (lo / 16777216) as u8;
    data[12] = (hi % 256) as u8;
    data[13] = ((hi / 256) % 256) as u8;
    data[14] = ((hi / 65536) % 256) as u8;
    data[15] = (hi / 16777216) as u8;
    assert(final(data)@ =~= header_bytes(*h) + old(data)@.subrange(16, old(data)@.len() as int));
}

impl PageHeader {
    pub fn new(page_type: PageType) -> (r: Self)
        ensures
            r == fresh_header(page_type),
    {
        Self {
            page_type,
            cell_count: 0,
            free_start: PAGE_HEADER_SIZE,
            free_end: PAGE_SIZE,
            right_sibling: 0,
            checksum: 0,
        }
    }

    pub fn serialize(&self) -> (r: [u8; 16])
        ensures
            r@ == header_bytes(*self),
    {
        let mut buf = [0u8; 16];
        write_header(&mut buf, self);
        assert(buf@ =~= header_bytes(*self));
        buf
    }

    pub fn deserialize(buf: &[u8]) -> (r: Result<Self, PageError>)
        ensures
            match r {
                Ok(h) => decode_header(buf@) == Some(h),
                Err(e) => decode_header(buf@) is None && e is Corrupted,
            },
    {
        if buf.len() < PAGE_HEADER_SIZE_USIZE {
            return Err(PageError::Corrupted);
        }
        let page_type = match buf[0] {
            1 => PageType::Leaf,
            2 => PageType::Internal,
            3 => PageType::Overflow,
            _ => return Err(PageError::Corrupted),
        };
        let cell_count = read_u16(buf, 2);
        let free_start = read_u16(buf, 4);
        let free_end = read_u16(buf, 6);
        let right_sibling = read_u64(buf, 8);
        Ok(Self { page_type, cell_count, free_start, free_end, right_sibling, checksum: 0 })
    }
}

#[derive(Debug)]
pub enum PageError {
    NoSpace,
    InvalidIndex,
    Corrupted,
    Io(std::io::Error),
}

impl PageError {
    /// The message that describes the error.
    pub fn message(&self) -> (r: String)
        ensures
            match self {
                PageError::NoSpace => r@ == "Page has no space for insertion"@,
                PageError::InvalidIndex => r@ == "Invalid cell index"@,
                PageError::Corrupted => r@ == "Page data is corrupted"@,
                PageError::Io(_) => exists|t: Seq<char>| r@ == "I/O error: "@ + t,
            },
    {
        match self {
            PageError::NoSpace => "Page has no space for insertion".to_owned(),
            PageError::InvalidIndex => "Invalid cell index".to_owned(),
            PageError::Corrupted => "Page data is corrupted".to_owned(),
            PageError::Io(e) => {
                let t = io_error_text(e);
                let r = concat("I/O error: ", t.as_str());
                assert(r@ == "I/O error: "@ + t@);
                r
            },
        }
    }
}

impl From<std::io::Error> for PageError {
    fn from(err: std::io::Error) -> (r: Self) {
        PageError::Io(err)
    }
}

impl FromSpecImpl<std::io::Error> for PageError {
    open spec fn obeys_from_spec() -> bool {
        true
    }

    open spec fn from_spec(v: std::io::Error) -> Self {
        PageError::Io(v)
    }
}

/// Free bytes between the slot directory and the cell data.
pub open spec fn spec_free_space(h: PageHeader) -> int {
    if h.free_end >= h.free_start {
        h.free_end - h.free_start
    } else {
        0
    }
}

/// The offset stored in slot `i`.
pub open spec fn slot_value(s: Seq<u8>, i: int) -> int {
    le_u16_at(s, 16 + 2 * i)
}

/// The cell that slot `i` points to, with its 4-byte length prefix, when
/// `i` is below `count` and the slot and the cell lie inside `s`.
pub open spec fn cell_at(s: Seq<u8>, count: int, i: int) -> Option<Seq<u8>> {
    if 0 <= i < count && 16 + 2 * i + 2 <= s.len() {
        let off = slot_value(s, i);
        if off + 4 <= s.len() {
            let len = le_u32_at(s, off);
            if off + 4 + len <= s.len() {
                Some(s.subrange(off, off + 4 + len))
            } else {
                None
            }
        } else {
            None
        }
    } else {
        None
    }
}

/// Whether a cell of `len` bytes can be appended below the free end.
pub open spec fn can_append(s: Seq<u8>, h: PageHeader, len: int) -> bool {
    spec_free_space(h) >= len + 2 && h.free_end <= s.len()
}

/// The bytes after a cell was copied right below the free end.
pub open spec fn bytes_with_cell(s: Seq<u8>, h: PageHeader, cell: Seq<u8>) -> Seq<u8> {
    let off = h.free_end - cell.len();
    s.subrange(0, off) + cell + s.subrange(h.free_end as int, s.len() as int)
}

/// The bytes after a slot holding `off` was inserted at `index` among `count` slots.
pub open spec fn bytes_with_slot(s: Seq<u8>, index: int, count: int, off: u16) -> Seq<u8> {
    s.subrange(0, 16 + 2 * index) + u16_bytes(off) + s.subrange(16 + 2 * index, 16 + 2 * count)
        + s.subrange(16 + 2 * count + 2, s.len() as int)
}

/// `s` with its first 16 bytes replaced by the encoded header.
pub open spec fn bytes_committed(s: Seq<u8>, h: PageHeader) -> Seq<u8> {
    if s.len() >= 16 {
        header_bytes(h) + s.subrange(16, s.len() as int)
    } else {
        s
    }
}

/// Whether inserting a cell of `len` bytes at `index` succeeds.
pub open spec fn insert_succeeds(s: Seq<u8>, h: PageHeader, index: int, len: int) -> bool {
    &&& can_append(s, h, len)
    &&& index <= h.cell_count
    &&& 16 + 2 * h.cell_count + 2 <= s.len()
}

/// The header after a successful insertion of a cell of `len` bytes.
pub open spec fn header_after_insert(h: PageHeader, len: int) -> PageHeader {
    PageHeader {
        cell_count: (h.cell_count + 1) as u16,
        free_start: (h.free_start + 2) as u16,
        free_end: (h.free_end - len) as u16,
        ..h
    }
}

/// The bytes after a successful insertion of `cell` at `index`.
#[verifier::opaque]
pub open spec fn bytes_after_insert(s: Seq<u8>, h: PageHeader, index: int, cell: Seq<u8>) -> Seq<
    u8,
> {
    let off = (h.free_end - cell.len()) as u16;
    bytes_committed(
        bytes_with_slot(bytes_with_cell(s, h, cell), index, h.cell_count as int, off),
        header_after_insert(h, cell.len() as int),
    )
}

/// The bytes after an insertion attempt, whatever its outcome.
pub open spec fn bytes_after_attempt(s: Seq<u8>, h: PageHeader, index: int, cell: Seq<u8>) -> Seq<
    u8,
> {
    if !can_append(s, h, cell.len() as int) {
        s
    } else if insert_succeeds(s, h, index, cell.len() as int) {
        bytes_after_insert(s, h, index, cell)
    } else {
        bytes_with_cell(s, h, cell)
    }
}

/// The in-memory header after an insertion attempt, whatever its outcome.
pub open spec fn header_after_attempt(s: Seq<u8>, h: PageHeader, index: int, len: int) -> PageHeader {
    if !can_append(s, h, len) {
        h
    } else if insert_succeeds(s, h, index, len) {
        header_after_insert(h, len)
    } else {
        PageHeader { free_end: (h.free_end - len) as u16, ..h }
    }
}

/// Whether a failed insertion attempt fails for a bad index (else for want of room).
pub open spec fn insert_fails_on_index(s: Seq<u8>, h: PageHeader, index: int, len: int) -> bool {
    can_append(s, h, len) && index > h.cell_count
}

/// Copies a cell right below the free end and lowers the free end.
fn append_raw(data: &mut [u8], header: &mut PageHeader, cell_data: &[u8]) -> (r: Result<
    u16,
    PageError,
>)
    ensures
        match r {
            Ok(off) => {
                &&& can_append(old(data)@, *old(header), cell_data@.len() as int)
                &&& off == old(header).free_end - cell_data@.len()
                &&& final(data)@ == bytes_with_cell(old(data)@, *old(header), cell_data@)
                &&& *final(header) == PageHeader { free_end: off, ..*old(header) }
            },
            Err(e) => {
                &&& e is NoSpace
                &&& !can_append(old(data)@, *old(header), cell_data@.len() as int)
                &&& final(data)@ == old(data)@
                &&& *final(header) == *old(header)
            },
        },
{
    let required = cell_data.len();
    let free: usize = if header.free_end >= header.free_start {
        (header.free_end - header.free_start) as usize
    } else {
        0
    };
    if free < 2 || free - 2 < required {
        return Err(PageError::NoSpace);
    }
    let req_u16 = required as u16;
    let offset = header.free_end - req_u16;
    if header.free_end as usize > data.len() {
        return Err(PageError::NoSpace);
    }
    let ghost s0 = data@;
    let mut j: usize = 0;
    while j < required
        invariant
            j <= required,
            required == cell_data@.len(),
            offset + required <= data@.len(),
            offset + required <= 65535,
            data@.len() == s0.len(),
            forall|k: int|
                0 <= k < data@.len() ==> #[trigger] data@[k] == if offset <= k < offset + j {
                    cell_data@[k - offset]
                } else {
                    s0[k]
                },
        decreases required - j,
    {
        data[offset as usize + j] = cell_data[j];
        j = j + 1;
    }
    assert(data@ =~= bytes_with_cell(s0, *header, cell_data@));
    header.free_end = offset;
    Ok(offset)
}

/// Inserts a cell at slot `index` of the page held in `data` and `header`.
fn insert_raw(data: &mut [u8], header: &mut PageHeader, index: usize, val: &[u8]) -> (r: Result<
    (),
    PageError,
>)
    requires
        old(header).cell_count < 65535 || !insert_succeeds(old(data)@, *old(header), index as int, val@.len() as int),
    ensures
        final(data)@ == bytes_after_attempt(old(data)@, *old(header), index as int, val@),
        *final(header) == header_after_attempt(
            old(data)@,
            *old(header),
            index as int,
            val@.len() as int,
        ),
        r is Ok <==> insert_succeeds(old(data)@, *old(header), index as int, val@.len() as int),
        r matches Err(e) ==> if insert_fails_on_index(
            old(data)@,
            *old(header),
            index as int,
            val@.len() as int,
        ) {
            e is InvalidIndex
        } else {
            e is NoSpace
        },
{
    let offset = append_raw(data, header, val)?;
    let ghost s1 = data@;
    let ghost h1 = *header;
    assert(h1.free_start <= 65533);
    let count = header.cell_count as usize;
    if index > count {
        return Err(PageError::InvalidIndex);
    }
    let insert_pos = PAGE_HEADER_SIZE_USIZE + index * SLOT_SIZE;
    let src_end = PAGE_HEADER_SIZE_USIZE + count * SLOT_SIZE;
    if data.len() < src_end + SLOT_SIZE {
        return Err(PageError::NoSpace);
    }
    // shift the slots at and after `index` up by one slot
    let mut k: usize = src_end;
    while k > insert_pos
        invariant
            insert_pos <= k <= src_end,
            src_end + 2 <= data@.len(),
            data@.len() == s1.len(),
            forall|m: int|
                0 <= m < data@.len() ==> #[trigger] data@[m] == if k + 2 <= m < src_end + 2 {
                    s1[m - 2]
                } else {
                    s1[m]
                },
        decreases k,
    {
        k = k - 1;
        let b = data[k];
        data[k + 2] = b;
    }
    data[insert_pos] = (offset % 256) as u8;
    data[insert_pos + 1] = (offset / 256) as u8;
    assert(data@ =~= bytes_with_slot(s1, index as int, count as int, offset));
    header.cell_count = header.cell_count + 1;
    header.free_start = header.free_start + 2;
    write_header(data, header);
    proof {
        reveal(bytes_after_insert);
    }
    Ok(())
}

/// Reads the cell at `index` of the page held in `data` and `header`.
fn get_cell_raw<'b>(data: &'b [u8], header: &PageHeader, index: usize) -> (r: Option<&'b [u8]>)
    ensures
        match r {
            Some(c) => cell_at(data@, header.cell_count as int, index as int) == Some(c@),
            None => cell_at(data@, header.cell_count as int, index as int) is None,
        },
{
    if index >= header.cell_count as usize {
        return None;
    }
    let slot_pos = PAGE_HEADER_SIZE_USIZE + index * SLOT_SIZE;
    if slot_pos + 2 > data.len() {
        return None;
    }
    let offset = read_u16(data, slot_pos) as usize;
    if offset + 4 > data.len() {
        return None;
    }
    let len = read_u32(data, offset) as usize;
    if len > data.len() - offset - 4 {
        return None;
    }
    Some(&data[offset..offset + 4 + len])
}

/// The bytes of a fresh page of the given type.
pub open spec fn fresh_page_bytes(t: PageType) -> Seq<u8> {
    header_bytes(fresh_header(t)) + Seq::new((PAGE_SIZE_USIZE - 16) as nat, |i: int| 0u8)
}

/// No failure while building a page.
pub open spec fn BUILD_OK() -> int {
    0
}

/// A cell to copy was missing.
pub open spec fn BUILD_MISSING() -> int {
    1
}

/// A cell did not fit.
pub open spec fn BUILD_FULL() -> int {
    2
}

/// A cell was inserted at a slot beyond the cell count.
pub open spec fn BUILD_BAD_INDEX() -> int {
    3
}

/// The state of a fresh page after the first `n` of `items` were inserted in
/// order, each at the slot of its position in `items`: its bytes, its header
/// and which failure, if any, stopped the building. A missing item (`None`)
/// is skipped when `skip_missing` holds and stops the building otherwise.
pub open spec fn build_state(
    t: PageType,
    items: Seq<Option<Seq<u8>>>,
    skip_missing: bool,
    n: nat,
) -> (Seq<u8>, PageHeader, int)
    decreases n,
{
    if n == 0 {
        (fresh_page_bytes(t), fresh_header(t), BUILD_OK())
    } else {
        let prev = build_state(t, items, skip_missing, (n - 1) as nat);
        let s = prev.0;
        let h = prev.1;
        if prev.2 != BUILD_OK() {
            prev
        } else {
            match items[n - 1] {
                None => if skip_missing {
                    prev
                } else {
                    (s, h, BUILD_MISSING())
                },
                Some(c) => if insert_succeeds(s, h, n - 1, c.len() as int) {
                    (
                        bytes_after_insert(s, h, n - 1, c),
                        header_after_insert(h, c.len() as int),
                        BUILD_OK(),
                    )
                } else if insert_fails_on_index(s, h, n - 1, c.len() as int) {
                    (s, h, BUILD_BAD_INDEX())
                } else {
                    (s, h, BUILD_FULL())
                },
            }
        }
    }
}

/// The cells at slots `from..to` of a page, as `get_cell` reads them.
pub open spec fn cells_between(s: Seq<u8>, count: int, from: int, to: int) -> Seq<
    Option<Seq<u8>>,
> {
    Seq::new((to - from) as nat, |k: int| cell_at(s, count, from + k))
}

/// The size of each cell of a page, 0 for a cell that cannot be read.
pub open spec fn cell_sizes(s: Seq<u8>, count: int) -> Seq<int> {
    Seq::new(
        count as nat,
        |i: int|
            match cell_at(s, count, i) {
                Some(c) => c.len() as int,
                None => 0,
            },
    )
}

/// The sum of the first `n` sizes.
pub open spec fn prefix_sum(sizes: Seq<int>, n: int) -> int
    decreases n,
{
    if n <= 0 {
        0
    } else {
        prefix_sum(sizes, n - 1) + sizes[n - 1]
    }
}

/// One past the first position `i >= from` whose prefix sum reaches
/// `target`, or `default` if there is none.
pub open spec fn first_reaching(sizes: Seq<int>, target: int, from: int, default: int) -> int
    decreases sizes.len() - from,
{
    if from >= sizes.len() {
        default
    } else if prefix_sum(sizes, from + 1) >= target {
        from + 1
    } else {
        first_reaching(sizes, target, from + 1, default)
    }
}

/// The slot at which `split_off` divides a page of `count >= 2` cells: the
/// first slot after which half of the cell bytes lie before it, kept between
/// 1 and `count - 1`.
pub open spec fn split_point(s: Seq<u8>, count: int) -> int {
    let sizes = cell_sizes(s, count);
    let raw = first_reaching(sizes, prefix_sum(sizes, count) / 2, 0, count / 2);
    let clamped = if raw >= count {
        count - 1
    } else {
        raw
    };
    if clamped == 0 {
        1
    } else {
        clamped
    }
}

/// The outcome of compacting a page: the fresh page holding the same cells.
pub open spec fn compact_state(s: Seq<u8>, h: PageHeader) -> (Seq<u8>, PageHeader, int) {
    build_state(
        h.page_type,
        cells_between(s, h.cell_count as int, 0, h.cell_count as int),
        false,
        h.cell_count as nat,
    )
}

/// The header of the left page while it is split, before it is compacted.
pub open spec fn truncated_header(h: PageHeader, split: int) -> PageHeader {
    PageHeader { cell_count: split as u16, free_start: (16 + 2 * split) as u16, ..h }
}

/// Once building a page has failed, inserting more items changes nothing.
pub proof fn lemma_build_stuck(
    t: PageType,
    items: Seq<Option<Seq<u8>>>,
    skip_missing: bool,
    n: nat,
    m: nat,
)
    requires
        n <= m,
        build_state(t, items, skip_missing, n).2 != BUILD_OK(),
    ensures
        build_state(t, items, skip_missing, m) == build_state(t, items, skip_missing, n),
    decreases m - n,
{
    if n < m {
        lemma_build_stuck(t, items, skip_missing, n, (m - 1) as nat);
    }
}

/// Building a page that skips missing cells never fails on a missing cell.
pub proof fn lemma_build_skips(t: PageType, items: Seq<Option<Seq<u8>>>, n: nat)
    ensures
        build_state(t, items, true, n).2 != BUILD_MISSING(),
    decreases n,
{
    if n > 0 {
        lemma_build_skips(t, items, (n - 1) as nat);
    }
}

/// The shape of a page while it is built: a full page whose first 16 bytes
/// encode its header, with the slot directory right after the header.
#[verifier::rlimit(40)]
pub proof fn lemma_build_shape(t: PageType, items: Seq<Option<Seq<u8>>>, skip_missing: bool, n: nat)
    ensures
        ({
            let st = build_state(t, items, skip_missing, n);
            &&& st.0.len() == PAGE_SIZE_USIZE
            &&& st.0.subrange(0, 16) == header_bytes(st.1)
            &&& st.1.checksum == 0
            &&& st.1.page_type == t
            &&& st.1.cell_count <= n
            &&& st.1.free_start == 16 + 2 * st.1.cell_count
            &&& st.1.free_start <= st.1.free_end <= PAGE_SIZE_USIZE
        }),
    decreases n,
{
    lemma_header_roundtrip(fresh_header(t));
    if n == 0 {
        let s = fresh_page_bytes(t);
        assert(s.subrange(0, 16) =~= header_bytes(fresh_header(t)));
    } else {
        lemma_build_shape(t, items, skip_missing, (n - 1) as nat);
        let prev = build_state(t, items, skip_missing, (n - 1) as nat);
        let s = prev.0;
        let h = prev.1;
        if prev.2 == BUILD_OK() {
            match items[n - 1] {
                None => {},
                Some(c) => {
                    if insert_succeeds(s, h, n - 1, c.len() as int) {
                        lemma_insert_bytes(s, h, n - 1, c);
                    }
                },
            }
        }
    }
}

/// A cell whose 4-byte prefix gives the length of the rest of it.
pub open spec fn wf_cell(c: Seq<u8>) -> bool {
    c.len() >= 4 && le_u32_at(c, 0) == c.len() - 4
}

/// A page whose slot directory follows the header, whose cells all lie in
/// the cell area below the page end, and whose every cell can be read.
pub open spec fn layout_ok(s: Seq<u8>, h: PageHeader) -> bool {
    &&& h.free_start == 16 + 2 * h.cell_count
    &&& h.free_start <= h.free_end <= s.len()
    &&& forall|i: int|
        0 <= i < h.cell_count ==> h.free_end <= #[trigger] slot_value(s, i) && cell_at(
            s,
            h.cell_count as int,
            i,
        ) is Some
}

/// Every cell that `get_cell` reads carries its own length in its prefix.
pub proof fn lemma_cell_at_wf(s: Seq<u8>, count: int, i: int)
    requires
        cell_at(s, count, i) is Some,
    ensures
        wf_cell(cell_at(s, count, i).unwrap()),
{
    let off = slot_value(s, i);
    let c = cell_at(s, count, i).unwrap();
    assert(c[0] == s[off] && c[1] == s[off + 1] && c[2] == s[off + 2] && c[3] == s[off + 3]);
}

/// Where the bytes of a page come from after an insertion: the header,
/// the slots before the new one, the new slot, the shifted slots, the new
/// cell and the untouched rest.
pub proof fn lemma_insert_bytes(s: Seq<u8>, h: PageHeader, index: int, c: Seq<u8>)
    requires
        h.free_start == 16 + 2 * h.cell_count,
        insert_succeeds(s, h, index, c.len() as int),
        index >= 0,
    ensures
        ({
            let s2 = bytes_after_insert(s, h, index, c);
            let n = h.cell_count as int;
            let fe = h.free_end as int;
            let off = fe - c.len();
            &&& s2.len() == s.len()
            &&& 16 + 2 * n + 2 <= off
            &&& s2.subrange(0, 16) == header_bytes(header_after_insert(h, c.len() as int))
            &&& forall|k: int| 16 <= k < 16 + 2 * index ==> #[trigger] s2[k] == s[k]
            &&& forall|k: int| 16 + 2 * index + 2 <= k < 16 + 2 * n + 2 ==> #[trigger] s2[k] == s[k - 2]
            &&& slot_value(s2, index) == off
            &&& forall|k: int| off <= k < fe ==> #[trigger] s2[k] == c[k - off]
            &&& forall|k: int| fe <= k < s.len() ==> #[trigger] s2[k] == s[k]
        }),
{
    reveal(bytes_after_insert);
    let len = c.len() as int;
    let n = h.cell_count as int;
    let fe = h.free_end as int;
    let off = fe - len;
    let h2 = header_after_insert(h, len);
    lemma_header_roundtrip(h2);
    let s1 = bytes_with_cell(s, h, c);
    let s2a = bytes_with_slot(s1, index, n, off as u16);
    let s2 = bytes_after_insert(s, h, index, c);
    assert(s1.len() == s.len());
    assert(s2a.len() == s.len());
    assert(s2 == header_bytes(h2) + s2a.subrange(16, s2a.len() as int));
    assert(s2.subrange(0, 16) =~= header_bytes(h2));
    assert forall|k: int| fe <= k < s.len() implies #[trigger] s2[k] == s[k] by {
        assert(s2[k] == s2a[k]);
        assert(s2a[k] == s1[k]);
    }
    assert forall|k: int| off <= k < fe implies #[trigger] s2[k] == c[k - off] by {
        assert(s2[k] == s2a[k]);
        assert(s2a[k] == s1[k]);
    }
    assert forall|k: int| 16 <= k < 16 + 2 * index implies #[trigger] s2[k] == s[k] by {
        assert(s2[k] == s2a[k]);
        assert(s2a[k] == s1[k]);
    }
    assert forall|k: int| 16 + 2 * index + 2 <= k < 16 + 2 * n + 2 implies #[trigger] s2[k] == s[k - 2] by {
        assert(s2[k] == s2a[k]);
        assert(s2a[k] == s1[k - 2]);
    }
    assert(s2[16 + 2 * index] == s2a[16 + 2 * index]);
    assert(s2[16 + 2 * index + 1] == s2a[16 + 2 * index + 1]);
}

/// Inserting a well-formed cell into a well-laid-out page: the page stays
/// well laid out, the new cell is read back at its slot, the cells before
/// it keep their slots and the cells after it move up by one slot.
pub proof fn lemma_insert_then_get(s: Seq<u8>, h: PageHeader, index: int, c: Seq<u8>)
    requires
        layout_ok(s, h),
        wf_cell(c),
        insert_succeeds(s, h, index, c.len() as int),
        index >= 0,
    ensures
        ({
            let s2 = bytes_after_insert(s, h, index, c);
            let h2 = header_after_insert(h, c.len() as int);
            let n = h.cell_count as int;
            &&& s2.len() == s.len()
            &&& layout_ok(s2, h2)
            &&& h2.cell_count == n + 1
            &&& cell_at(s2, n + 1, index) == Some(c)
            &&& forall|j: int| 0 <= j < index ==> #[trigger] cell_at(s2, n + 1, j) == cell_at(s, n, j)
            &&& forall|j: int|
                index < j <= n ==> #[trigger] cell_at(s2, n + 1, j) == cell_at(s, n, j - 1)
        }),
{
    let len = c.len() as int;
    let n = h.cell_count as int;
    let fe = h.free_end as int;
    let off = fe - len;
    let h2 = header_after_insert(h, len);
    let s2 = bytes_after_insert(s, h, index, c);
    lemma_insert_bytes(s, h, index, c);
    // the new cell
    assert(s2[off] == c[0] && s2[off + 1] == c[1] && s2[off + 2] == c[2] && s2[off + 3] == c[3]);
    assert(s2.subrange(off, off + len) =~= c);
    // the cells that were there
    assert forall|j: int| 0 <= j < index implies #[trigger] cell_at(s2, n + 1, j) == cell_at(s, n, j)
        && fe <= slot_value(s2, j) by {
        assert(s2[16 + 2 * j] == s[16 + 2 * j]);
        assert(s2[16 + 2 * j + 1] == s[16 + 2 * j + 1]);
        let o = slot_value(s, j);
        assert(fe <= o);
        let l = le_u32_at(s, o);
        assert(s2[o] == s[o] && s2[o + 1] == s[o + 1] && s2[o + 2] == s[o + 2] && s2[o + 3] == s[o + 3]);
        assert(s2.subrange(o, o + 4 + l) =~= s.subrange(o, o + 4 + l));
    }
    assert forall|j: int| index < j <= n implies #[trigger] cell_at(s2, n + 1, j) == cell_at(
        s,
        n,
        j - 1,
    ) && fe <= slot_value(s2, j) by {
        assert(s2[16 + 2 * j] == s[16 + 2 * j - 2]);
        assert(s2[16 + 2 * j + 1] == s[16 + 2 * j - 1]);
        let o = slot_value(s, j - 1);
        assert(fe <= o);
        let l = le_u32_at(s, o);
        assert(s2[o] == s[o] && s2[o + 1] == s[o + 1] && s2[o + 2] == s[o + 2] && s2[o + 3] == s[o + 3]);
        assert(s2.subrange(o, o + 4 + l) =~= s.subrange(o, o + 4 + l));
    }
    assert forall|i: int| 0 <= i < h2.cell_count implies h2.free_end <= #[trigger] slot_value(
        s2,
        i,
    ) && cell_at(s2, h2.cell_count as int, i) is Some by {
        if i < index {
            assert(cell_at(s2, n + 1, i) == cell_at(s, n, i));
        } else if i > index {
            assert(cell_at(s2, n + 1, i) == cell_at(s, n, i - 1));
        }
    }
}

/// A page built from cells that are all there and well formed holds exactly
/// these cells, in order, and is well laid out.
pub proof fn lemma_build_holds_cells(t: PageType, items: Seq<Option<Seq<u8>>>, skip_missing: bool, n: nat)
    requires
        n <= items.len(),
        forall|k: int| 0 <= k < n ==> #[trigger] items[k] is Some && wf_cell(items[k].unwrap()),
        build_state(t, items, skip_missing, n).2 == BUILD_OK(),
    ensures
        ({
            let st = build_state(t, items, skip_missing, n);
            &&& layout_ok(st.0, st.1)
            &&& st.1.cell_count == n
            &&& forall|k: int| 0 <= k < n ==> #[trigger] cell_at(st.0, n as int, k) == items[k]
        }),
    decreases n,
{
    if n > 0 {
        let prev = build_state(t, items, skip_missing, (n - 1) as nat);
        if prev.2 != BUILD_OK() {
            lemma_build_stuck(t, items, skip_missing, (n - 1) as nat, n);
        }
        lemma_build_holds_cells(t, items, skip_missing, (n - 1) as nat);
        lemma_build_shape(t, items, skip_missing, (n - 1) as nat);
        let c = items[n - 1].unwrap();
        assert(insert_succeeds(prev.0, prev.1, n - 1, c.len() as int));
        lemma_insert_then_get(prev.0, prev.1, n - 1, c);
        let st = build_state(t, items, skip_missing, n);
        assert forall|k: int| 0 <= k < n implies #[trigger] cell_at(st.0, n as int, k) == items[k] by {
            if k < n - 1 {
                assert(cell_at(st.0, n as int, k) == cell_at(prev.0, n - 1, k));
            }
        }
    } else {
        let s = fresh_page_bytes(t);
        assert(layout_ok(s, fresh_header(t)));
    }
}

/// Compaction keeps every cell at its slot.
pub proof fn lemma_compact_keeps_cells(s: Seq<u8>, h: PageHeader)
    requires
        compact_state(s, h).2 == BUILD_OK(),
    ensures
        ({
            let st = compact_state(s, h);
            let n = h.cell_count as int;
            &&& layout_ok(st.0, st.1)
            &&& st.1.cell_count == n
            &&& forall|i: int| 0 <= i < n ==> #[trigger] cell_at(st.0, n, i) == cell_at(s, n, i)
        }),
{
    let n = h.cell_count as int;
    let items = cells_between(s, n, 0, n);
    assert forall|k: int| 0 <= k < n implies #[trigger] items[k] is Some && wf_cell(items[k].unwrap()) by {
        if items[k] is None {
            // a missing cell stops the building
            lemma_build_missing_stops(h.page_type, items, k as nat, n as nat);
        }
        lemma_cell_at_wf(s, n, k);
    }
    lemma_build_holds_cells(h.page_type, items, false, n as nat);
    let st = compact_state(s, h);
    assert forall|i: int| 0 <= i < n implies #[trigger] cell_at(st.0, n, i) == cell_at(s, n, i) by {
        assert(items[i] == cell_at(s, n, i));
    }
}

/// A fresh page takes cells that are all there and fit it with their
/// slots: building succeeds, holds one slot per cell, and its free end lies
/// below the cells, as far from the page end as their sizes add up to.
pub proof fn lemma_build_fits(t: PageType, items: Seq<Option<Seq<u8>>>, skip_missing: bool, sizes: Seq<int>, n: nat)
    requires
        n <= items.len(),
        n <= sizes.len(),
        forall|k: int| 0 <= k < n ==> (#[trigger] items[k]) is Some && items[k].unwrap().len() == sizes[k],
        forall|k: int| 0 <= k < n ==> #[trigger] sizes[k] >= 0,
        16 + 2 * n + prefix_sum(sizes, n as int) <= PAGE_SIZE_USIZE,
    ensures
        ({
            let st = build_state(t, items, skip_missing, n);
            &&& st.2 == BUILD_OK()
            &&& st.1.cell_count == n
            &&& st.1.free_start == 16 + 2 * n
            &&& st.1.free_end == PAGE_SIZE_USIZE - prefix_sum(sizes, n as int)
        }),
    decreases n,
{
    if n > 0 {
        assert(prefix_sum(sizes, n as int) == prefix_sum(sizes, n - 1) + sizes[n - 1]);
        assert(items[n - 1] is Some);
        lemma_build_fits(t, items, skip_missing, sizes, (n - 1) as nat);
        lemma_build_shape(t, items, skip_missing, (n - 1) as nat);
    }
}

/// Compaction succeeds on a page whose cells can all be read and fit a
/// fresh page together with their slots: the page keeps its type and its
/// cells, in order, and its free space lies in one piece, from the end of
/// the slots to the start of the cells.
pub proof fn lemma_compact_succeeds(s: Seq<u8>, h: PageHeader)
    requires
        s.len() == PAGE_SIZE_USIZE,
        forall|i: int| 0 <= i < h.cell_count ==> #[trigger] cell_at(s, h.cell_count as int, i) is Some,
        16 + 2 * h.cell_count + prefix_sum(cell_sizes(s, h.cell_count as int), h.cell_count as int)
            <= PAGE_SIZE_USIZE,
    ensures
        ({
            let st = compact_state(s, h);
            let n = h.cell_count as int;
            &&& st.2 == BUILD_OK()
            &&& st.1.cell_count == n
            &&& st.1.page_type == h.page_type
            &&& st.1.free_start == 16 + 2 * n
            &&& st.1.free_end == PAGE_SIZE_USIZE - prefix_sum(cell_sizes(s, n), n)
            &&& layout_ok(st.0, st.1)
            &&& forall|i: int| 0 <= i < n ==> #[trigger] cell_at(st.0, n, i) == cell_at(s, n, i)
        }),
{
    let n = h.cell_count as int;
    let items = cells_between(s, n, 0, n);
    let sizes = cell_sizes(s, n);
    assert forall|k: int| 0 <= k < n implies (#[trigger] items[k]) is Some && items[k].unwrap().len() == sizes[k] by {
        assert(items[k] == cell_at(s, n, k));
    }
    assert forall|k: int| 0 <= k < n implies #[trigger] sizes[k] >= 0 by {}
    lemma_build_fits(h.page_type, items, false, sizes, n as nat);
    lemma_build_shape(h.page_type, items, false, n as nat);
    lemma_compact_keeps_cells(s, h);
}

/// Building without skipping fails on the first missing cell.
pub proof fn lemma_build_missing_stops(t: PageType, items: Seq<Option<Seq<u8>>>, k: nat, n: nat)
    requires
        k < n <= items.len(),
        items[k as int] is None,
    ensures
        build_state(t, items, false, n).2 != BUILD_OK(),
{
    let prev = build_state(t, items, false, k);
    if prev.2 != BUILD_OK() {
        lemma_build_stuck(t, items, false, k, n);
    } else {
        lemma_build_stuck(t, items, false, k + 1, n);
    }
}

/// The position that `first_reaching` gives is never negative.
pub proof fn lemma_first_reaching_nonnegative(sizes: Seq<int>, target: int, from: int, default: int)
    requires
        from >= 0,
        default >= 0,
    ensures
        first_reaching(sizes, target, from, default) >= 0,
    decreases sizes.len() - from,
{
    if from < sizes.len() && prefix_sum(sizes, from + 1) < target {
        lemma_first_reaching_nonnegative(sizes, target, from + 1, default);
    }
}

/// Splitting a well-laid-out page divides its cells: the page keeps the
/// cells before the split point, the new page holds the rest, in order.
pub proof fn lemma_split_divides_cells(s: Seq<u8>, h: PageHeader)
    requires
        layout_ok(s, h),
        h.cell_count >= 2,
        ({
            let count = h.cell_count as int;
            let split = split_point(s, count);
            let right = build_state(
                h.page_type,
                cells_between(s, count, split, count),
                true,
                (count - split) as nat,
            );
            let th = truncated_header(h, split);
            &&& right.2 == BUILD_OK()
            &&& 16 + 2 * split <= 65535
            &&& compact_state(bytes_committed(s, th), th).2 == BUILD_OK()
        }),
    ensures
        ({
            let count = h.cell_count as int;
            let split = split_point(s, count);
            let right = build_state(
                h.page_type,
                cells_between(s, count, split, count),
                true,
                (count - split) as nat,
            );
            let th = truncated_header(h, split);
            let left = compact_state(bytes_committed(s, th), th);
            &&& 1 <= split < count
            &&& left.1.cell_count == split
            &&& right.1.cell_count == count - split
            &&& forall|i: int| 0 <= i < split ==> #[trigger] cell_at(left.0, split, i) == cell_at(s, count, i)
            &&& forall|i: int|
                0 <= i < count - split ==> #[trigger] cell_at(right.0, count - split, i) == cell_at(
                    s,
                    count,
                    split + i,
                )
        }),
{
    let count = h.cell_count as int;
    let sizes = cell_sizes(s, count);
    lemma_first_reaching_nonnegative(sizes, prefix_sum(sizes, count) / 2, 0, count / 2);
    let split = split_point(s, count);
    let items = cells_between(s, count, split, count);
    assert forall|k: int| 0 <= k < count - split implies #[trigger] items[k] is Some && wf_cell(
        items[k].unwrap(),
    ) by {
        assert(h.free_end <= slot_value(s, split + k));
        lemma_cell_at_wf(s, count, split + k);
    }
    lemma_build_holds_cells(h.page_type, items, true, (count - split) as nat);
    let th = truncated_header(h, split);
    let s2 = bytes_committed(s, th);
    lemma_truncated_cells(s, h, split);
    lemma_compact_keeps_cells(s2, th);
}

/// The sum of sizes `from..to` is the sum up to `to` less the sum up to
/// `from`; sums of equal sizes are equal.
proof fn lemma_prefix_sum_sub(sizes: Seq<int>, from: int, to: int)
    requires
        0 <= from <= to <= sizes.len(),
        forall|k: int| 0 <= k < sizes.len() ==> #[trigger] sizes[k] >= 0,
    ensures
        prefix_sum(sizes.subrange(from, to), to - from) == prefix_sum(sizes, to) - prefix_sum(sizes, from),
        prefix_sum(sizes, from) <= prefix_sum(sizes, to),
    decreases to - from,
{
    if from < to {
        lemma_prefix_sum_sub(sizes, from, to - 1);
        let sub = sizes.subrange(from, to);
        assert(sub.subrange(0, to - 1 - from) =~= sizes.subrange(from, to - 1));
        lemma_prefix_sum_same(sub, sizes.subrange(from, to - 1), to - 1 - from);
        assert(sub[to - 1 - from] == sizes[to - 1]);
    }
}

/// Sums of sizes that agree up to `n` agree.
proof fn lemma_prefix_sum_same(a: Seq<int>, b: Seq<int>, n: int)
    requires
        0 <= n <= a.len(),
        n <= b.len(),
        forall|k: int| 0 <= k < n ==> #[trigger] a[k] == b[k],
    ensures
        prefix_sum(a, n) == prefix_sum(b, n),
    decreases n,
{
    if n > 0 {
        lemma_prefix_sum_same(a, b, n - 1);
    }
}

/// The slots before `split` of a page whose header was cut down to them
/// still point to the page's cells.
proof fn lemma_truncated_cells(s: Seq<u8>, h: PageHeader, split: int)
    requires
        layout_ok(s, h),
        1 <= split < h.cell_count,
    ensures
        forall|i: int|
            0 <= i < split ==> #[trigger] cell_at(bytes_committed(s, truncated_header(h, split)), split, i)
                == cell_at(s, h.cell_count as int, i),
{
    let count = h.cell_count as int;
    let th = truncated_header(h, split);
    let s2 = bytes_committed(s, th);
    lemma_header_roundtrip(th);
    assert forall|i: int| 0 <= i < split implies #[trigger] cell_at(s2, split, i) == cell_at(s, count, i) by {
        assert(h.free_end <= slot_value(s, i));
        let o = slot_value(s, i);
        assert(s2[16 + 2 * i] == s[16 + 2 * i]);
        assert(s2[16 + 2 * i + 1] == s[16 + 2 * i + 1]);
        let l = le_u32_at(s, o);
        assert(s2[o] == s[o] && s2[o + 1] == s[o + 1] && s2[o + 2] == s[o + 2] && s2[o + 3] == s[o + 3]);
        assert(s2.subrange(o, o + 4 + l) =~= s.subrange(o, o + 4 + l));
    }
}

/// Splitting succeeds on a well-laid-out page of at least two cells that
/// fit a fresh page together with their slots: the new page takes the cells
/// from the split point on, and the page keeps those before it, compacted.
pub proof fn lemma_split_succeeds(s: Seq<u8>, h: PageHeader)
    requires
        layout_ok(s, h),
        s.len() == PAGE_SIZE_USIZE,
        h.cell_count >= 2,
        16 + 2 * h.cell_count + prefix_sum(cell_sizes(s, h.cell_count as int), h.cell_count as int)
            <= PAGE_SIZE_USIZE,
    ensures
        ({
            let count = h.cell_count as int;
            let split = split_point(s, count);
            let right = build_state(
                h.page_type,
                cells_between(s, count, split, count),
                true,
                (count - split) as nat,
            );
            let th = truncated_header(h, split);
            let left = compact_state(bytes_committed(s, th), th);
            &&& 1 <= split < count
            &&& right.2 == BUILD_OK()
            &&& 16 + 2 * split <= 65535
            &&& left.2 == BUILD_OK()
            &&& left.1.cell_count == split
            &&& right.1.cell_count == count - split
            &&& forall|i: int| 0 <= i < split ==> #[trigger] cell_at(left.0, split, i) == cell_at(s, count, i)
            &&& forall|i: int|
                0 <= i < count - split ==> #[trigger] cell_at(right.0, count - split, i) == cell_at(
                    s,
                    count,
                    split + i,
                )
        }),
{
    let count = h.cell_count as int;
    let sizes = cell_sizes(s, count);
    lemma_first_reaching_nonnegative(sizes, prefix_sum(sizes, count) / 2, 0, count / 2);
    let split = split_point(s, count);
    assert(1 <= split < count);
    assert forall|k: int| 0 <= k < sizes.len() implies #[trigger] sizes[k] >= 0 by {}
    // the right page
    let items = cells_between(s, count, split, count);
    let rs = sizes.subrange(split, count);
    assert forall|k: int| 0 <= k < count - split implies (#[trigger] items[k]) is Some && items[k].unwrap().len()
        == rs[k] by {
        assert(items[k] == cell_at(s, count, split + k));
        assert(h.free_end <= slot_value(s, split + k));
    }
    assert forall|k: int| 0 <= k < count - split implies #[trigger] rs[k] >= 0 by {}
    lemma_prefix_sum_sub(sizes, split, count);
    lemma_prefix_sum_sub(sizes, 0, split);
    lemma_build_fits(h.page_type, items, true, rs, (count - split) as nat);
    // the left page
    let th = truncated_header(h, split);
    let s2 = bytes_committed(s, th);
    lemma_truncated_cells(s, h, split);
    lemma_header_roundtrip(th);
    assert(s2.len() == PAGE_SIZE_USIZE);
    assert forall|i: int| 0 <= i < th.cell_count implies #[trigger] cell_at(s2, th.cell_count as int, i) is Some by {
        assert(cell_at(s2, split, i) == cell_at(s, count, i));
        assert(h.free_end <= slot_value(s, i));
    }
    let ls = cell_sizes(s2, split);
    assert forall|k: int| 0 <= k < split implies #[trigger] ls[k] == sizes[k] by {
        assert(cell_at(s2, split, k) == cell_at(s, count, k));
    }
    lemma_prefix_sum_same(ls, sizes, split);
    lemma_compact_succeeds(s2, th);
    lemma_split_divides_cells(s, h);
}

/// Copies `src` over `dst`, which has the same length.
fn copy_bytes(dst: &mut [u8], src: &[u8])
    requires
        old(dst)@.len() == src@.len(),
    ensures
        final(dst)@ == src@,
{
    let mut i: usize = 0;
    while i < src.len()
        invariant
            i <= src@.len(),
            dst@.len() == src@.len(),
            forall|k: int| 0 <= k < i ==> #[trigger] dst@[k] == src@[k],
        decreases src@.len() - i,
    {
        dst[i] = src[i];
        i = i + 1;
    }
    assert(dst@ =~= src@);
}

/// Every cell that `get_cell` reads lies inside the page.
pub proof fn lemma_cell_sizes_bounded(s: Seq<u8>, count: int)
    ensures
        forall|k: int| 0 <= k < count ==> 0 <= #[trigger] cell_sizes(s, count)[k] <= s.len(),
{
}

/// Builds a fresh page of the header's type from the cells at slots
/// `from..to` of the page held in `data` and `header`, each inserted at its
/// position counted from `from`.
fn build_from_cells(
    data: &[u8],
    header: &PageHeader,
    from: usize,
    to: usize,
    skip_missing: bool,
) -> (r: Result<(Vec<u8>, PageHeader), PageError>)
    requires
        from <= to <= header.cell_count,
    ensures
        ({
            let st = build_state(
                header.page_type,
                cells_between(data@, header.cell_count as int, from as int, to as int),
                skip_missing,
                (to - from) as nat,
            );
            &&& (r is Ok <==> st.2 == BUILD_OK())
            &&& r matches Ok(res) ==> res.0@ == st.0 && res.1 == st.1
            &&& r matches Err(e) ==> if st.2 == BUILD_MISSING() {
                e is Corrupted
            } else if st.2 == BUILD_FULL() {
                e is NoSpace
            } else {
                e is InvalidIndex
            }
        }),
{
    let page_type = header.page_type;
    let ghost items = cells_between(data@, header.cell_count as int, from as int, to as int);
    let mut buf: Vec<u8> = vec![0u8; PAGE_SIZE_USIZE];
    assert(buf@ =~= Seq::new((PAGE_SIZE_USIZE) as nat, |i: int| 0u8));
    let mut th = PageHeader::new(page_type);
    write_header(buf.as_mut_slice(), &th);
    assert(buf@ =~= fresh_page_bytes(page_type));
    let mut i: usize = from;
    while i < to
        invariant
            from <= i <= to,
            to <= header.cell_count,
            page_type == header.page_type,
            items == cells_between(data@, header.cell_count as int, from as int, to as int),
            build_state(page_type, items, skip_missing, (i - from) as nat) == (buf@, th, BUILD_OK()),
        decreases to - i,
    {
        proof {
            lemma_build_shape(page_type, items, skip_missing, (i - from) as nat);
        }
        match get_cell_raw(data, header, i) {
            Some(cell) => {
                let res = insert_raw(buf.as_mut_slice(), &mut th, i - from, cell);
                if let Err(e) = res {
                    proof {
                        lemma_build_stuck(page_type, items, skip_missing, (i + 1 - from) as nat, (to - from) as nat);
                    }
                    return Err(e);
                }
            },
            None => {
                if !skip_missing {
                    proof {
                        lemma_build_stuck(page_type, items, skip_missing, (i + 1 - from) as nat, (to - from) as nat);
                    }
                    return Err(PageError::Corrupted);
                }
            },
        }
        i = i + 1;
    }
    Ok((buf, th))
}

pub struct SlottedPage<'a> {
    pub header: PageHeader,
    data: &'a mut [u8],
}

impl<'a> SlottedPage<'a> {
    /// The bytes of the page.
    pub closed spec fn bytes(&self) -> Seq<u8> {
        self.data@
    }

    /// The in-memory header of the page: the field `header`. (The spec
    /// stays closed because the page's byte buffer is a private field;
    /// `page_header` gives the field with this as its contract.)
    pub closed spec fn hdr(&self) -> PageHeader {
        self.header
    }

    /// The in-memory header of the page, as `hdr` names it.
    pub fn page_header(&self) -> (r: PageHeader)
        ensures
            r == self.hdr(),
    {
        self.header
    }

    /// The cell at `i`, as `get_cell` reads it.
    pub open spec fn cell(&self, i: int) -> Option<Seq<u8>> {
        cell_at(self.bytes(), self.hdr().cell_count as int, i)
    }

    pub fn new(data: &'a mut [u8], page_type: PageType) -> (r: Result<Self, PageError>)
        ensures
            match r {
                Ok(p) => {
                    &&& p.hdr() == fresh_header(page_type)
                    &&& p.bytes() == bytes_committed(old(data)@, fresh_header(page_type))
                    &&& old(data)@.len() >= 16
                },
                Err(e) => e is NoSpace && old(data)@.len() < 16,
            },
    {
        if data.len() < PAGE_HEADER_SIZE_USIZE {
            return Err(PageError::NoSpace);
        }
        let header = PageHeader::new(page_type);
        write_header(data, &header);
        Ok(Self { header, data })
    }

    pub fn open(data: &'a mut [u8]) -> (r: Result<Self, PageError>)
        ensures
            match r {
                Ok(p) => {
                    &&& decode_header(old(data)@) == Some(p.hdr())
                    &&& p.bytes() == old(data)@
                },
                Err(e) => e is Corrupted && decode_header(old(data)@) is None,
            },
    {
        if data.len() < PAGE_HEADER_SIZE_USIZE {
            return Err(PageError::Corrupted);
        }
        let header = PageHeader::deserialize(&data[0..PAGE_HEADER_SIZE_USIZE])?;
        assert(data@.subrange(0, 16) =~= data@.subrange(0, 16));
        Ok(Self { header, data })
    }

    pub fn commit(&mut self)
        ensures
            final(self).hdr() == old(self).hdr(),
            final(self).bytes() == bytes_committed(old(self).bytes(), old(self).hdr()),
    {
        if self.data.len() >= PAGE_HEADER_SIZE_USIZE {
            write_header(self.data, &self.header);
        }
    }

    pub fn free_space(&self) -> (r: usize)
        ensures
            r == spec_free_space(self.hdr()),
    {
        if self.header.free_end >= self.header.free_start {
            (self.header.free_end - self.header.free_start) as usize
        } else {
            0
        }
    }

    /// Inserts a cell at slot `index`, shifting the later slots.
    ///
    /// The cell data is copied before the index is checked, so a call that
    /// fails with `InvalidIndex`, or with `NoSpace` for want of room in the
    /// slot directory, leaves the cell bytes written and the free end lowered
    /// in the in-memory header.
    pub fn insert_at_index(&mut self, index: usize, val: &[u8]) -> (r: Result<(), PageError>)
        requires
            old(self).hdr().cell_count < 65535 || !insert_succeeds(
                old(self).bytes(),
                old(self).hdr(),
                index as int,
                val@.len() as int,
            ),
        ensures
            final(self).bytes() == bytes_after_attempt(
                old(self).bytes(),
                old(self).hdr(),
                index as int,
                val@,
            ),
            final(self).hdr() == header_after_attempt(
                old(self).bytes(),
                old(self).hdr(),
                index as int,
                val@.len() as int,
            ),
            r is Ok <==> insert_succeeds(
                old(self).bytes(),
                old(self).hdr(),
                index as int,
                val@.len() as int,
            ),
            r matches Err(e) ==> if insert_fails_on_index(
                old(self).bytes(),
                old(self).hdr(),
                index as int,
                val@.len() as int,
            ) {
                e is InvalidIndex
            } else {
                e is NoSpace
            },
            r is Ok && layout_ok(old(self).bytes(), old(self).hdr()) && wf_cell(val@) ==> {
                let n = old(self).hdr().cell_count as int;
                &&& layout_ok(final(self).bytes(), final(self).hdr())
                &&& final(self).cell(index as int) == Some(val@)
                &&& forall|j: int| 0 <= j < index ==> #[trigger] final(self).cell(j) == old(self).cell(j)
                &&& forall|j: int| index < j <= n ==> #[trigger] final(self).cell(j) == old(self).cell(j - 1)
            },
    {
        let ghost s0 = self.bytes();
        let ghost h0 = self.hdr();
        let r = insert_raw(self.data, &mut self.header, index, val);
        proof {
            if r is Ok && layout_ok(s0, h0) && wf_cell(val@) {
                lemma_insert_then_get(s0, h0, index as int, val@);
            }
        }
        r
    }

    pub fn get_cell(&self, index: usize) -> (r: Option<&[u8]>)
        ensures
            match r {
                Some(c) => self.cell(index as int) == Some(c@),
                None => self.cell(index as int) is None,
            },
    {
        get_cell_raw(self.data, &self.header, index)
    }

    pub fn get_cell_offset(&self, index: usize) -> (r: Option<u16>)
        requires
            index <= (usize::MAX - 18) / 2,
        ensures
            match r {
                Some(o) => 16 + 2 * index + 2 <= self.bytes().len() && o == slot_value(
                    self.bytes(),
                    index as int,
                ),
                None => 16 + 2 * index + 2 > self.bytes().len(),
            },
    {
        let slot_pos = PAGE_HEADER_SIZE_USIZE + index * SLOT_SIZE;
        if slot_pos + 2 > self.data.len() {
            return None;
        }
        Some(read_u16(self.data, slot_pos))
    }
    /// Rewrites the page so that its cells lie packed at the end of a fresh page.
    pub fn compact(&mut self) -> (r: Result<(), PageError>)
        requires
            old(self).bytes().len() == PAGE_SIZE_USIZE,
        ensures
            ({
                let st = compact_state(old(self).bytes(), old(self).hdr());
                if st.2 == BUILD_OK() {
                    &&& r is Ok
                    &&& final(self).bytes() == st.0
                    &&& final(self).hdr() == st.1
                } else {
                    &&& final(self).bytes() == old(self).bytes()
                    &&& final(self).hdr() == old(self).hdr()
                    &&& r matches Err(e)
                    &&& if st.2 == BUILD_MISSING() {
                        e is Corrupted
                    } else if st.2 == BUILD_FULL() {
                        e is NoSpace
                    } else {
                        e is InvalidIndex
                    }
                }
            }),
    {
        let count = self.header.cell_count as usize;
        let (temp, th) = build_from_cells(self.data, &self.header, 0, count, false)?;
        proof {
            lemma_build_shape(
                self.header.page_type,
                cells_between(self.data@, count as int, 0, count as int),
                false,
                count as nat,
            );
            lemma_header_roundtrip(th);
        }
        copy_bytes(self.data, temp.as_slice());
        assert(self.data@.subrange(0, 16) == header_bytes(th));
        self.header = PageHeader::deserialize(&self.data[0..PAGE_HEADER_SIZE_USIZE])?;
        Ok(())
    }
    /// Moves the upper half of the cells, by bytes, to a fresh page and
    /// returns that page; the cells that stay are compacted.
    ///
    /// A page of one cell is left as it is (`Ok(None)`); an empty page is an
    /// `InvalidIndex` error.
    pub fn split_off(&mut self) -> (r: Result<Option<Vec<u8>>, PageError>)
        requires
            old(self).hdr().cell_count >= 2 ==> old(self).bytes().len() == PAGE_SIZE_USIZE,
        ensures
            ({
                let s = old(self).bytes();
                let h = old(self).hdr();
                let count = h.cell_count as int;
                if count == 0 {
                    &&& r matches Err(e) && e is InvalidIndex
                    &&& final(self).bytes() == s
                    &&& final(self).hdr() == h
                } else if count == 1 {
                    &&& r matches Ok(None)
                    &&& final(self).bytes() == s
                    &&& final(self).hdr() == h
                } else {
                    let split = split_point(s, count);
                    let right = build_state(
                        h.page_type,
                        cells_between(s, count, split, count),
                        true,
                        (count - split) as nat,
                    );
                    if right.2 != BUILD_OK() {
                        &&& final(self).bytes() == s
                        &&& final(self).hdr() == h
                        &&& r matches Err(e)
                        &&& if right.2 == BUILD_FULL() {
                            e is NoSpace
                        } else {
                            e is InvalidIndex
                        }
                    } else if 16 + 2 * split > 65535 {
                        &&& r matches Err(e) && e is NoSpace
                        &&& final(self).bytes() == s
                        &&& final(self).hdr() == PageHeader { cell_count: split as u16, ..h }
                    } else {
                        let th = truncated_header(h, split);
                        let s2 = bytes_committed(s, th);
                        let cs = compact_state(s2, th);
                        if cs.2 == BUILD_OK() {
                            &&& r matches Ok(Some(v)) && v@ == right.0
                            &&& final(self).bytes() == cs.0
                            &&& final(self).hdr() == cs.1
                        } else {
                            &&& final(self).bytes() == s2
                            &&& final(self).hdr() == th
                            &&& r matches Err(e)
                            &&& if cs.2 == BUILD_MISSING() {
                                e is Corrupted
                            } else if cs.2 == BUILD_FULL() {
                                e is NoSpace
                            } else {
                                e is InvalidIndex
                            }
                        }
                    }
                }
            }),
    {
        let count = self.header.cell_count as usize;
        if count == 0 {
            return Err(PageError::InvalidIndex);
        }
        if count == 1 {
            return Ok(None);
        }
        let ghost s = self.data@;
        let ghost sz = cell_sizes(s, count as int);
        // the size of every cell
        let mut sizes: Vec<usize> = Vec::new();
        let mut total: usize = 0;
        let mut i: usize = 0;
        while i < count
            invariant
                i <= count,
                count == self.header.cell_count,
                count >= 2,
                self.data@ == s,
                s.len() == PAGE_SIZE_USIZE,
                sz == cell_sizes(s, count as int),
                sizes@.len() == i,
                forall|k: int| 0 <= k < i ==> sizes@[k] == #[trigger] sz[k],
                total == prefix_sum(sz, i as int),
                total <= i * PAGE_SIZE_USIZE,
            decreases count - i,
        {
            match get_cell_raw(self.data, &self.header, i) {
                Some(cell) => {
                    sizes.push(cell.len());
                    total = total + cell.len();
                },
                None => {
                    sizes.push(0);
                },
            }
            i = i + 1;
        }
        // the first slot after which half of the bytes lie before it
        let target = total / 2;
        let ghost default = (count / 2) as int;
        let mut split_idx = count / 2;
        let mut current: usize = 0;
        let mut j: usize = 0;
        let mut found = false;
        while j < count && !found
            invariant
                j <= count,
                count >= 2,
                s.len() == PAGE_SIZE_USIZE,
                sz == cell_sizes(s, count as int),
                sizes@.len() == count,
                sz.len() == count,
                forall|k: int| 0 <= k < count ==> sizes@[k] == #[trigger] sz[k],
                total == prefix_sum(sz, count as int),
                total <= count * PAGE_SIZE_USIZE,
                target == total / 2,
                !found ==> current == prefix_sum(sz, j as int),
                !found ==> current <= j * PAGE_SIZE_USIZE,
                !found ==> split_idx == default,
                !found ==> first_reaching(sz, target as int, 0, default) == first_reaching(
                    sz,
                    target as int,
                    j as int,
                    default,
                ),
                found ==> split_idx == first_reaching(sz, target as int, 0, default),
            decreases count - j + if found {
                0int
            } else {
                1int
            },
        {
            proof {
                lemma_cell_sizes_bounded(s, count as int);
            }
            current = current + sizes[j];
            if current >= target {
                split_idx = j + 1;
                found = true;
            } else {
                j = j + 1;
            }
        }
        if split_idx >= count {
            split_idx = count - 1;
        }
        if split_idx == 0 && count > 1 {
            split_idx = 1;
        }
        assert(split_idx == split_point(s, count as int));
        // the fresh page that receives the upper cells
        proof {
            lemma_build_skips(
                self.header.page_type,
                cells_between(s, count as int, split_idx as int, count as int),
                (count - split_idx) as nat,
            );
        }
        let (new_buffer, _) = build_from_cells(self.data, &self.header, split_idx, count, true)?;
        self.header.cell_count = split_idx as u16;
        let new_free_start = PAGE_HEADER_SIZE_USIZE + split_idx * SLOT_SIZE;
        if new_free_start > 65535 {
            return Err(PageError::NoSpace);
        }
        self.header.free_start = new_free_start as u16;
        self.commit();
        self.compact()?;
        Ok(Some(new_buffer))
    }
}

} // verus!
