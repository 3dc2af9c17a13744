//! Little-endian integer encoding on byte sequences.
use vstd::prelude::*;

verus! {

/// The `u16` stored little-endian at position `i` of `s`.
pub open spec fn le_u16_at(s: Seq<u8>, i: int) -> int {
    s[i] + 256 * s[i + 1]
}

/// The `u32` stored little-endian at position `i` of `s`.
pub open spec fn le_u32_at(s: Seq<u8>, i: int) -> int {
    s[i] + 256 * s[i + 1] + 65536 * s[i + 2] + 16777216 * s[i + 3]
}

/// The `u64` stored little-endian at position `i` of `s`.
pub open spec fn le_u64_at(s: Seq<u8>, i: int) -> int {
    le_u32_at(s, i) + 4294967296 * le_u32_at(s, i + 4)
}

/// The two little-endian bytes of `x`.
pub open spec fn u16_bytes(x: u16) -> Seq<u8> {
    seq![(x % 256) as u8, (x / 256) as u8]
}

/// The four little-endian bytes of `x`.
pub open spec fn u32_bytes(x: u32) -> Seq<u8> {
    seq![
        (x % 256) as u8,
        ((x / 256) % 256) as u8,
        ((x / 65536) % 256) as u8,
        (x / 16777216) as u8,
    ]
}

/// The eight little-endian bytes of `x`.
pub open spec fn u64_bytes(x: u64) -> Seq<u8> {
    u32_bytes((x % 4294967296) as u32) + u32_bytes((x / 4294967296) as u32)
}

pub proof fn lemma_u16_roundtrip(x: u16)
    ensures
        u16_bytes(x).len() == 2,
        le_u16_at(u16_bytes(x), 0) == x,
{
}

pub proof fn lemma_u32_roundtrip(x: u32)
    ensures
        u32_bytes(x).len() == 4,
        le_u32_at(u32_bytes(x), 0) == x,
{
}

pub proof fn lemma_u64_roundtrip(x: u64)
    ensures
        u64_bytes(x).len() == 8,
        le_u64_at(u64_bytes(x), 0) == x,
{
    let lo = (x % 4294967296) as u32;
    let hi = (x / 4294967296) as u32;
    lemma_u32_roundtrip(lo);
    lemma_u32_roundtrip(hi);
    let s = u64_bytes(x);
    assert(s.subrange(0, 4) =~= u32_bytes(lo));
    assert(s.subrange(4, 8) =~= u32_bytes(hi));
    assert(le_u32_at(s, 0) == le_u32_at(u32_bytes(lo), 0));
    assert(le_u32_at(s, 4) == le_u32_at(u32_bytes(hi), 0));
}

/// A little-endian `u16` read inside `s` is the one read from the same bytes alone.
pub proof fn lemma_le_u16_shift(s: Seq<u8>, i: int, t: Seq<u8>)
    requires
        0 <= i,
        i + 2 <= s.len(),
        t.len() == 2,
        s.subrange(i, i + 2) == t,
    ensures
        le_u16_at(s, i) == le_u16_at(t, 0),
{
    assert(s[i] == t[0] && s[i + 1] == t[1]) by {
        assert(s.subrange(i, i + 2)[0] == s[i]);
        assert(s.subrange(i, i + 2)[1] == s[i + 1]);
    }
}

/// A little-endian `u32` read inside `s` is the one read from the same bytes alone.
pub proof fn lemma_le_u32_shift(s: Seq<u8>, i: int, t: Seq<u8>)
    requires
        0 <= i,
        i + 4 <= s.len(),
        t.len() == 4,
        s.subrange(i, i + 4) == t,
    ensures
        le_u32_at(s, i) == le_u32_at(t, 0),
{
    assert(s[i] == t[0] && s[i + 1] == t[1] && s[i + 2] == t[2] && s[i + 3] == t[3]) by {
        assert(s.subrange(i, i + 4)[0] == s[i]);
        assert(s.subrange(i, i + 4)[1] == s[i + 1]);
        assert(s.subrange(i, i + 4)[2] == s[i + 2]);
        assert(s.subrange(i, i + 4)[3] == s[i + 3]);
    }
}

/// A little-endian `u64` read inside `s` is the one read from the same bytes alone.
pub proof fn lemma_le_u64_shift(s: Seq<u8>, i: int, t: Seq<u8>)
    requires
        0 <= i,
        i + 8 <= s.len(),
        t.len() == 8,
        s.subrange(i, i + 8) == t,
    ensures
        le_u64_at(s, i) == le_u64_at(t, 0),
{
    assert(s.subrange(i, i + 4) =~= t.subrange(0, 4));
    assert(s.subrange(i + 4, i + 8) =~= t.subrange(4, 8));
    lemma_le_u32_shift(s, i, t.subrange(0, 4));
    lemma_le_u32_shift(s, i + 4, t.subrange(4, 8));
    lemma_le_u32_shift(t, 0, t.subrange(0, 4));
    lemma_le_u32_shift(t, 4, t.subrange(4, 8));
}

/// Reads the little-endian `u16` at `pos`.
pub fn read_u16(s: &[u8], pos: usize) -> (r: u16)
    requires
        pos + 2 <= s@.len(),
    ensures
        r == le_u16_at(s@, pos as int),
{
    s[pos] as u16 + (s[pos + 1] as u16) * 256
}

/// Reads the little-endian `u32` at `pos`.
pub fn read_u32(s: &[u8], pos: usize) -> (r: u32)
    requires
        pos + 4 <= s@.len(),
    ensures
        r == le_u32_at(s@, pos as int),
{
    s[pos] as u32 + (s[pos + 1] as u32) * 256 + (s[pos + 2] as u32) * 65536 + (s[pos + 3] as u32)
        * 16777216
}

/// Reads the little-endian `u64` at `pos`.
pub fn read_u64(s: &[u8], pos: usize) -> (r: u64)
    requires
        pos + 8 <= s@.len(),
    ensures
        r == le_u64_at(s@, pos as int),
{
    let lo = read_u32(s, pos);
    assert(s@.len() == s.len());
    let hi = read_u32(s, pos + 4);
    lo as u64 + (hi as u64) * 4294967296
}

/// Appends the little-endian bytes of `x`.
pub fn push_u16(out: &mut Vec<u8>, x: u16)
    ensures
        final(out)@ == old(out)@ + u16_bytes(x),
{
    out.push((x % 256) as u8);
    out.push((x / 256) as u8);
    assert(final(out)@ =~= old(out)@ + u16_bytes(x));
}

/// Appends the little-endian bytes of `x`.
pub fn push_u32(out: &mut Vec<u8>, x: u32)
    ensures
        final(out)@ == old(out)@ + u32_bytes(x),
{
    out.push((x % 256) as u8);
    out.push(((x / 256) % 256) as u8);
    out.push(((x / 65536) % 256) as u8);
    out.push((x / 16777216) as u8);
    assert(final(out)@ =~= old(out)@ + u32_bytes(x));
}

/// Appends the little-endian bytes of `x`.
pub fn push_u64(out: &mut Vec<u8>, x: u64)
    ensures
        final(out)@ == old(out)@ + u64_bytes(x),
{
    push_u32(out, (x % 4294967296) as u32);
    push_u32(out, (x / 4294967296) as u32);
    assert(final(out)@ =~= old(out)@ + u64_bytes(x));
}

/// Appends the bytes of `src`.
pub fn push_bytes(out: &mut Vec<u8>, src: &[u8])
    ensures
        final(out)@ == old(out)@ + src@,
{
    let ghost start = out@;
    let mut i: usize = 0;
    while i < src.len()
        invariant
            i <= src@.len(),
            out@ == start + src@.subrange(0, i as int),
        decreases src@.len() - i,
    {
        out.push(src[i]);
        i = i + 1;
        assert(out@ =~= start + src@.subrange(0, i as int));
    }
    assert(src@.subrange(0, src@.len() as int) =~= src@);
}

/// `n` zero bytes.
pub open spec fn zeros(n: int) -> Seq<u8> {
    Seq::new(n as nat, |i: int| 0u8)
}

/// Appends `n` zero bytes.
pub fn push_zeros(out: &mut Vec<u8>, n: usize)
    ensures
        final(out)@ == old(out)@ + zeros(n as int),
{
    let ghost start = out@;
    let mut i: usize = 0;
    while i < n
        invariant
            i <= n,
            out@ == start + zeros(i as int),
        decreases n - i,
    {
        out.push(0u8);
        i = i + 1;
        assert(out@ =~= start + zeros(i as int));
    }
}

/// A copy of the bytes `start..end` of `s`.
pub fn copy_range(s: &[u8], start: usize, end: usize) -> (r: Vec<u8>)
    requires
        start <= end <= s@.len(),
    ensures
        r@ == s@.subrange(start as int, end as int),
{
    let mut out: Vec<u8> = Vec::new();
    let mut i: usize = start;
    while i < end
        invariant
            start <= i <= end,
            end <= s@.len(),
            out@ == s@.subrange(start as int, i as int),
        decreases end - i,
    {
        out.push(s[i]);
        i = i + 1;
        assert(out@ =~= s@.subrange(start as int, i as int));
    }
    out
}

} // verus!
