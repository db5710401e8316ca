//! Little-endian integer reads from byte buffers.
use vstd::prelude::*;

verus! {

/// The little-endian `u32` stored at `b[i..i+4]`.
pub open spec fn le_u32(b: Seq<u8>, i: int) -> u32 {
    (b[i] as int + b[i + 1] as int * 0x100 + b[i + 2] as int * 0x1_0000 + b[i + 3] as int
        * 0x100_0000) as u32
}

/// The little-endian `u64` stored at `b[i..i+8]`.
pub open spec fn le_u64(b: Seq<u8>, i: int) -> u64 {
    (le_u32(b, i) as int + le_u32(b, i + 4) as int * 0x1_0000_0000) as u64
}

/// Reads the little-endian `u32` at byte offset `offset`.
pub fn read_u32_le(data: &[u8], offset: usize) -> (r: u32)
    requires
        offset + 4 <= data@.len(),
    ensures
        r == le_u32(data@, offset as int),
{
    let b0 = data[offset];
    let b1 = data[offset + 1];
    let b2 = data[offset + 2];
    let b3 = data[offset + 3];
    let r = (b0 as u32) | ((b1 as u32) << 8u32) | ((b2 as u32) << 16u32) | ((b3 as u32) << 24u32);
    assert(r == (b0 as int + b1 as int * 0x100 + b2 as int * 0x1_0000 + b3 as int * 0x100_0000) as u32)
        by (bit_vector)
        requires
            r == (b0 as u32) | ((b1 as u32) << 8u32) | ((b2 as u32) << 16u32) | ((b3 as u32) << 24u32),
    ;
    r
}

/// Reads the little-endian `u64` at byte offset `offset`.
pub fn read_u64_le(data: &[u8], offset: usize) -> (r: u64)
    requires
        offset + 8 <= data@.len(),
    ensures
        r == le_u64(data@, offset as int),
{
    let _len = data.len();
    let lo = read_u32_le(data, offset);
    let hi = read_u32_le(data, offset + 4);
    let r = (lo as u64) | ((hi as u64) << 32u64);
    assert(r == (lo as int + hi as int * 0x1_0000_0000) as u64) by (bit_vector)
        requires
            r == (lo as u64) | ((hi as u64) << 32u64),
    ;
    r
}

/// The little-endian `u32` at `offset`, or `None` if it does not fit.
pub fn try_u32_le(data: &[u8], offset: usize) -> (r: Option<u32>)
    ensures
        match r {
            Some(v) => offset + 4 <= data@.len() && v == le_u32(data@, offset as int),
            None => offset + 4 > data@.len(),
        },
{
    if offset <= data.len() && data.len() - offset >= 4 {
        Some(read_u32_le(data, offset))
    } else {
        None
    }
}

/// The little-endian `u64` at `offset`, or `None` if it does not fit.
pub fn try_u64_le(data: &[u8], offset: usize) -> (r: Option<u64>)
    ensures
        match r {
            Some(v) => offset + 8 <= data@.len() && v == le_u64(data@, offset as int),
            None => offset + 8 > data@.len(),
        },
{
    if offset <= data.len() && data.len() - offset >= 8 {
        Some(read_u64_le(data, offset))
    } else {
        None
    }
}

/// Takes a little-endian `u32` off the front of `input`, or returns `None`
/// and leaves it alone if fewer than four bytes remain.
pub fn take_u32(input: &mut &[u8]) -> (r: Option<u32>)
    ensures
        match r {
            Some(v) => old(input)@.len() >= 4 && v == le_u32(old(input)@, 0) && final(input)@
                == old(input)@.subrange(4, old(input)@.len() as int),
            None => old(input)@.len() < 4 && final(input)@ == old(input)@,
        },
{
    let cur: &[u8] = *input;
    if cur.len() < 4 {
        return None;
    }
    let v = read_u32_le(cur, 0);
    let (_, rest) = cur.split_at(4);
    *input = rest;
    Some(v)
}

/// Takes `n` bytes off the front of `input`, or returns `None` and leaves it
/// alone if fewer remain.
pub fn take_bytes(input: &mut &[u8], n: usize) -> (r: Option<Vec<u8>>)
    ensures
        match r {
            Some(v) => old(input)@.len() >= n && v@ == old(input)@.subrange(0, n as int)
                && final(input)@ == old(input)@.subrange(n as int, old(input)@.len() as int),
            None => old(input)@.len() < n && final(input)@ == old(input)@,
        },
{
    let cur: &[u8] = *input;
    if cur.len() < n {
        return None;
    }
    let (head, rest) = cur.split_at(n);
    *input = rest;
    Some(vstd::slice::slice_to_vec(head))
}

/// The four little-endian bytes of `v`.
pub open spec fn u32_le_bytes(v: u32) -> Seq<u8> {
    seq![(v & 0xff) as u8, ((v >> 8u32) & 0xff) as u8, ((v >> 16u32) & 0xff) as u8, ((v >> 24u32) & 0xff) as u8]
}

/// Reading the four bytes of `v` back gives `v`, whatever follows them.
pub proof fn lemma_le_u32_of_bytes(v: u32, rest: Seq<u8>)
    ensures
        le_u32(u32_le_bytes(v) + rest, 0) == v,
{
    let b = u32_le_bytes(v) + rest;
    let b0 = (v & 0xff) as u8;
    let b1 = ((v >> 8u32) & 0xff) as u8;
    let b2 = ((v >> 16u32) & 0xff) as u8;
    let b3 = ((v >> 24u32) & 0xff) as u8;
    assert(b[0] == b0 && b[1] == b1 && b[2] == b2 && b[3] == b3);
    assert(v == (b0 as int + b1 as int * 0x100 + b2 as int * 0x1_0000 + b3 as int * 0x100_0000) as u32)
        by (bit_vector)
        requires
            b0 == (v & 0xff) as u8,
            b1 == ((v >> 8u32) & 0xff) as u8,
            b2 == ((v >> 16u32) & 0xff) as u8,
            b3 == ((v >> 24u32) & 0xff) as u8,
    ;
}

/// Four bytes of `v` at `i` read back as `v`.
pub proof fn lemma_le_u32_at(b: Seq<u8>, i: int, v: u32)
    requires
        0 <= i,
        i + 4 <= b.len(),
        b.subrange(i, i + 4) == u32_le_bytes(v),
    ensures
        le_u32(b, i) == v,
{
    lemma_le_u32_of_bytes(v, Seq::empty());
    let w = u32_le_bytes(v) + Seq::<u8>::empty();
    assert(b[i] == w[0] && b[i + 1] == w[1] && b[i + 2] == w[2] && b[i + 3] == w[3]) by {
        assert(b.subrange(i, i + 4)[0] == b[i]);
        assert(b.subrange(i, i + 4)[1] == b[i + 1]);
        assert(b.subrange(i, i + 4)[2] == b[i + 2]);
        assert(b.subrange(i, i + 4)[3] == b[i + 3]);
    }
}

/// Appends `v` to `out` as four little-endian bytes.
pub fn push_u32_le(out: &mut Vec<u8>, v: u32)
    ensures
        final(out)@ == old(out)@ + u32_le_bytes(v),
{
    out.push((v & 0xff) as u8);
    out.push(((v >> 8u32) & 0xff) as u8);
    out.push(((v >> 16u32) & 0xff) as u8);
    out.push(((v >> 24u32) & 0xff) as u8);
    assert(out@ =~= old(out)@ + u32_le_bytes(v));
}

} // verus!
