//! The binary script data format: a header of section offsets, then pools of
//! numbers, strings, vectors, quaternions, idstrings and tables, and a root
//! value. Each value is a 32-bit word whose top byte is its type and whose
//! low 24 bits index the pool of that type.
use vstd::prelude::*;
use vstd::string::StringExecFns;
use std::collections::HashSet;
use crate::formats::player_save::first_zero;
use crate::read_helpers::{le_u32, le_u64, read_u32_le, read_u64_le};
use crate::text::utf8_str;
use super::Vector;
use super::document::{
    insert_all, pair_views, table_from_pairs, DocTable, DocValue, Document, Quaternion, TableView,
    ValueView,
};

verus! {

/// Why binary script data could not be read.
#[derive(Debug, Clone, Copy, PartialEq, Eq, Structural)]
pub enum BinaryError {
    /// Too short to tell the 32-bit layout from the 64-bit one.
    TooShort,
    /// A read past the end of the data.
    OutOfBounds,
    /// A value of the null type, which documents cannot hold.
    NullValue,
    /// A value of an unknown type.
    UnknownTag(u32),
    /// A string that runs to the end of the data without a NUL.
    UnterminatedString,
    /// A string whose bytes are not UTF-8.
    InvalidUtf8,
}

/// The first word of data in the 64-bit layout.
pub const X64_MAGIC: u32 = 568494624;

/// Where the pools of a binary document start, and which of the three
/// layouts it uses (RAID's, 64-bit, or 32-bit).
#[derive(Debug, Clone, Copy)]
pub struct BinaryLayout {
    pub is_raid: bool,
    pub is_x64: bool,
    pub float_offset: u64,
    pub string_offset: u64,
    pub vector_offset: u64,
    pub quaternion_offset: u64,
    pub idstring_offset: u64,
    pub table_offset: u64,
}

/// The one of three sizes that the layout calls for.
pub open spec fn by_variant(lay: BinaryLayout, raid: int, x64: int, x86: int) -> int {
    if lay.is_raid {
        raid
    } else if lay.is_x64 {
        x64
    } else {
        x86
    }
}

/// The size of an offset: eight bytes in the 64-bit layouts, else four.
pub open spec fn offset_size(lay: BinaryLayout) -> int {
    if lay.is_x64 {
        8
    } else {
        4
    }
}

/// The little-endian `u32` at `pos`, where it lies within `b`.
pub open spec fn u32_at(b: Seq<u8>, pos: int) -> Option<u32> {
    if 0 <= pos && pos + 4 <= b.len() {
        Some(le_u32(b, pos))
    } else {
        None
    }
}

/// The little-endian `u64` at `pos`, where it lies within `b`.
pub open spec fn u64_at(b: Seq<u8>, pos: int) -> Option<u64> {
    if 0 <= pos && pos + 8 <= b.len() {
        Some(le_u64(b, pos))
    } else {
        None
    }
}

/// The offset stored at `pos`: eight bytes in the 64-bit layouts, else four.
pub open spec fn offset_at(b: Seq<u8>, x64: bool, pos: int) -> Option<int> {
    if x64 {
        match u64_at(b, pos) {
            Some(v) => Some(v as int),
            None => None,
        }
    } else {
        match u32_at(b, pos) {
            Some(v) => Some(v as int),
            None => None,
        }
    }
}

/// The `k`-th offset of the header.
pub open spec fn header_offset(b: Seq<u8>, is_raid: bool, x64: bool, k: int) -> Option<int> {
    let pad: int = if is_raid {
        24
    } else if x64 {
        16
    } else {
        12
    };
    let os: int = if x64 {
        8
    } else {
        4
    };
    offset_at(b, x64, pad + (pad + os) * k)
}

/// The layout of `b`: 64-bit where it is RAID's or starts with the 64-bit
/// magic word, and the six pool offsets of its header.
pub open spec fn spec_layout(b: Seq<u8>, is_raid: bool) -> Result<BinaryLayout, BinaryError> {
    if !is_raid && b.len() < 4 {
        Err(BinaryError::TooShort)
    } else {
        let x64 = is_raid || le_u32(b, 0) == X64_MAGIC;
        match (
            header_offset(b, is_raid, x64, 0),
            header_offset(b, is_raid, x64, 1),
            header_offset(b, is_raid, x64, 2),
            header_offset(b, is_raid, x64, 3),
            header_offset(b, is_raid, x64, 4),
            header_offset(b, is_raid, x64, 5),
        ) {
            (Some(f), Some(s), Some(v), Some(q), Some(i), Some(t)) => Ok(
                BinaryLayout {
                    is_raid,
                    is_x64: x64,
                    float_offset: f as u64,
                    string_offset: s as u64,
                    vector_offset: v as u64,
                    quaternion_offset: q as u64,
                    idstring_offset: i as u64,
                    table_offset: t as u64,
                },
            ),
            _ => Err(BinaryError::OutOfBounds),
        }
    }
}

/// Where the root value's word lies.
pub open spec fn root_position(lay: BinaryLayout) -> int {
    by_variant(lay, 200, 152, 100)
}

/// The string with index `index` of the string pool: the bytes from where
/// its entry points up to the next NUL, read as UTF-8.
pub open spec fn spec_string(b: Seq<u8>, lay: BinaryLayout, index: int) -> Result<Seq<char>, BinaryError> {
    let pos = lay.string_offset + offset_size(lay) + index * by_variant(lay, 16, 16, 8);
    match offset_at(b, lay.is_x64, pos) {
        None => Err(BinaryError::OutOfBounds),
        Some(start) => match first_zero(b, start) {
            None => Err(BinaryError::UnterminatedString),
            Some(end) => if vstd::utf8::valid_utf8(b.subrange(start, end)) {
                Ok(vstd::utf8::decode_utf8(b.subrange(start, end)))
            } else {
                Err(BinaryError::InvalidUtf8)
            },
        },
    }
}

/// The value whose word lies at `pos`; a table is given by its index alone.
pub open spec fn spec_value(b: Seq<u8>, lay: BinaryLayout, pos: int) -> Result<ValueView, BinaryError> {
    match u32_at(b, pos) {
        None => Err(BinaryError::OutOfBounds),
        Some(word) => {
            let tag = word / 0x100_0000;
            let value = (word % 0x100_0000) as int;
            if tag == 0 {
                Err(BinaryError::NullValue)
            } else if tag == 1 {
                Ok(ValueView::Bool(false))
            } else if tag == 2 {
                Ok(ValueView::Bool(true))
            } else if tag == 3 {
                match u32_at(b, lay.float_offset + value * 4) {
                    Some(x) => Ok(ValueView::Number(x)),
                    None => Err(BinaryError::OutOfBounds),
                }
            } else if tag == 4 {
                match spec_string(b, lay, value) {
                    Ok(s) => Ok(ValueView::String(s)),
                    Err(e) => Err(e),
                }
            } else if tag == 5 {
                let p = lay.vector_offset + 12 * value;
                match (u32_at(b, p), u32_at(b, p + 4), u32_at(b, p + 8)) {
                    (Some(x), Some(y), Some(z)) => Ok(ValueView::Vector(x, y, z)),
                    _ => Err(BinaryError::OutOfBounds),
                }
            } else if tag == 6 {
                let p = lay.quaternion_offset + 16 * value;
                match (u32_at(b, p), u32_at(b, p + 4), u32_at(b, p + 8), u32_at(b, p + 12)) {
                    (Some(x), Some(y), Some(z), Some(w)) => Ok(ValueView::Quaternion(x, y, z, w)),
                    _ => Err(BinaryError::OutOfBounds),
                }
            } else if tag == 7 {
                match u64_at(b, lay.idstring_offset + 8 * value) {
                    Some(h) => Ok(ValueView::IdString(h)),
                    None => Err(BinaryError::OutOfBounds),
                }
            } else if tag == 8 {
                Ok(ValueView::Table(value as u32))
            } else {
                Err(BinaryError::UnknownTag(tag))
            }
        },
    }
}

/// A value word's top byte is its type and its low three bytes an index
/// into that type's pool (or, for a table, the table's index); types 1 and
/// 2 are `false` and `true`. A number is the word at `4 * index` of the float
/// pool; a vector the three words from `12 * index` of the vector pool, in
/// the order x, y, z; a quaternion the four words from `16 * index` of the
/// quaternion pool, in the order x, y, z, w; an Idstring the `u64` at
/// `8 * index` of the Idstring pool.
pub proof fn lemma_pooled_values(b: Seq<u8>, lay: BinaryLayout, pos: int)
    requires
        0 <= pos,
        pos + 4 <= b.len(),
    ensures
        ({
            let word = le_u32(b, pos) as int;
            let kind = word / 0x100_0000;
            let index = word % 0x100_0000;
            let fp = lay.float_offset + 4 * index;
            let vp = lay.vector_offset + 12 * index;
            let qp = lay.quaternion_offset + 16 * index;
            let ip = lay.idstring_offset + 8 * index;
            &&& kind == 3 && fp + 4 <= b.len() ==> spec_value(b, lay, pos) == Ok::<ValueView, BinaryError>(
                ValueView::Number(le_u32(b, fp)),
            )
            &&& kind == 5 && vp + 12 <= b.len() ==> spec_value(b, lay, pos) == Ok::<ValueView, BinaryError>(
                ValueView::Vector(le_u32(b, vp), le_u32(b, vp + 4), le_u32(b, vp + 8)),
            )
            &&& kind == 6 && qp + 16 <= b.len() ==> spec_value(b, lay, pos) == Ok::<ValueView, BinaryError>(
                ValueView::Quaternion(le_u32(b, qp), le_u32(b, qp + 4), le_u32(b, qp + 8), le_u32(b, qp + 12)),
            )
            &&& kind == 7 && ip + 8 <= b.len() ==> spec_value(b, lay, pos) == Ok::<ValueView, BinaryError>(
                ValueView::IdString(le_u64(b, ip)),
            )
            &&& kind == 1 ==> spec_value(b, lay, pos) == Ok::<ValueView, BinaryError>(ValueView::Bool(false))
            &&& kind == 2 ==> spec_value(b, lay, pos) == Ok::<ValueView, BinaryError>(ValueView::Bool(true))
            &&& kind == 8 ==> spec_value(b, lay, pos) == Ok::<ValueView, BinaryError>(ValueView::Table(index as u32))
        }),
{
}

/// The first `n` key-value pairs of a table whose pairs start at `base`:
/// each a key word then a value word.
pub open spec fn spec_items(b: Seq<u8>, lay: BinaryLayout, base: int, n: nat) -> Result<
    Seq<(ValueView, ValueView)>,
    BinaryError,
>
    decreases n,
{
    if n == 0 {
        Ok(Seq::empty())
    } else {
        match spec_items(b, lay, base, (n - 1) as nat) {
            Err(e) => Err(e),
            Ok(prev) => {
                let pos = base + 8 * (n - 1);
                match spec_value(b, lay, pos) {
                    Err(e) => Err(e),
                    Ok(k) => match spec_value(b, lay, pos + 4) {
                        Err(e) => Err(e),
                        Ok(v) => Ok(prev.push((k, v))),
                    },
                }
            },
        }
    }
}

/// The signed metatable index at `pos`: eight bytes in the 64-bit layouts,
/// else four.
pub open spec fn meta_index_at(b: Seq<u8>, lay: BinaryLayout, pos: int) -> Option<int> {
    if lay.is_x64 {
        match u64_at(b, pos) {
            Some(v) => Some((v as i64) as int),
            None => None,
        }
    } else {
        match u32_at(b, pos) {
            Some(v) => Some((v as i32) as int),
            None => None,
        }
    }
}

/// The table with index `id`: its metatable (none where the index is
/// negative) and its pairs, in the order they are stored.
pub open spec fn spec_table(b: Seq<u8>, lay: BinaryLayout, id: u32) -> Result<
    (Option<Seq<char>>, Seq<(ValueView, ValueView)>),
    BinaryError,
> {
    let t = lay.table_offset + id * by_variant(lay, 40, 32, 20);
    match meta_index_at(b, lay, t) {
        None => Err(BinaryError::OutOfBounds),
        Some(mi) => {
            let meta: Result<Option<Seq<char>>, BinaryError> = if mi >= 0 {
                match spec_string(b, lay, mi) {
                    Ok(s) => Ok(Some(s)),
                    Err(e) => Err(e),
                }
            } else {
                Ok(None)
            };
            match meta {
                Err(e) => Err(e),
                Ok(m) => {
                    let count: Option<int> = if lay.is_raid {
                        match u64_at(b, t + offset_size(lay)) {
                            Some(c) => Some(c as int),
                            None => None,
                        }
                    } else {
                        match u32_at(b, t + offset_size(lay)) {
                            Some(c) => Some(c as int),
                            None => None,
                        }
                    };
                    match count {
                        None => Err(BinaryError::OutOfBounds),
                        Some(c) => match offset_at(b, lay.is_x64, t + by_variant(lay, 24, 16, 12)) {
                            None => Err(BinaryError::OutOfBounds),
                            Some(io) => match spec_items(b, lay, io, c as nat) {
                                Ok(p) => Ok((m, p)),
                                Err(e) => Err(e),
                            },
                        },
                    }
                },
            }
        },
    }
}

fn at_u32(b: &[u8], pos: u128) -> (r: Option<u32>)
    ensures
        r == u32_at(b@, pos as int),
{
    let n = b.len() as u128;
    if pos <= n && n - pos >= 4 {
        Some(read_u32_le(b, pos as usize))
    } else {
        None
    }
}

fn at_u64(b: &[u8], pos: u128) -> (r: Option<u64>)
    ensures
        r == u64_at(b@, pos as int),
{
    let n = b.len() as u128;
    if pos <= n && n - pos >= 8 {
        Some(read_u64_le(b, pos as usize))
    } else {
        None
    }
}

fn at_offset(b: &[u8], x64: bool, pos: u128) -> (r: Option<u64>)
    ensures
        match r {
            Some(v) => offset_at(b@, x64, pos as int) == Some(v as int),
            None => offset_at(b@, x64, pos as int) is None,
        },
{
    if x64 {
        at_u64(b, pos)
    } else {
        match at_u32(b, pos) {
            Some(v) => Some(v as u64),
            None => None,
        }
    }
}

/// Reads the layout of binary script data.
pub fn read_layout(b: &[u8], is_raid: bool) -> (r: Result<BinaryLayout, BinaryError>)
    ensures
        r == spec_layout(b@, is_raid),
{
    if !is_raid && b.len() < 4 {
        return Err(BinaryError::TooShort);
    }
    let x64 = is_raid || read_u32_le(b, 0) == X64_MAGIC;
    let pad: u128 = if is_raid {
        24
    } else if x64 {
        16
    } else {
        12
    };
    let os: u128 = if x64 {
        8
    } else {
        4
    };
    let f = at_offset(b, x64, pad);
    let s = at_offset(b, x64, pad + (pad + os));
    let v = at_offset(b, x64, pad + (pad + os) * 2);
    let q = at_offset(b, x64, pad + (pad + os) * 3);
    let i = at_offset(b, x64, pad + (pad + os) * 4);
    let t = at_offset(b, x64, pad + (pad + os) * 5);
    match (f, s, v, q, i, t) {
        (Some(f), Some(s), Some(v), Some(q), Some(i), Some(t)) => Ok(
            BinaryLayout {
                is_raid,
                is_x64: x64,
                float_offset: f,
                string_offset: s,
                vector_offset: v,
                quaternion_offset: q,
                idstring_offset: i,
                table_offset: t,
            },
        ),
        _ => Err(BinaryError::OutOfBounds),
    }
}

/// Reads the string with index `index` of the string pool.
fn read_string(b: &[u8], lay: &BinaryLayout, index: u64) -> (r: Result<String, BinaryError>)
    ensures
        match r {
            Ok(s) => spec_string(b@, *lay, index as int) == Ok::<Seq<char>, BinaryError>(s@),
            Err(e) => spec_string(b@, *lay, index as int) == Err::<Seq<char>, BinaryError>(e),
        },
{
    let os: u128 = if lay.is_x64 {
        8
    } else {
        4
    };
    let stride: u128 = if lay.is_raid || lay.is_x64 {
        16
    } else {
        8
    };
    let pos = lay.string_offset as u128 + os + (index as u128) * stride;
    let start = match at_offset(b, lay.is_x64, pos) {
        None => {
            return Err(BinaryError::OutOfBounds);
        },
        Some(s) => s,
    };
    let n = b.len();
    if start as u128 >= n as u128 {
        return Err(BinaryError::UnterminatedString);
    }
    let start = start as usize;
    let mut end: usize = start;
    while end < n && b[end] != 0
        invariant
            n == b@.len(),
            start <= end <= n,
            first_zero(b@, start as int) == first_zero(b@, end as int),
        decreases n - end,
    {
        end += 1;
    }
    if end == n {
        return Err(BinaryError::UnterminatedString);
    }
    let (head, _) = b.split_at(end);
    let (_, bytes) = head.split_at(start);
    assert(bytes@ =~= b@.subrange(start as int, end as int));
    match utf8_str(bytes) {
        Ok(s) => {
            proof {
                vstd::utf8::encode_utf8_decode_utf8(s@);
            }
            Ok(String::from_str(s))
        },
        Err(_) => Err(BinaryError::InvalidUtf8),
    }
}


/// Reads the value whose word lies at `pos`; a table comes back as its index
/// alone.
pub fn read_value(b: &[u8], lay: &BinaryLayout, pos: u128) -> (r: Result<DocValue, BinaryError>)
    ensures
        match r {
            Ok(v) => spec_value(b@, *lay, pos as int) == Ok::<ValueView, BinaryError>(v@),
            Err(e) => spec_value(b@, *lay, pos as int) == Err::<ValueView, BinaryError>(e),
        },
{
    let word = match at_u32(b, pos) {
        None => {
            return Err(BinaryError::OutOfBounds);
        },
        Some(w) => w,
    };
    let tag = (word >> 24u32) & 0xFF;
    let value = word & 0xFF_FFFF;
    assert(tag == word / 0x100_0000 && value == word % 0x100_0000) by (bit_vector)
        requires
            tag == (word >> 24u32) & 0xFF,
            value == word & 0xFF_FFFF,
    ;
    let v = value as u128;
    if tag == 0 {
        Err(BinaryError::NullValue)
    } else if tag == 1 {
        Ok(DocValue::Bool(false))
    } else if tag == 2 {
        Ok(DocValue::Bool(true))
    } else if tag == 3 {
        match at_u32(b, lay.float_offset as u128 + v * 4) {
            Some(x) => Ok(DocValue::Number(x)),
            None => Err(BinaryError::OutOfBounds),
        }
    } else if tag == 4 {
        match read_string(b, lay, value as u64) {
            Ok(s) => Ok(DocValue::String(s)),
            Err(e) => Err(e),
        }
    } else if tag == 5 {
        let p = lay.vector_offset as u128 + 12 * v;
        match (at_u32(b, p), at_u32(b, p + 4), at_u32(b, p + 8)) {
            (Some(x), Some(y), Some(z)) => Ok(DocValue::Vector(Vector { x, y, z })),
            _ => Err(BinaryError::OutOfBounds),
        }
    } else if tag == 6 {
        let p = lay.quaternion_offset as u128 + 16 * v;
        match (at_u32(b, p), at_u32(b, p + 4), at_u32(b, p + 8), at_u32(b, p + 12)) {
            (Some(x), Some(y), Some(z), Some(w)) => Ok(DocValue::Quaternion(Quaternion { x, y, z, w })),
            _ => Err(BinaryError::OutOfBounds),
        }
    } else if tag == 7 {
        match at_u64(b, lay.idstring_offset as u128 + 8 * v) {
            Some(h) => Ok(DocValue::IdString(h)),
            None => Err(BinaryError::OutOfBounds),
        }
    } else if tag == 8 {
        Ok(DocValue::Table(value))
    } else {
        Err(BinaryError::UnknownTag(tag))
    }
}

/// Once the first `m` pairs fail, every longer run fails with the same
/// error.
proof fn lemma_items_err_persists(b: Seq<u8>, lay: BinaryLayout, base: int, m: nat, n: nat)
    requires
        m <= n,
        spec_items(b, lay, base, m) is Err,
    ensures
        spec_items(b, lay, base, n) == spec_items(b, lay, base, m),
    decreases n - m,
{
    if n > m {
        lemma_items_err_persists(b, lay, base, m, (n - 1) as nat);
    }
}

/// Reads the `count` key-value pairs of a table that start at `base`.
fn read_items(b: &[u8], lay: &BinaryLayout, base: u64, count: u64) -> (r: Result<
    Vec<(DocValue, DocValue)>,
    BinaryError,
>)
    ensures
        match r {
            Ok(items) => spec_items(b@, *lay, base as int, count as nat) == Ok::<
                Seq<(ValueView, ValueView)>,
                BinaryError,
            >(pair_views(items@)),
            Err(e) => spec_items(b@, *lay, base as int, count as nat) == Err::<
                Seq<(ValueView, ValueView)>,
                BinaryError,
            >(e),
        },
{
    let mut out: Vec<(DocValue, DocValue)> = Vec::new();
    assert(pair_views(out@) =~= Seq::<(ValueView, ValueView)>::empty());
    let mut i: u64 = 0;
    while i < count
        invariant
            i <= count,
            spec_items(b@, *lay, base as int, i as nat) == Ok::<Seq<(ValueView, ValueView)>, BinaryError>(
                pair_views(out@),
            ),
        decreases count - i,
    {
        let pos = base as u128 + 8 * (i as u128);
        let k = match read_value(b, lay, pos) {
            Ok(k) => k,
            Err(e) => {
                proof {
                    lemma_items_err_persists(b@, *lay, base as int, (i + 1) as nat, count as nat);
                }
                return Err(e);
            },
        };
        let v = match read_value(b, lay, pos + 4) {
            Ok(v) => v,
            Err(e) => {
                proof {
                    lemma_items_err_persists(b@, *lay, base as int, (i + 1) as nat, count as nat);
                }
                return Err(e);
            },
        };
        let ghost before = out@;
        out.push((k, v));
        assert(pair_views(out@) =~= pair_views(before).push((k@, v@)));
        i += 1;
    }
    Ok(out)
}

/// Reads the table with index `id`: its metatable and its pairs in the
/// order they are stored.
pub fn read_table(b: &[u8], lay: &BinaryLayout, id: u32) -> (r: Result<
    (Option<String>, Vec<(DocValue, DocValue)>),
    BinaryError,
>)
    ensures
        match r {
            Ok((m, items)) => spec_table(b@, *lay, id) == Ok::<
                (Option<Seq<char>>, Seq<(ValueView, ValueView)>),
                BinaryError,
            >(
                (
                    match m {
                        Some(s) => Some(s@),
                        None => None,
                    },
                    pair_views(items@),
                ),
            ),
            Err(e) => spec_table(b@, *lay, id) == Err::<
                (Option<Seq<char>>, Seq<(ValueView, ValueView)>),
                BinaryError,
            >(e),
        },
{
    let stride: u128 = if lay.is_raid {
        40
    } else if lay.is_x64 {
        32
    } else {
        20
    };
    let os: u128 = if lay.is_x64 {
        8
    } else {
        4
    };
    let t = lay.table_offset as u128 + (id as u128) * stride;
    let mi: i64 = if lay.is_x64 {
        match at_u64(b, t) {
            Some(v) => v as i64,
            None => {
                return Err(BinaryError::OutOfBounds);
            },
        }
    } else {
        match at_u32(b, t) {
            Some(v) => (v as i32) as i64,
            None => {
                return Err(BinaryError::OutOfBounds);
            },
        }
    };
    let meta = if mi >= 0 {
        match read_string(b, lay, mi as u64) {
            Ok(s) => Some(s),
            Err(e) => {
                return Err(e);
            },
        }
    } else {
        None
    };
    let count: u64 = if lay.is_raid {
        match at_u64(b, t + os) {
            Some(c) => c,
            None => {
                return Err(BinaryError::OutOfBounds);
            },
        }
    } else {
        match at_u32(b, t + os) {
            Some(c) => c as u64,
            None => {
                return Err(BinaryError::OutOfBounds);
            },
        }
    };
    let items_pos: u128 = if lay.is_raid {
        24
    } else if lay.is_x64 {
        16
    } else {
        12
    };
    let io = match at_offset(b, lay.is_x64, t + items_pos) {
        Some(io) => io,
        None => {
            return Err(BinaryError::OutOfBounds);
        },
    };
    match read_items(b, lay, io, count) {
        Ok(items) => Ok((meta, items)),
        Err(e) => Err(e),
    }
}


/// The table with metatable `meta` and the pairs of `items` inserted in
/// order.
pub fn build_table(meta: Option<String>, items: &Vec<(DocValue, DocValue)>) -> (r: DocTable)
    ensures
        r.wf(),
        r@ == table_from_pairs(
            match meta {
                Some(s) => Some(s@),
                None => None,
            },
            pair_views(items@),
        ),
{
    let ghost mv = match &meta {
        Some(s) => Some(s@),
        None => None,
    };
    let ghost pv = pair_views(items@);
    let mut t = DocTable::new();
    t.set_metatable(meta);
    assert(pv.take(0) =~= Seq::<(ValueView, ValueView)>::empty());
    let n = items.len();
    let mut j: usize = 0;
    while j < n
        invariant
            n == items@.len(),
            pv == pair_views(items@),
            j <= n,
            t.wf(),
            t@ == table_from_pairs(mv, pv.take(j as int)),
        decreases n - j,
    {
        let k = super::document::copy_value(&items[j].0);
        let v = super::document::copy_value(&items[j].1);
        let ghost before = t@;
        t.insert(k, v);
        proof {
            let next = pv.take(j + 1);
            assert(next.drop_last() =~= pv.take(j as int));
            assert(next.last() == (k@, v@));
            assert(insert_all(Seq::empty(), next) == super::document::dict_insert(
                insert_all(Seq::empty(), pv.take(j as int)),
                k@,
                v@,
            ));
        }
        j += 1;
    }
    assert(pv.take(n as int) =~= pv);
    t
}

/// Whether some key or value of `pairs` is the table `id`.
pub open spec fn pairs_refer(pairs: Seq<(ValueView, ValueView)>, id: u32) -> bool {
    exists|k: int|
        0 <= k < pairs.len() && (pairs[k].0 == ValueView::Table(id) || pairs[k].1 == ValueView::Table(
            id,
        ))
}

/// Whether the table `from` reads and holds the table `to` as a key or a
/// value.
pub open spec fn table_refers(b: Seq<u8>, lay: BinaryLayout, from: u32, to: u32) -> bool {
    match spec_table(b, lay, from) {
        Ok(t) => pairs_refer(t.1, to),
        Err(_) => false,
    }
}

/// Whether the table `id` is reached from the root value `root` in at most
/// `n` steps from table to table.
pub open spec fn reach_within(b: Seq<u8>, lay: BinaryLayout, root: ValueView, n: nat, id: u32) -> bool
    decreases n,
{
    if n == 0 {
        root == ValueView::Table(id)
    } else {
        reach_within(b, lay, root, (n - 1) as nat, id) || exists|f: u32|
            reach_within(b, lay, root, (n - 1) as nat, f) && #[trigger] table_refers(b, lay, f, id)
    }
}

/// Whether the table `id` is reached from the root value `root`.
pub open spec fn reachable(b: Seq<u8>, lay: BinaryLayout, root: ValueView, id: u32) -> bool {
    exists|n: nat| #[trigger] reach_within(b, lay, root, n, id)
}

/// Whether every table reached from `root` reads.
pub open spec fn tables_readable(b: Seq<u8>, lay: BinaryLayout, root: ValueView) -> bool {
    forall|id: u32| #[trigger] reachable(b, lay, root, id) ==> spec_table(b, lay, id) is Ok
}

/// Whether the table `id` reads as `t`.
pub open spec fn table_reads_as(b: Seq<u8>, lay: BinaryLayout, id: u32, t: TableView) -> bool {
    match spec_table(b, lay, id) {
        Ok(p) => t == table_from_pairs(p.0, p.1),
        Err(_) => false,
    }
}


/// What reading a document whose root value is `rv` gives: on success, the
/// root and exactly the tables reached from it, each as it reads; on
/// failure, the error of a table reached from the root that does not read.
pub open spec fn document_read(b: Seq<u8>, lay: BinaryLayout, rv: ValueView, r: Result<Document, BinaryError>) -> bool {
    match r {
        Ok(doc) => {
            &&& tables_readable(b, lay, rv)
            &&& doc.wf()
            &&& doc.root_view() == Some(rv)
            &&& forall|id: u32| #[trigger] doc.holds(id) <==> reachable(b, lay, rv, id)
            &&& forall|k: int|
                0 <= k < doc.ids().len() ==> table_reads_as(b, lay, doc.ids()[k], #[trigger] doc.table_at(k))
        },
        Err(e) => exists|id: u32|
            #[trigger] reachable(b, lay, rv, id) && spec_table(b, lay, id) == Err::<
                (Option<Seq<char>>, Seq<(ValueView, ValueView)>),
                BinaryError,
            >(e),
    }
}

/// Every table that a readable table holds has an index below 2^24.
proof fn lemma_items_small(b: Seq<u8>, lay: BinaryLayout, base: int, n: nat)
    ensures
        spec_items(b, lay, base, n) matches Ok(p) ==> forall|w: u32| #[trigger] pairs_refer(p, w) ==> w < 0x100_0000,
    decreases n,
{
    if n > 0 {
        lemma_items_small(b, lay, base, (n - 1) as nat);
        if let Ok(p) = spec_items(b, lay, base, n) {
            let prev = spec_items(b, lay, base, (n - 1) as nat)->Ok_0;
            assert(p == prev.push(p.last()));
            assert forall|w: u32| #[trigger] pairs_refer(p, w) implies w < 0x100_0000 by {
                let k = choose|k: int|
                    0 <= k < p.len() && (p[k].0 == ValueView::Table(w) || p[k].1 == ValueView::Table(w));
                if k < prev.len() {
                    assert(prev[k] == p[k]);
                    assert(pairs_refer(prev, w));
                }
            }
        }
    }
}

proof fn lemma_table_refs_small(b: Seq<u8>, lay: BinaryLayout, id: u32, w: u32)
    requires
        table_refers(b, lay, id, w),
    ensures
        w < 0x100_0000,
{
    let t = lay.table_offset + id * by_variant(lay, 40, 32, 20);
    let count: Option<int> = if lay.is_raid {
        match u64_at(b, t + offset_size(lay)) {
            Some(c) => Some(c as int),
            None => None,
        }
    } else {
        match u32_at(b, t + offset_size(lay)) {
            Some(c) => Some(c as int),
            None => None,
        }
    };
    let io = offset_at(b, lay.is_x64, t + by_variant(lay, 24, 16, 12));
    lemma_items_small(b, lay, io->0, count->0 as nat);
}

/// A table that a reached table holds is reached one step further.
proof fn lemma_reach_step(b: Seq<u8>, lay: BinaryLayout, rv: ValueView, f: u32, w: u32)
    requires
        reachable(b, lay, rv, f),
        table_refers(b, lay, f, w),
    ensures
        reachable(b, lay, rv, w),
{
    let n = choose|n: nat| #[trigger] reach_within(b, lay, rv, n, f);
    assert(reach_within(b, lay, rv, n + 1, w));
}

/// A set that holds the root's table and every table that its tables hold
/// holds every table reached from the root.
proof fn lemma_closed_holds_reached(b: Seq<u8>, lay: BinaryLayout, rv: ValueView, s: Set<u32>, n: nat)
    requires
        rv matches ValueView::Table(t) ==> s.contains(t),
        forall|f: u32, w: u32| s.contains(f) && #[trigger] table_refers(b, lay, f, w) ==> s.contains(w),
    ensures
        forall|id: u32| #[trigger] reach_within(b, lay, rv, n, id) ==> s.contains(id),
    decreases n,
{
    if n > 0 {
        lemma_closed_holds_reached(b, lay, rv, s, (n - 1) as nat);
        assert forall|id: u32| #[trigger] reach_within(b, lay, rv, n, id) implies s.contains(id) by {
            if !reach_within(b, lay, rv, (n - 1) as nat, id) {
                let f = choose|f: u32|
                    reach_within(b, lay, rv, (n - 1) as nat, f) && #[trigger] table_refers(b, lay, f, id);
                assert(s.contains(f));
            }
        }
    }
}

proof fn lemma_push_contains(s: Seq<u32>, t: u32)
    ensures
        forall|x: u32| #[trigger] s.push(t).contains(x) <==> s.contains(x) || x == t,
{
    assert forall|x: u32| #[trigger] s.push(t).contains(x) <==> s.contains(x) || x == t by {
        if s.push(t).contains(x) {
            let k = choose|k: int| 0 <= k < s.push(t).len() && s.push(t)[k] == x;
            if k < s.len() {
                assert(s[k] == x);
            }
        }
        if s.contains(x) {
            let k = choose|k: int| 0 <= k < s.len() && s[k] == x;
            assert(s.push(t)[k] == x);
        }
        if x == t {
            assert(s.push(t)[s.len() as int] == x);
        }
    }
}

/// Notes the table that `v` is, if it is one that was not seen, as seen and
/// still to be read.
fn discover(seen: &mut HashSet<u32>, pending: &mut Vec<u32>, v: &DocValue)
    ensures
        match v@ {
            ValueView::Table(t) => if old(seen)@.contains(t) {
                final(seen)@ == old(seen)@ && final(pending)@ == old(pending)@
            } else {
                final(seen)@ == old(seen)@.insert(t) && final(pending)@ == old(pending)@.push(t)
            },
            _ => final(seen)@ == old(seen)@ && final(pending)@ == old(pending)@,
        },
{
    if let DocValue::Table(t) = v {
        if !seen.contains(t) {
            seen.insert(*t);
            pending.push(*t);
        }
    }
}

/// Notes every table that the pairs of `items` hold and that was not seen.
fn discover_items(seen: &mut HashSet<u32>, pending: &mut Vec<u32>, items: &Vec<(DocValue, DocValue)>)
    requires
        old(pending)@.no_duplicates(),
        forall|x: u32| old(pending)@.contains(x) ==> old(seen)@.contains(x),
        old(seen)@.finite(),
    ensures
        final(seen)@.finite(),
        final(pending)@.no_duplicates(),
        forall|x: u32| #[trigger] final(seen)@.contains(x) <==> old(seen)@.contains(x) || pairs_refer(
            pair_views(items@),
            x,
        ),
        forall|x: u32| #[trigger] final(pending)@.contains(x) <==> old(pending)@.contains(x) || (
        pairs_refer(pair_views(items@), x) && !old(seen)@.contains(x)),
        final(seen)@.len() - old(seen)@.len() == final(pending)@.len() - old(pending)@.len(),
{
    let ghost s0 = seen@;
    let ghost p0 = pending@;
    let ghost pv = pair_views(items@);
    let n = items.len();
    let mut j: usize = 0;
    while j < n
        invariant
            n == items@.len(),
            pv == pair_views(items@),
            j <= n,
            seen@.finite(),
            pending@.no_duplicates(),
            forall|x: u32| pending@.contains(x) ==> seen@.contains(x),
            forall|x: u32| #[trigger] seen@.contains(x) <==> s0.contains(x) || pairs_refer(pv.take(j as int), x),
            forall|x: u32| #[trigger] pending@.contains(x) <==> p0.contains(x) || (pairs_refer(pv.take(j as int), x)
                && !s0.contains(x)),
            seen@.len() - s0.len() == pending@.len() - p0.len(),
        decreases n - j,
    {
        let ghost sb = seen@;
        let ghost pb = pending@;
        discover(seen, pending, &items[j].0);
        let ghost s1 = seen@;
        let ghost p1 = pending@;
        discover(seen, pending, &items[j].1);
        proof {
            lemma_push_contains(pb, items@[j as int].0@->Table_0);
            lemma_push_contains(p1, items@[j as int].1@->Table_0);
            let a = pv.take(j as int);
            let c = pv.take(j + 1);
            assert(c == a.push(pv[j as int]));
            assert(pv[j as int] == (items@[j as int].0@, items@[j as int].1@));
            assert forall|x: u32| pairs_refer(c, x) <==> pairs_refer(a, x) || pv[j as int].0 == ValueView::Table(x)
                || pv[j as int].1 == ValueView::Table(x) by {
                if pairs_refer(c, x) {
                    let k = choose|k: int|
                        0 <= k < c.len() && (c[k].0 == ValueView::Table(x) || c[k].1 == ValueView::Table(x));
                    if k < a.len() {
                        assert(a[k] == c[k]);
                    }
                }
                if pairs_refer(a, x) {
                    let k = choose|k: int|
                        0 <= k < a.len() && (a[k].0 == ValueView::Table(x) || a[k].1 == ValueView::Table(x));
                    assert(c[k] == a[k]);
                }
                if pv[j as int].0 == ValueView::Table(x) || pv[j as int].1 == ValueView::Table(x) {
                    assert(c[j as int] == pv[j as int]);
                }
            }
            assert forall|x: u32| #[trigger] p1.contains(x) <==> pb.contains(x) || (pv[j as int].0 == ValueView::Table(x)
                && !sb.contains(x)) by {}
            assert forall|x: u32| #[trigger] pending@.contains(x) <==> p1.contains(x) || (pv[j as int].1 == ValueView::Table(x)
                && !s1.contains(x)) by {}
        }
        j += 1;
    }
    assert(pv.take(n as int) =~= pv);
}


/// The state of reading the tables: `seen` holds the tables read and those
/// still to be read, which are `pending`; each seen table is reached from the
/// root, each table read reads as stored, and what a read table holds has
/// been seen.
#[verifier::opaque]
spec fn worklist_ok(
    b: Seq<u8>,
    lay: BinaryLayout,
    rv: ValueView,
    seen: Set<u32>,
    pending: Seq<u32>,
    doc: Document,
) -> bool {
    &&& seen.finite()
    &&& seen.len() <= 0x100_0000
    &&& doc.wf()
    &&& doc.root_view() is None
    &&& pending.no_duplicates()
    &&& forall|id: u32| #[trigger] seen.contains(id) <==> (doc.holds(id) || pending.contains(id))
    &&& forall|id: u32| doc.holds(id) ==> !pending.contains(id)
    &&& forall|id: u32| #[trigger] seen.contains(id) ==> reachable(b, lay, rv, id) && id < 0x100_0000
    &&& forall|k: int|
        0 <= k < doc.ids().len() ==> table_reads_as(b, lay, doc.ids()[k], #[trigger] doc.table_at(k))
    &&& forall|f: u32, w: u32| doc.holds(f) && #[trigger] table_refers(b, lay, f, w) ==> seen.contains(w)
    &&& rv matches ValueView::Table(t) ==> seen.contains(t)
}

/// A set of table indices has at most 2^24 members when all lie below 2^24.
proof fn lemma_seen_bound(s: Set<u32>)
    requires
        s.finite(),
        forall|id: u32| #[trigger] s.contains(id) ==> id < 0x100_0000,
    ensures
        s.len() <= 0x100_0000,
{
    let full = Set::<u32>::range(0, 0x100_0000);
    vstd::set_lib::range_set_properties::<u32>(0, 0x100_0000);
    assert(s.subset_of(full));
    vstd::set_lib::lemma_len_subset(s, full);
}

/// The state before any table is read: the root's table, if it is one, is
/// seen and pending.
proof fn lemma_worklist_start(b: Seq<u8>, lay: BinaryLayout, rv: ValueView, seen: Set<u32>, pending: Seq<u32>, doc: Document)
    requires
        doc.wf(),
        doc.root_view() is None,
        doc.ids() == Seq::<u32>::empty(),
        spec_value(b, lay, root_position(lay)) == Ok::<ValueView, BinaryError>(rv),
        match rv {
            ValueView::Table(t) => seen == Set::<u32>::empty().insert(t) && pending == Seq::<u32>::empty().push(t),
            _ => seen == Set::<u32>::empty() && pending == Seq::<u32>::empty(),
        },
    ensures
        worklist_ok(b, lay, rv, seen, pending, doc),
{
    reveal(worklist_ok);
    if let ValueView::Table(t) = rv {
        assert(reach_within(b, lay, rv, 0, t));
        lemma_push_contains(Seq::<u32>::empty(), t);
    }
    assert forall|id: u32| #[trigger] seen.contains(id) implies id < 0x100_0000 by {}
    lemma_seen_bound(seen);
}

/// Once nothing is pending, the tables read are exactly those reached from
/// the root, and all of them read.
proof fn lemma_worklist_done(b: Seq<u8>, lay: BinaryLayout, rv: ValueView, seen: Set<u32>, pending: Seq<u32>, doc: Document)
    requires
        worklist_ok(b, lay, rv, seen, pending, doc),
        pending.len() == 0,
    ensures
        doc.wf(),
        doc.root_view() is None,
        tables_readable(b, lay, rv),
        forall|id: u32| #[trigger] doc.holds(id) <==> reachable(b, lay, rv, id),
        forall|k: int|
            0 <= k < doc.ids().len() ==> table_reads_as(b, lay, doc.ids()[k], #[trigger] doc.table_at(k)),
{
    reveal(worklist_ok);
    assert forall|id: u32| #[trigger] doc.holds(id) <==> reachable(b, lay, rv, id) by {
        if reachable(b, lay, rv, id) {
            let n = choose|n: nat| #[trigger] reach_within(b, lay, rv, n, id);
            lemma_closed_holds_reached(b, lay, rv, seen, n);
        }
        if doc.holds(id) {
            assert(seen.contains(id));
        }
    }
    assert forall|id: u32| #[trigger] reachable(b, lay, rv, id) implies spec_table(b, lay, id) is Ok by {
        assert(doc.holds(id));
        let k = choose|k: int| 0 <= k < doc.ids().len() && doc.ids()[k] == id;
        assert(table_reads_as(b, lay, doc.ids()[k], doc.table_at(k)));
    }
}

/// How much is left to do: twice the tables not yet seen, and those
/// pending.
spec fn worklist_measure(seen: Set<u32>, pending: Seq<u32>) -> int {
    2 * (0x100_0000 - seen.len()) + pending.len()
}

/// Taking the last pending table leaves the rest pending, without repeats,
/// and all seen.
proof fn lemma_pop_pending(b: Seq<u8>, lay: BinaryLayout, rv: ValueView, seen: Set<u32>, p0: Seq<u32>, doc: Document)
    requires
        worklist_ok(b, lay, rv, seen, p0, doc),
        p0.len() > 0,
    ensures
        p0.drop_last().no_duplicates(),
        forall|x: u32| p0.drop_last().contains(x) ==> seen.contains(x),
        seen.contains(p0.last()),
        reachable(b, lay, rv, p0.last()),
        seen.finite(),
{
    reveal(worklist_ok);
    let rest = p0.drop_last();
    assert(p0 == rest.push(p0.last()));
    lemma_push_contains(rest, p0.last());
    assert forall|x: u32| rest.contains(x) implies seen.contains(x) by {
        assert(p0.contains(x));
    }
    assert forall|a: int, c: int| 0 <= a < c < rest.len() implies rest[a] != rest[c] by {
        assert(p0[a] == rest[a]);
        assert(p0[c] == rest[c]);
    }
}

/// The tables seen after reading `id` are reached from the root and have
/// indices below 2^24.
proof fn lemma_step_reached(b: Seq<u8>, lay: BinaryLayout, rv: ValueView, s0: Set<u32>, s2: Set<u32>, id: u32, pv: Seq<(ValueView, ValueView)>)
    requires
        forall|x: u32| #[trigger] s0.contains(x) ==> reachable(b, lay, rv, x) && x < 0x100_0000,
        s0.contains(id),
        spec_table(b, lay, id) matches Ok(t) && t.1 == pv,
        forall|x: u32| #[trigger] s2.contains(x) <==> s0.contains(x) || pairs_refer(pv, x),
    ensures
        forall|x: u32| #[trigger] s2.contains(x) ==> reachable(b, lay, rv, x) && x < 0x100_0000,
{
    assert forall|x: u32| #[trigger] s2.contains(x) implies reachable(b, lay, rv, x) && x < 0x100_0000 by {
        if !s0.contains(x) {
            assert(table_refers(b, lay, id, x));
            lemma_reach_step(b, lay, rv, id, x);
            lemma_table_refs_small(b, lay, id, x);
        }
    }
}

/// After reading `id`, a table is seen exactly when it is read or pending,
/// and never both.
proof fn lemma_step_partition(
    s0: Set<u32>,
    p0: Seq<u32>,
    h0: Seq<u32>,
    s2: Set<u32>,
    p2: Seq<u32>,
    h2: Seq<u32>,
    pv: Seq<(ValueView, ValueView)>,
)
    requires
        p0.len() > 0,
        p0.no_duplicates(),
        forall|x: u32| #[trigger] s0.contains(x) <==> (h0.contains(x) || p0.contains(x)),
        forall|x: u32| h0.contains(x) ==> !p0.contains(x),
        forall|x: u32| #[trigger] s2.contains(x) <==> s0.contains(x) || pairs_refer(pv, x),
        forall|x: u32| #[trigger] p2.contains(x) <==> p0.drop_last().contains(x) || (pairs_refer(pv, x)
            && !s0.contains(x)),
        h2 == h0.push(p0.last()),
    ensures
        forall|x: u32| #[trigger] s2.contains(x) <==> (h2.contains(x) || p2.contains(x)),
        forall|x: u32| h2.contains(x) ==> !p2.contains(x),
{
    let id = p0.last();
    let rest = p0.drop_last();
    assert(p0 == rest.push(id));
    lemma_push_contains(rest, id);
    lemma_push_contains(h0, id);
    assert(!rest.contains(id)) by {
        if rest.contains(id) {
            let k = choose|k: int| 0 <= k < rest.len() && rest[k] == id;
            assert(p0[k] == id);
            assert(p0[p0.len() - 1] == id);
        }
    }
    assert forall|x: u32| #[trigger] s2.contains(x) <==> (h2.contains(x) || p2.contains(x)) by {
        if s0.contains(x) && !h0.contains(x) {
            assert(p0.contains(x));
        }
    }
    assert forall|x: u32| h2.contains(x) implies !p2.contains(x) by {
        if x != id {
            assert(h0.contains(x));
            assert(s0.contains(x));
        }
    }
}

/// After reading `id`, every table read reads as stored, and what each
/// holds is seen.
proof fn lemma_step_tables(
    b: Seq<u8>,
    lay: BinaryLayout,
    s0: Set<u32>,
    d0: Document,
    s2: Set<u32>,
    d2: Document,
    id: u32,
    pv: Seq<(ValueView, ValueView)>,
    tv: TableView,
)
    requires
        forall|k: int|
            0 <= k < d0.ids().len() ==> table_reads_as(b, lay, d0.ids()[k], #[trigger] d0.table_at(k)),
        forall|f: u32, w: u32| d0.holds(f) && #[trigger] table_refers(b, lay, f, w) ==> s0.contains(w),
        spec_table(b, lay, id) matches Ok(t) && t.1 == pv && tv == table_from_pairs(t.0, t.1),
        forall|x: u32| #[trigger] s2.contains(x) <==> s0.contains(x) || pairs_refer(pv, x),
        d2.ids() == d0.ids().push(id),
        forall|k: int| 0 <= k < d0.ids().len() ==> d2.table_at(k) == d0.table_at(k),
        d2.table_at(d0.ids().len() as int) == tv,
    ensures
        forall|k: int|
            0 <= k < d2.ids().len() ==> table_reads_as(b, lay, d2.ids()[k], #[trigger] d2.table_at(k)),
        forall|f: u32, w: u32| d2.holds(f) && #[trigger] table_refers(b, lay, f, w) ==> s2.contains(w),
{
    let h0 = d0.ids();
    lemma_push_contains(h0, id);
    assert forall|k: int| 0 <= k < d2.ids().len() implies table_reads_as(
        b,
        lay,
        d2.ids()[k],
        #[trigger] d2.table_at(k),
    ) by {
        if k == h0.len() {
            assert(d2.ids()[k] == id);
        } else {
            assert(d2.ids()[k] == h0[k]);
        }
    }
    assert forall|f: u32, w: u32| d2.holds(f) && #[trigger] table_refers(b, lay, f, w) implies s2.contains(w) by {
        if f == id {
            assert(pairs_refer(pv, w));
        } else {
            assert(h0.contains(f));
        }
    }
}

/// Reading the last pending table `id`, which reads as `tv` with pairs
/// `pv`, noting what it holds and adding it to the document keeps the state
/// of reading, and leaves less to do.
proof fn lemma_worklist_step(
    b: Seq<u8>,
    lay: BinaryLayout,
    rv: ValueView,
    s0: Set<u32>,
    p0: Seq<u32>,
    d0: Document,
    pv: Seq<(ValueView, ValueView)>,
    tv: TableView,
    s2: Set<u32>,
    p2: Seq<u32>,
    d2: Document,
)
    requires
        worklist_ok(b, lay, rv, s0, p0, d0),
        p0.len() > 0,
        spec_table(b, lay, p0.last()) matches Ok(t) && t.1 == pv && tv == table_from_pairs(t.0, t.1),
        s2.finite(),
        p2.no_duplicates(),
        forall|x: u32| #[trigger] s2.contains(x) <==> s0.contains(x) || pairs_refer(pv, x),
        forall|x: u32| #[trigger] p2.contains(x) <==> p0.drop_last().contains(x) || (pairs_refer(pv, x)
            && !s0.contains(x)),
        s2.len() - s0.len() == p2.len() - (p0.len() - 1),
        d2.wf(),
        d2.root_view() is None,
        d2.ids() == d0.ids().push(p0.last()),
        forall|k: int| 0 <= k < d0.ids().len() ==> d2.table_at(k) == d0.table_at(k),
        d2.table_at(d0.ids().len() as int) == tv,
    ensures
        worklist_ok(b, lay, rv, s2, p2, d2),
        0 <= worklist_measure(s2, p2) < worklist_measure(s0, p0),
{
    lemma_worklist_unfold(b, lay, rv, s0, p0, d0);
    let id = p0.last();
    assert(p0.contains(id)) by {
        assert(p0[p0.len() - 1] == id);
    }
    lemma_step_reached(b, lay, rv, s0, s2, id, pv);
    lemma_seen_bound(s2);
    lemma_step_partition(s0, p0, d0.ids(), s2, p2, d2.ids(), pv);
    lemma_step_tables(b, lay, s0, d0, s2, d2, id, pv, tv);
    lemma_worklist_fold(b, lay, rv, s2, p2, d2);
    assert(s0.subset_of(s2));
    vstd::set_lib::lemma_len_subset(s0, s2);
}

/// What the state of reading says, spelled out.
proof fn lemma_worklist_unfold(b: Seq<u8>, lay: BinaryLayout, rv: ValueView, seen: Set<u32>, pending: Seq<u32>, doc: Document)
    requires
        worklist_ok(b, lay, rv, seen, pending, doc),
    ensures
        seen.finite(),
        seen.len() <= 0x100_0000,
        doc.wf(),
        doc.root_view() is None,
        pending.no_duplicates(),
        forall|id: u32| #[trigger] seen.contains(id) <==> (doc.holds(id) || pending.contains(id)),
        forall|id: u32| doc.holds(id) ==> !pending.contains(id),
        forall|id: u32| #[trigger] seen.contains(id) ==> reachable(b, lay, rv, id) && id < 0x100_0000,
        forall|k: int|
            0 <= k < doc.ids().len() ==> table_reads_as(b, lay, doc.ids()[k], #[trigger] doc.table_at(k)),
        forall|f: u32, w: u32| doc.holds(f) && #[trigger] table_refers(b, lay, f, w) ==> seen.contains(w),
        rv matches ValueView::Table(t) ==> seen.contains(t),
{
    reveal(worklist_ok);
}

/// The state of reading, from what it says.
proof fn lemma_worklist_fold(b: Seq<u8>, lay: BinaryLayout, rv: ValueView, seen: Set<u32>, pending: Seq<u32>, doc: Document)
    requires
        seen.finite(),
        seen.len() <= 0x100_0000,
        doc.wf(),
        doc.root_view() is None,
        pending.no_duplicates(),
        forall|id: u32| #[trigger] seen.contains(id) <==> (doc.holds(id) || pending.contains(id)),
        forall|id: u32| doc.holds(id) ==> !pending.contains(id),
        forall|id: u32| #[trigger] seen.contains(id) ==> reachable(b, lay, rv, id) && id < 0x100_0000,
        forall|k: int|
            0 <= k < doc.ids().len() ==> table_reads_as(b, lay, doc.ids()[k], #[trigger] doc.table_at(k)),
        forall|f: u32, w: u32| doc.holds(f) && #[trigger] table_refers(b, lay, f, w) ==> seen.contains(w),
        rv matches ValueView::Table(t) ==> seen.contains(t),
    ensures
        worklist_ok(b, lay, rv, seen, pending, doc),
{
    reveal(worklist_ok);
}

/// Reads the last pending table into the document and notes what it holds.
fn read_next_table(
    input: &[u8],
    lay: &BinaryLayout,
    Ghost(rv): Ghost<ValueView>,
    seen: &mut HashSet<u32>,
    pending: &mut Vec<u32>,
    doc: &mut Document,
) -> (r: Result<(), BinaryError>)
    requires
        worklist_ok(input@, *lay, rv, old(seen)@, old(pending)@, *old(doc)),
        old(pending)@.len() > 0,
    ensures
        r is Ok ==> worklist_ok(input@, *lay, rv, final(seen)@, final(pending)@, *final(doc)),
        r is Ok ==> 0 <= worklist_measure(final(seen)@, final(pending)@) < worklist_measure(
            old(seen)@,
            old(pending)@,
        ),
        r matches Err(e) ==> exists|id: u32|
            #[trigger] reachable(input@, *lay, rv, id) && spec_table(input@, *lay, id) == Err::<
                (Option<Seq<char>>, Seq<(ValueView, ValueView)>),
                BinaryError,
            >(e),
{
    let ghost s0 = seen@;
    let ghost p0 = pending@;
    let ghost d0 = *doc;
    proof {
        lemma_pop_pending(input@, *lay, rv, s0, p0, d0);
        reveal(worklist_ok);
    }
    let id = pending.pop().unwrap();
    let (meta, items) = match read_table(input, lay, id) {
        Ok(t) => t,
        Err(e) => {
            return Err(e);
        },
    };
    let table = build_table(meta, &items);
    let ghost tv = table@;
    discover_items(seen, pending, &items);
    let ghost holds0 = doc.ids();
    assert(!d0.holds(id));
    doc.add_table(id, table);
    proof {
        lemma_worklist_step(input@, *lay, rv, s0, p0, d0, pair_views(items@), tv, seen@, pending@, *doc);
    }
    Ok(())
}

/// What reading the bytes `b` as binary script data gives: the layout's
/// error, the root value's error, or the document of the root and the
/// tables it reaches (or the error of one of them).
pub open spec fn binary_reads(b: Seq<u8>, is_raid: bool, r: Result<Document, BinaryError>) -> bool {
    match spec_layout(b, is_raid) {
        Err(e) => r == Err::<Document, BinaryError>(e),
        Ok(lay) => match spec_value(b, lay, root_position(lay)) {
            Err(e) => r == Err::<Document, BinaryError>(e),
            Ok(rv) => document_read(b, lay, rv, r),
        },
    }
}

/// Reads binary script data: the layout, the root value, and every table
/// the root reaches, each read once however often it is met.
pub fn from_binary(input: &[u8], is_raid: bool) -> (r: Result<Document, BinaryError>)
    ensures
        binary_reads(input@, is_raid, r),
        spec_layout(input@, is_raid) matches Err(e) ==> r == Err::<Document, BinaryError>(e),
        spec_layout(input@, is_raid) matches Ok(lay) ==> match spec_value(input@, lay, root_position(lay)) {
            Err(e) => r == Err::<Document, BinaryError>(e),
            Ok(rv) => document_read(input@, lay, rv, r),
        },
{
    let lay = match read_layout(input, is_raid) {
        Ok(lay) => lay,
        Err(e) => {
            return Err(e);
        },
    };
    let root_pos: u128 = if lay.is_raid {
        200
    } else if lay.is_x64 {
        152
    } else {
        100
    };
    let root = match read_value(input, &lay, root_pos) {
        Ok(v) => v,
        Err(e) => {
            return Err(e);
        },
    };
    let ghost rv = root@;
    let mut seen: HashSet<u32> = HashSet::new();
    let mut pending: Vec<u32> = Vec::new();
    discover(&mut seen, &mut pending, &root);
    let mut doc = Document::new();
    proof {
        lemma_worklist_start(input@, lay, rv, seen@, pending@, doc);
    }
    while pending.len() > 0
        invariant
            spec_layout(input@, is_raid) == Ok::<BinaryLayout, BinaryError>(lay),
            spec_value(input@, lay, root_position(lay)) == Ok::<ValueView, BinaryError>(rv),
            worklist_ok(input@, lay, rv, seen@, pending@, doc),
        decreases worklist_measure(seen@, pending@),
    {
        match read_next_table(input, &lay, Ghost(rv), &mut seen, &mut pending, &mut doc) {
            Ok(()) => {},
            Err(e) => {
                return Err(e);
            },
        }
    }
    proof {
        lemma_worklist_done(input@, lay, rv, seen@, pending@, doc);
    }
    let ghost d1 = doc;
    doc.set_root(Some(root));
    proof {
        assert forall|id: u32| #[trigger] doc.holds(id) <==> d1.holds(id) by {}
    }
    Ok(doc)
}

/// Reads binary script data in the layouts other than RAID's.
pub fn load(input: &[u8]) -> (r: Result<Document, BinaryError>)
    ensures
        spec_layout(input@, false) matches Err(e) ==> r == Err::<Document, BinaryError>(e),
        spec_layout(input@, false) matches Ok(lay) ==> match spec_value(input@, lay, root_position(lay)) {
            Err(e) => r == Err::<Document, BinaryError>(e),
            Ok(rv) => document_read(input@, lay, rv, r),
        },
{
    from_binary(input, false)
}

} // verus!
