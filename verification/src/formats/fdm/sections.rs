//! The bodies of the section types whose layout is known: what each must
//! hold for its fields to be read, in the order they are read.
use vstd::prelude::*;
use vstd::utf8::valid_utf8;
use crate::read_helpers::{le_u32, read_u32_le};
use crate::text::utf8_str;
use super::container::ReadError;
use super::geometry::{le_u16, spec_geometry, GeometrySection};

verus! {

/// One part of a section body's layout.
#[derive(Clone, Copy, PartialEq, Eq, Structural)]
pub enum Part {
    /// So many bytes of fixed-size fields.
    Bytes(u32),
    /// A `u32` count, then that many items of the given byte size.
    Array(u32),
    /// UTF-8 text ended by a zero byte.
    NulText,
    /// A `u32` count, then that many texts, each a `u16` byte count and
    /// that many bytes of UTF-8.
    ShortTexts,
    /// A model's kind (`u32`): 6 for bounds alone, 3 for a mesh; then the
    /// fields of that kind.
    ModelData,
    /// A light's kind (`u32`): 1 for omnidirectional, 2 for spot.
    LightKind,
}

/// The error for text that is not UTF-8.
pub open spec fn not_utf8() -> ReadError {
    ReadError::Schema("Text is not valid UTF-8")
}

/// `n` more bytes from `p`: where they end.
pub open spec fn need(d: Seq<u8>, p: int, n: int) -> Result<int, ReadError> {
    if p + n <= d.len() {
        Ok(p + n)
    } else {
        Err(ReadError::UnexpectedEof)
    }
}

/// A `u32` count at `p`, then that many items of `size` bytes.
pub open spec fn array_end(d: Seq<u8>, p: int, size: int) -> Result<int, ReadError> {
    if p + 4 > d.len() {
        Err(ReadError::UnexpectedEof)
    } else {
        need(d, p + 4, le_u32(d, p) * size)
    }
}

/// The first zero byte at or after `p`.
pub open spec fn zero_at(d: Seq<u8>, p: int) -> Option<int>
    decreases d.len() - p,
{
    if p >= d.len() {
        None
    } else if d[p] == 0 {
        Some(p)
    } else {
        zero_at(d, p + 1)
    }
}

/// Text from `p` to the next zero byte, which must be UTF-8.
pub open spec fn nul_text_end(d: Seq<u8>, p: int) -> Result<int, ReadError> {
    match zero_at(d, p) {
        None => Err(ReadError::UnexpectedEof),
        Some(z) => if valid_utf8(d.subrange(p, z)) {
            Ok(z + 1)
        } else {
            Err(not_utf8())
        },
    }
}

/// `n` texts from `p`, each a `u16` byte count and UTF-8 bytes.
pub open spec fn short_texts_end(d: Seq<u8>, p: int, n: nat) -> Result<int, ReadError>
    decreases n,
{
    if n == 0 {
        Ok(p)
    } else if p + 2 > d.len() {
        Err(ReadError::UnexpectedEof)
    } else if p + 2 + le_u16(d, p) > d.len() {
        Err(ReadError::UnexpectedEof)
    } else if !valid_utf8(d.subrange(p + 2, p + 2 + le_u16(d, p))) {
        Err(not_utf8())
    } else {
        short_texts_end(d, p + 2 + le_u16(d, p), (n - 1) as nat)
    }
}

/// A model's kind and the fields of that kind: the bounds (32 bytes) alone,
/// or for a mesh two ids, the render atoms (20 bytes each), then two ids,
/// the bounds, the properties and the skin bones.
pub open spec fn model_data_end(d: Seq<u8>, p: int) -> Result<int, ReadError> {
    if p + 4 > d.len() {
        Err(ReadError::UnexpectedEof)
    } else if le_u32(d, p) == 6 {
        need(d, p + 4, 32)
    } else if le_u32(d, p) == 3 {
        match need(d, p + 4, 8) {
            Err(e) => Err(e),
            Ok(q) => match array_end(d, q, 20) {
                Err(e) => Err(e),
                Ok(r) => need(d, r, 48),
            },
        }
    } else {
        Err(ReadError::BadDiscriminant("ModelData", le_u32(d, p) as u128))
    }
}

/// A light's kind.
pub open spec fn light_kind_end(d: Seq<u8>, p: int) -> Result<int, ReadError> {
    if p + 4 > d.len() {
        Err(ReadError::UnexpectedEof)
    } else if le_u32(d, p) == 1 || le_u32(d, p) == 2 {
        Ok(p + 4)
    } else {
        Err(ReadError::BadDiscriminant("LightType", le_u32(d, p) as u128))
    }
}

/// Reading one part from `p`: where it ends.
pub open spec fn part_end(d: Seq<u8>, p: int, part: Part) -> Result<int, ReadError> {
    match part {
        Part::Bytes(n) => need(d, p, n as int),
        Part::Array(size) => array_end(d, p, size as int),
        Part::NulText => nul_text_end(d, p),
        Part::ShortTexts => if p + 4 > d.len() {
            Err(ReadError::UnexpectedEof)
        } else {
            short_texts_end(d, p + 4, le_u32(d, p) as nat)
        },
        Part::ModelData => model_data_end(d, p),
        Part::LightKind => light_kind_end(d, p),
    }
}

/// Reading the parts one after another from `p`: where the last ends.
pub open spec fn parts_end(d: Seq<u8>, p: int, parts: Seq<Part>) -> Result<int, ReadError>
    decreases parts.len(),
{
    if parts.len() == 0 {
        Ok(p)
    } else {
        match part_end(d, p, parts[0]) {
            Err(e) => Err(e),
            Ok(q) => parts_end(d, q, parts.drop_first()),
        }
    }
}

/// A scene object's fields: name, animation controllers (12 bytes each),
/// transform with position, parent.
pub open spec fn object_parts() -> Seq<Part> {
    seq![Part::Bytes(8), Part::Array(12), Part::Bytes(80)]
}

/// The layout of the body of each section type read field by field; `None`
/// for those kept as bytes, and for geometry, which has a reader of its own.
pub open spec fn body_layout(tag: u32) -> Option<Seq<Part>> {
    if tag == 0x0ffcd100 {
        Some(object_parts())
    } else if tag == 0x62212d88 {
        Some(object_parts().push(Part::ModelData))
    } else if tag == 0x7623c465 {
        Some(seq![Part::Bytes(8), Part::NulText, Part::NulText, Part::Bytes(4)])
    } else if tag == 0x3c54609c {
        Some(seq![Part::Bytes(56), Part::Array(8)])
    } else if tag == 0x29276b1d {
        Some(seq![Part::Array(4)])
    } else if tag == 0xe3a3b1ca {
        Some(seq![Part::Bytes(8)])
    } else if tag == 0x4c507a13 {
        Some(seq![Part::Bytes(4), Part::Array(2), Part::Array(1), Part::Bytes(8)])
    } else if tag == 0x03b634bd {
        Some(seq![Part::Bytes(4)])
    } else if tag == 0xffa13b80 {
        Some(object_parts() + seq![Part::Bytes(1), Part::LightKind, Part::Bytes(36)])
    } else if tag == 0x76bf5b66 {
        Some(seq![Part::Bytes(20), Part::Array(8)])
    } else if tag == 0x26a5128c {
        Some(seq![Part::Bytes(20), Part::Array(16)])
    } else if tag == 0x648a206c {
        Some(seq![Part::Bytes(20), Part::Array(20)])
    } else if tag == 0x679d695b {
        Some(seq![Part::Bytes(24)])
    } else if tag == 0x5dc011b8 {
        Some(seq![Part::Bytes(16), Part::Array(4)])
    } else if tag == 0x7c7844fd {
        Some(seq![Part::Bytes(2), Part::ShortTexts])
    } else {
        None
    }
}

/// The tag of geometry sections.
pub open spec fn geometry_tag() -> u32 {
    0x7ab072d3
}

/// Whether the body `d` of a section with tag `tag` can be read, and if not,
/// the error that reading it gives. What follows the last field is not read.
#[verifier::opaque]
pub open spec fn body_check(tag: u32, d: Seq<u8>) -> Result<(), ReadError> {
    if tag == geometry_tag() {
        match spec_geometry(d) {
            Ok(_) => Ok(()),
            Err(e) => Err(e),
        }
    } else {
        match body_layout(tag) {
            None => Ok(()),
            Some(parts) => match parts_end(d, 0, parts) {
                Ok(_) => Ok(()),
                Err(e) => Err(e),
            },
        }
    }
}

/// The layout of a section type's body, as `body_layout` gives it.
pub fn layout_of(tag: u32) -> (r: Option<Vec<Part>>)
    ensures
        match (r, body_layout(tag)) {
            (Some(v), Some(s)) => v@ == s,
            (None, None) => true,
            _ => false,
        },
{
    if tag == 0x0ffcd100 {
        Some(vec![Part::Bytes(8), Part::Array(12), Part::Bytes(80)])
    } else if tag == 0x62212d88 {
        Some(vec![Part::Bytes(8), Part::Array(12), Part::Bytes(80), Part::ModelData])
    } else if tag == 0x7623c465 {
        Some(vec![Part::Bytes(8), Part::NulText, Part::NulText, Part::Bytes(4)])
    } else if tag == 0x3c54609c {
        Some(vec![Part::Bytes(56), Part::Array(8)])
    } else if tag == 0x29276b1d {
        Some(vec![Part::Array(4)])
    } else if tag == 0xe3a3b1ca {
        Some(vec![Part::Bytes(8)])
    } else if tag == 0x4c507a13 {
        Some(vec![Part::Bytes(4), Part::Array(2), Part::Array(1), Part::Bytes(8)])
    } else if tag == 0x03b634bd {
        Some(vec![Part::Bytes(4)])
    } else if tag == 0xffa13b80 {
        let v = vec![
            Part::Bytes(8),
            Part::Array(12),
            Part::Bytes(80),
            Part::Bytes(1),
            Part::LightKind,
            Part::Bytes(36),
        ];
        assert(v@ =~= object_parts() + seq![Part::Bytes(1), Part::LightKind, Part::Bytes(36)]);
        Some(v)
    } else if tag == 0x76bf5b66 {
        Some(vec![Part::Bytes(20), Part::Array(8)])
    } else if tag == 0x26a5128c {
        Some(vec![Part::Bytes(20), Part::Array(16)])
    } else if tag == 0x648a206c {
        Some(vec![Part::Bytes(20), Part::Array(20)])
    } else if tag == 0x679d695b {
        Some(vec![Part::Bytes(24)])
    } else if tag == 0x5dc011b8 {
        Some(vec![Part::Bytes(16), Part::Array(4)])
    } else if tag == 0x7c7844fd {
        Some(vec![Part::Bytes(2), Part::ShortTexts])
    } else {
        None
    }
}

/// `n` more bytes from `p`.
fn need_exec(d: &[u8], p: usize, n: u64) -> (r: Result<usize, ReadError>)
    requires
        p <= d@.len(),
    ensures
        match r {
            Ok(q) => need(d@, p as int, n as int) == Ok::<int, ReadError>(q as int),
            Err(e) => need(d@, p as int, n as int) == Err::<int, ReadError>(e),
        },
{
    let rest = (d.len() - p) as u64;
    if n <= rest {
        Ok(p + n as usize)
    } else {
        Err(ReadError::UnexpectedEof)
    }
}

/// A `u32` count at `p`, then that many items of `size` bytes.
fn array_exec(d: &[u8], p: usize, size: u32) -> (r: Result<usize, ReadError>)
    requires
        p <= d@.len(),
    ensures
        match r {
            Ok(q) => array_end(d@, p as int, size as int) == Ok::<int, ReadError>(q as int),
            Err(e) => array_end(d@, p as int, size as int) == Err::<int, ReadError>(e),
        },
{
    if d.len() - p < 4 {
        return Err(ReadError::UnexpectedEof);
    }
    let count = read_u32_le(d, p);
    assert(count as int * size as int <= 0xFFFF_FFFF * 0xFFFF_FFFF) by (nonlinear_arith)
        requires
            count <= 0xFFFF_FFFFu32,
            size <= 0xFFFF_FFFFu32,
    ;
    let total: u64 = count as u64 * size as u64;
    need_exec(d, p + 4, total)
}

/// The first zero byte at or after `p`.
fn zero_exec(d: &[u8], p: usize) -> (r: Option<usize>)
    requires
        p <= d@.len(),
    ensures
        match r {
            Some(z) => zero_at(d@, p as int) == Some(z as int) && p <= z < d@.len(),
            None => zero_at(d@, p as int) is None,
        },
{
    let mut i = p;
    while i < d.len()
        invariant
            p <= i <= d@.len(),
            zero_at(d@, p as int) == zero_at(d@, i as int),
        decreases d@.len() - i,
    {
        if d[i] == 0 {
            return Some(i);
        }
        i += 1;
    }
    None
}

/// Whether the bytes of `d` from `start` to `end` are UTF-8.
fn utf8_between(d: &[u8], start: usize, end: usize) -> (r: bool)
    requires
        start <= end <= d@.len(),
    ensures
        r == valid_utf8(d@.subrange(start as int, end as int)),
{
    let s = vstd::slice::slice_subrange(d, start, end);
    utf8_str(s).is_ok()
}

/// `n` texts from `p`, each a `u16` byte count and UTF-8 bytes.
fn short_texts_exec(d: &[u8], p: usize, n: u32) -> (r: Result<usize, ReadError>)
    requires
        p <= d@.len(),
    ensures
        match r {
            Ok(q) => short_texts_end(d@, p as int, n as nat) == Ok::<int, ReadError>(q as int),
            Err(e) => short_texts_end(d@, p as int, n as nat) == Err::<int, ReadError>(e),
        },
{
    let mut pos = p;
    let mut left = n;
    while left > 0
        invariant
            p <= pos <= d@.len(),
            short_texts_end(d@, p as int, n as nat) == short_texts_end(d@, pos as int, left as nat),
        decreases left,
    {
        if d.len() - pos < 2 {
            return Err(ReadError::UnexpectedEof);
        }
        let len: u16 = d[pos] as u16 + (d[pos + 1] as u16) * 256;
        assert(len == le_u16(d@, pos as int));
        if d.len() - pos - 2 < len as usize {
            return Err(ReadError::UnexpectedEof);
        }
        let end = pos + 2 + len as usize;
        if !utf8_between(d, pos + 2, end) {
            return Err(ReadError::Schema("Text is not valid UTF-8"));
        }
        pos = end;
        left -= 1;
    }
    Ok(pos)
}

/// A model's kind and the fields of that kind.
fn model_data_exec(d: &[u8], p: usize) -> (r: Result<usize, ReadError>)
    requires
        p <= d@.len(),
    ensures
        match r {
            Ok(q) => model_data_end(d@, p as int) == Ok::<int, ReadError>(q as int),
            Err(e) => model_data_end(d@, p as int) == Err::<int, ReadError>(e),
        },
{
    if d.len() - p < 4 {
        return Err(ReadError::UnexpectedEof);
    }
    let kind = read_u32_le(d, p);
    if kind == 6 {
        need_exec(d, p + 4, 32)
    } else if kind == 3 {
        let q = match need_exec(d, p + 4, 8) {
            Ok(q) => q,
            Err(e) => return Err(e),
        };
        let r = match array_exec(d, q, 20) {
            Ok(r) => r,
            Err(e) => return Err(e),
        };
        need_exec(d, r, 48)
    } else {
        Err(ReadError::BadDiscriminant("ModelData", kind as u128))
    }
}

/// A light's kind.
fn light_kind_exec(d: &[u8], p: usize) -> (r: Result<usize, ReadError>)
    requires
        p <= d@.len(),
    ensures
        match r {
            Ok(q) => light_kind_end(d@, p as int) == Ok::<int, ReadError>(q as int),
            Err(e) => light_kind_end(d@, p as int) == Err::<int, ReadError>(e),
        },
{
    if d.len() - p < 4 {
        return Err(ReadError::UnexpectedEof);
    }
    let kind = read_u32_le(d, p);
    if kind == 1 || kind == 2 {
        Ok(p + 4)
    } else {
        Err(ReadError::BadDiscriminant("LightType", kind as u128))
    }
}

/// Reads one part from `p`.
fn part_exec(d: &[u8], p: usize, part: Part) -> (r: Result<usize, ReadError>)
    requires
        p <= d@.len(),
    ensures
        match r {
            Ok(q) => part_end(d@, p as int, part) == Ok::<int, ReadError>(q as int),
            Err(e) => part_end(d@, p as int, part) == Err::<int, ReadError>(e),
        },
{
    match part {
        Part::Bytes(n) => need_exec(d, p, n as u64),
        Part::Array(size) => array_exec(d, p, size),
        Part::NulText => match zero_exec(d, p) {
            None => Err(ReadError::UnexpectedEof),
            Some(z) => if utf8_between(d, p, z) {
                let n = d.len();
                assert(z < n);
                Ok(z + 1)
            } else {
                Err(ReadError::Schema("Text is not valid UTF-8"))
            },
        },
        Part::ShortTexts => {
            if d.len() - p < 4 {
                return Err(ReadError::UnexpectedEof);
            }
            let count = read_u32_le(d, p);
            short_texts_exec(d, p + 4, count)
        },
        Part::ModelData => model_data_exec(d, p),
        Part::LightKind => light_kind_exec(d, p),
    }
}

/// Checks the body `d` of a section with tag `tag`: `Ok` exactly when each
/// of its fields can be read, else the error that reading gives.
pub fn check_body(tag: u32, d: &[u8]) -> (r: Result<(), ReadError>)
    ensures
        r == body_check(tag, d@),
{
    reveal(body_check);
    if tag == 0x7ab072d3 {
        let mut s: &[u8] = d;
        return match GeometrySection::read_from_stream(&mut s) {
            Ok(_) => Ok(()),
            Err(e) => Err(e),
        };
    }
    let parts = match layout_of(tag) {
        None => return Ok(()),
        Some(v) => v,
    };
    let ghost all = parts@;
    let mut p: usize = 0;
    let mut i: usize = 0;
    assert(all.skip(0) =~= all);
    while i < parts.len()
        invariant
            all == parts@,
            tag != geometry_tag(),
            body_layout(tag) == Some(all),
            i <= parts@.len(),
            p <= d@.len(),
            parts_end(d@, 0, all) == parts_end(d@, p as int, all.skip(i as int)),
        decreases parts@.len() - i,
    {
        assert(all.skip(i as int)[0] == all[i as int]);
        assert(all.skip(i as int).drop_first() =~= all.skip(i as int + 1));
        let part = parts[i];
        assert(part == all[i as int]);
        assert(all.skip(i as int).len() > 0);
        match part_exec(d, p, part) {
            Ok(q) => {
                proof {
                    assert(q <= d@.len()) by {
                        lemma_part_end_in_bounds(d@, p as int, all[i as int]);
                    }
                }
                p = q;
            },
            Err(e) => {
                assert(parts_end(d@, p as int, all.skip(i as int)) == Err::<int, ReadError>(e));
                proof {
                    reveal(body_check);
                }
                return Err(e);
            },
        }
        i += 1;
    }
    assert(all.skip(i as int) =~= Seq::<Part>::empty());
    Ok(())
}

/// A part that reads ends within the body.
proof fn lemma_part_end_in_bounds(d: Seq<u8>, p: int, part: Part)
    requires
        0 <= p <= d.len(),
    ensures
        part_end(d, p, part) matches Ok(q) ==> p <= q <= d.len(),
{
    match part {
        Part::Bytes(_) => {},
        Part::Array(size) => {
            assert(le_u32(d, p) * size >= 0) by (nonlinear_arith)
                requires
                    le_u32(d, p) >= 0,
                    size >= 0,
            ;
        },
        Part::NulText => lemma_zero_at_in_bounds(d, p),
        Part::ShortTexts => if p + 4 <= d.len() {
            lemma_short_texts_in_bounds(d, p + 4, le_u32(d, p) as nat);
        },
        Part::ModelData => {
            if p + 4 <= d.len() && le_u32(d, p) == 3 && p + 12 <= d.len() {
                let q = p + 12;
                assert(le_u32(d, q) * 20 >= 0) by (nonlinear_arith)
                    requires
                        le_u32(d, q) >= 0,
                ;
            }
        },
        Part::LightKind => {},
    }
}

proof fn lemma_zero_at_in_bounds(d: Seq<u8>, p: int)
    requires
        0 <= p <= d.len(),
    ensures
        zero_at(d, p) matches Some(z) ==> p <= z < d.len(),
    decreases d.len() - p,
{
    if p < d.len() && d[p] != 0 {
        lemma_zero_at_in_bounds(d, p + 1);
    }
}

proof fn lemma_short_texts_in_bounds(d: Seq<u8>, p: int, n: nat)
    requires
        0 <= p <= d.len(),
    ensures
        short_texts_end(d, p, n) matches Ok(q) ==> p <= q <= d.len(),
    decreases n,
{
    if n > 0 && p + 2 <= d.len() && p + 2 + le_u16(d, p) <= d.len() {
        lemma_short_texts_in_bounds(d, p + 2 + le_u16(d, p), (n - 1) as nat);
    }
}

} // verus!
