//! Geometry sections: a vertex count, a list of attribute descriptors, then
//! each attribute's values for every vertex, one attribute after another.
//! Floating-point components are held as the bits of their `f32`.
use vstd::prelude::*;
use crate::read_helpers::{le_u32, push_u32_le, read_u32_le, u32_le_bytes};
use super::container::ReadError;
use super::{attribute_type_code, GeometryAttributeType};

verus! {

/// Two components.
#[derive(Debug, Copy, Clone, PartialEq, Eq, Structural)]
pub struct Vec2<T> {
    pub x: T,
    pub y: T,
}

/// Three components.
#[derive(Debug, Copy, Clone, PartialEq, Eq, Structural)]
pub struct Vec3<T> {
    pub x: T,
    pub y: T,
    pub z: T,
}

/// Four components.
#[derive(Debug, Copy, Clone, PartialEq, Eq, Structural)]
pub struct Vec4<T> {
    pub x: T,
    pub y: T,
    pub z: T,
    pub w: T,
}

/// A colour of four bytes.
#[derive(Debug, Copy, Clone, PartialEq, Eq, Structural)]
pub struct Rgba {
    pub r: u8,
    pub g: u8,
    pub b: u8,
    pub a: u8,
}

/// The vertex attributes of a geometry section; an attribute that is not
/// present is empty.
pub struct GeometrySection {
    pub name: u64,
    pub position: Vec<Vec3<u32>>,
    pub position_1: Vec<Vec3<u32>>,
    pub normal_1: Vec<Vec3<u32>>,
    pub color_0: Vec<Rgba>,
    pub color_1: Vec<Rgba>,
    pub tex_coord_0: Vec<Vec2<u32>>,
    pub tex_coord_1: Vec<Vec2<u32>>,
    pub tex_coord_2: Vec<Vec2<u32>>,
    pub tex_coord_3: Vec<Vec2<u32>>,
    pub tex_coord_4: Vec<Vec2<u32>>,
    pub tex_coord_5: Vec<Vec2<u32>>,
    pub tex_coord_6: Vec<Vec2<u32>>,
    pub tex_coord_7: Vec<Vec2<u32>>,
    pub weightcount_0: u32,
    pub blend_indices_0: Vec<Vec4<u16>>,
    pub blend_weight_0: Vec<Vec4<u32>>,
    pub weightcount_1: u32,
    pub blend_indices_1: Vec<Vec4<u16>>,
    pub blend_weight_1: Vec<Vec4<u32>>,
    pub normal: Vec<Vec3<u32>>,
    pub binormal: Vec<Vec3<u32>>,
    pub tangent: Vec<Vec3<u32>>,
    pub point_size: Vec<u32>,
}

/// A geometry section as mathematics sees it.
#[verifier::ext_equal]
pub struct GeometryView {
    pub name: u64,
    pub position: Seq<Vec3<u32>>,
    pub position_1: Seq<Vec3<u32>>,
    pub normal_1: Seq<Vec3<u32>>,
    pub color_0: Seq<Rgba>,
    pub color_1: Seq<Rgba>,
    pub tex_coord_0: Seq<Vec2<u32>>,
    pub tex_coord_1: Seq<Vec2<u32>>,
    pub tex_coord_2: Seq<Vec2<u32>>,
    pub tex_coord_3: Seq<Vec2<u32>>,
    pub tex_coord_4: Seq<Vec2<u32>>,
    pub tex_coord_5: Seq<Vec2<u32>>,
    pub tex_coord_6: Seq<Vec2<u32>>,
    pub tex_coord_7: Seq<Vec2<u32>>,
    pub weightcount_0: u32,
    pub blend_indices_0: Seq<Vec4<u16>>,
    pub blend_weight_0: Seq<Vec4<u32>>,
    pub weightcount_1: u32,
    pub blend_indices_1: Seq<Vec4<u16>>,
    pub blend_weight_1: Seq<Vec4<u32>>,
    pub normal: Seq<Vec3<u32>>,
    pub binormal: Seq<Vec3<u32>>,
    pub tangent: Seq<Vec3<u32>>,
    pub point_size: Seq<u32>,
}

impl View for GeometrySection {
    type V = GeometryView;

    open spec fn view(&self) -> GeometryView {
        GeometryView {
            name: self.name,
            position: self.position@,
            position_1: self.position_1@,
            normal_1: self.normal_1@,
            color_0: self.color_0@,
            color_1: self.color_1@,
            tex_coord_0: self.tex_coord_0@,
            tex_coord_1: self.tex_coord_1@,
            tex_coord_2: self.tex_coord_2@,
            tex_coord_3: self.tex_coord_3@,
            tex_coord_4: self.tex_coord_4@,
            tex_coord_5: self.tex_coord_5@,
            tex_coord_6: self.tex_coord_6@,
            tex_coord_7: self.tex_coord_7@,
            weightcount_0: self.weightcount_0,
            blend_indices_0: self.blend_indices_0@,
            blend_weight_0: self.blend_weight_0@,
            weightcount_1: self.weightcount_1,
            blend_indices_1: self.blend_indices_1@,
            blend_weight_1: self.blend_weight_1@,
            normal: self.normal@,
            binormal: self.binormal@,
            tangent: self.tangent@,
            point_size: self.point_size@,
        }
    }
}

/// The section with no attributes.
pub open spec fn empty_geometry() -> GeometryView {
    GeometryView {
        name: 0,
        position: Seq::empty(),
        position_1: Seq::empty(),
        normal_1: Seq::empty(),
        color_0: Seq::empty(),
        color_1: Seq::empty(),
        tex_coord_0: Seq::empty(),
        tex_coord_1: Seq::empty(),
        tex_coord_2: Seq::empty(),
        tex_coord_3: Seq::empty(),
        tex_coord_4: Seq::empty(),
        tex_coord_5: Seq::empty(),
        tex_coord_6: Seq::empty(),
        tex_coord_7: Seq::empty(),
        weightcount_0: 0,
        blend_indices_0: Seq::empty(),
        blend_weight_0: Seq::empty(),
        weightcount_1: 0,
        blend_indices_1: Seq::empty(),
        blend_weight_1: Seq::empty(),
        normal: Seq::empty(),
        binormal: Seq::empty(),
        tangent: Seq::empty(),
        point_size: Seq::empty(),
    }
}

/// The little-endian `u16` at `p`.
pub open spec fn le_u16(b: Seq<u8>, p: int) -> u16 {
    (b[p] as int + b[p + 1] as int * 0x100) as u16
}

/// Three little-endian `u32` at `p`.
pub open spec fn vec3_at(b: Seq<u8>, p: int) -> Vec3<u32> {
    Vec3 { x: le_u32(b, p), y: le_u32(b, p + 4), z: le_u32(b, p + 8) }
}

/// Two little-endian `u32` at `p`.
pub open spec fn vec2_at(b: Seq<u8>, p: int) -> Vec2<u32> {
    Vec2 { x: le_u32(b, p), y: le_u32(b, p + 4) }
}

/// A colour stored blue, green, red, alpha.
pub open spec fn bgra_at(b: Seq<u8>, p: int) -> Rgba {
    Rgba { r: b[p + 2], g: b[p + 1], b: b[p], a: b[p + 3] }
}

/// Blend indices stored as two, three or (otherwise) four `u16`, the
/// missing ones zero.
pub open spec fn indices_at(b: Seq<u8>, p: int, format: u32) -> Vec4<u16> {
    if format == 2 {
        Vec4 { x: le_u16(b, p), y: le_u16(b, p + 2), z: 0, w: 0 }
    } else if format == 3 {
        Vec4 { x: le_u16(b, p), y: le_u16(b, p + 2), z: le_u16(b, p + 4), w: 0 }
    } else {
        Vec4 { x: le_u16(b, p), y: le_u16(b, p + 2), z: le_u16(b, p + 4), w: le_u16(b, p + 6) }
    }
}

/// Blend weights stored as two, three or (otherwise) four `f32`, the
/// missing ones zero.
pub open spec fn weights_at(b: Seq<u8>, p: int, format: u32) -> Vec4<u32> {
    if format == 2 {
        Vec4 { x: le_u32(b, p), y: le_u32(b, p + 4), z: 0, w: 0 }
    } else if format == 3 {
        Vec4 { x: le_u32(b, p), y: le_u32(b, p + 4), z: le_u32(b, p + 8), w: 0 }
    } else {
        Vec4 { x: le_u32(b, p), y: le_u32(b, p + 4), z: le_u32(b, p + 8), w: le_u32(b, p + 12) }
    }
}

/// How many bytes one vertex's value of an attribute takes, by its type
/// code and format.
pub open spec fn attribute_width(code: u32, format: u32) -> int {
    if code == 5 || code == 6 || code == 19 {
        4
    } else if 7 <= code <= 14 {
        8
    } else if code == 15 || code == 16 {
        if format == 2 {
            4
        } else if format == 3 {
            6
        } else {
            8
        }
    } else if code == 17 || code == 18 {
        if format == 2 {
            8
        } else if format == 3 {
            12
        } else {
            16
        }
    } else {
        12
    }
}

/// `v` with the attribute of type `code` set to the `count` values stored
/// from `p`.
pub open spec fn apply_attribute(
    v: GeometryView,
    b: Seq<u8>,
    code: u32,
    format: u32,
    p: int,
    count: nat,
) -> GeometryView {
    let v3 = Seq::new(count, |i: int| vec3_at(b, p + 12 * i));
    let v2 = Seq::new(count, |i: int| vec2_at(b, p + 8 * i));
    let col = Seq::new(count, |i: int| bgra_at(b, p + 4 * i));
    let w = attribute_width(code, format);
    if code == 1 {
        GeometryView { position: v3, ..v }
    } else if code == 2 {
        GeometryView { normal: v3, ..v }
    } else if code == 3 {
        GeometryView { position_1: v3, ..v }
    } else if code == 4 {
        GeometryView { normal_1: v3, ..v }
    } else if code == 5 {
        GeometryView { color_0: col, ..v }
    } else if code == 6 {
        GeometryView { color_1: col, ..v }
    } else if code == 7 {
        GeometryView { tex_coord_0: v2, ..v }
    } else if code == 8 {
        GeometryView { tex_coord_1: v2, ..v }
    } else if code == 9 {
        GeometryView { tex_coord_2: v2, ..v }
    } else if code == 10 {
        GeometryView { tex_coord_3: v2, ..v }
    } else if code == 11 {
        GeometryView { tex_coord_4: v2, ..v }
    } else if code == 12 {
        GeometryView { tex_coord_5: v2, ..v }
    } else if code == 13 {
        GeometryView { tex_coord_6: v2, ..v }
    } else if code == 14 {
        GeometryView { tex_coord_7: v2, ..v }
    } else if code == 15 {
        GeometryView { blend_indices_0: Seq::new(count, |i: int| indices_at(b, p + w * i, format)), ..v }
    } else if code == 16 {
        GeometryView { blend_indices_1: Seq::new(count, |i: int| indices_at(b, p + w * i, format)), ..v }
    } else if code == 17 {
        GeometryView {
            weightcount_0: format,
            blend_weight_0: Seq::new(count, |i: int| weights_at(b, p + w * i, format)),
            ..v
        }
    } else if code == 18 {
        GeometryView {
            weightcount_1: format,
            blend_weight_1: Seq::new(count, |i: int| weights_at(b, p + w * i, format)),
            ..v
        }
    } else if code == 19 {
        GeometryView { point_size: Seq::new(count, |i: int| le_u32(b, p + 4 * i)), ..v }
    } else if code == 20 {
        GeometryView { binormal: v3, ..v }
    } else {
        GeometryView { tangent: v3, ..v }
    }
}

/// The format of descriptor `k`.
pub open spec fn desc_format(b: Seq<u8>, k: int) -> u32 {
    le_u32(b, 8 + 8 * k)
}

/// The type code of descriptor `k`.
pub open spec fn desc_code(b: Seq<u8>, k: int) -> u32 {
    le_u32(b, 12 + 8 * k)
}

/// Whether the first `n` descriptors read: each is whole and has a known
/// type; the error of the first that does not.
pub open spec fn descriptors_read(b: Seq<u8>, n: nat) -> Result<(), ReadError>
    decreases n,
{
    if n == 0 {
        Ok(())
    } else {
        match descriptors_read(b, (n - 1) as nat) {
            Err(e) => Err(e),
            Ok(()) => {
                let p = 8 + 8 * (n - 1);
                if p + 8 > b.len() {
                    Err(ReadError::UnexpectedEof)
                } else if !(1 <= desc_code(b, n - 1) <= 21) {
                    Err(ReadError::BadDiscriminant("GeometryAttributeType", desc_code(b, n - 1) as u128))
                } else {
                    Ok(())
                }
            },
        }
    }
}

/// Where the values of attribute `k` start, for `nd` descriptors and
/// `count` vertices.
pub open spec fn attribute_start(b: Seq<u8>, nd: nat, count: nat, k: nat) -> int
    decreases k,
{
    if k == 0 {
        (8 + 8 * nd) as int
    } else {
        attribute_start(b, nd, count, (k - 1) as nat) + count * attribute_width(
            desc_code(b, k - 1),
            desc_format(b, k - 1),
        )
    }
}

/// The section after its first `k` attributes are read, or the error of
/// the first whose values run past the end.
pub open spec fn attributes_read(b: Seq<u8>, nd: nat, count: nat, k: nat) -> Result<GeometryView, ReadError>
    decreases k,
{
    if k == 0 {
        Ok(empty_geometry())
    } else {
        match attributes_read(b, nd, count, (k - 1) as nat) {
            Err(e) => Err(e),
            Ok(v) => {
                let p = attribute_start(b, nd, count, (k - 1) as nat);
                let code = desc_code(b, k - 1);
                let format = desc_format(b, k - 1);
                if p + count * attribute_width(code, format) > b.len() {
                    Err(ReadError::UnexpectedEof)
                } else {
                    Ok(apply_attribute(v, b, code, format, p, count))
                }
            },
        }
    }
}

/// The geometry section stored in `b`: the vertex count, the descriptors,
/// then the attributes in the order of their descriptors, a later one of a
/// type replacing an earlier. The name is not stored and stays 0.
pub open spec fn spec_geometry(b: Seq<u8>) -> Result<GeometryView, ReadError> {
    if b.len() < 8 {
        Err(ReadError::UnexpectedEof)
    } else {
        let count = le_u32(b, 0) as nat;
        let nd = le_u32(b, 4) as nat;
        match descriptors_read(b, nd) {
            Err(e) => Err(e),
            Ok(()) => attributes_read(b, nd, count, nd),
        }
    }
}


fn read_u16_le(b: &[u8], p: usize) -> (r: u16)
    requires
        p + 2 <= b@.len(),
    ensures
        r == le_u16(b@, p as int),
{
    let b0 = b[p];
    let b1 = b[p + 1];
    let r = (b0 as u16) | ((b1 as u16) << 8u16);
    assert(r == (b0 as int + b1 as int * 0x100) as u16) by (bit_vector)
        requires
            r == (b0 as u16) | ((b1 as u16) << 8u16),
    ;
    r
}

/// Whether `count` values of `width` bytes fit from `p` on.
fn fits(b: &[u8], p: usize, count: u32, width: usize) -> (r: bool)
    ensures
        r == (p + count * width <= b@.len()),
{
    let c = count as u128;
    let w = width as u128;
    assert(c * w <= 0xFFFF_FFFFu128 * 0xFFFF_FFFF_FFFF_FFFFu128) by (nonlinear_arith)
        requires
            c <= 0xFFFF_FFFF,
            w <= 0xFFFF_FFFF_FFFF_FFFF,
    ;
    (p as u128) + c * w <= b.len() as u128
}

fn read_vec3s(b: &[u8], p: usize, count: u32) -> (r: Vec<Vec3<u32>>)
    requires
        p + count * 12 <= b@.len(),
    ensures
        r@ == Seq::new(count as nat, |i: int| vec3_at(b@, p + 12 * i)),
{
    let mut out: Vec<Vec3<u32>> = Vec::new();
    let _n = b.len();
    let mut i: u32 = 0;
    while i < count
        invariant
            i <= count,
            b@.len() <= usize::MAX,
            p + count * 12 <= b@.len(),
            out@ == Seq::new(i as nat, |j: int| vec3_at(b@, p + 12 * j)),
        decreases count - i,
    {
        proof {
            assert(12 * i + 12 <= 12 * count) by (nonlinear_arith)
                requires
                    i < count,
            ;
        }
        let q = p + 12 * (i as usize);
        let v = Vec3 { x: read_u32_le(b, q), y: read_u32_le(b, q + 4), z: read_u32_le(b, q + 8) };
        out.push(v);
        i += 1;
        assert(out@ =~= Seq::new(i as nat, |j: int| vec3_at(b@, p + 12 * j)));
    }
    out
}

fn read_vec2s(b: &[u8], p: usize, count: u32) -> (r: Vec<Vec2<u32>>)
    requires
        p + count * 8 <= b@.len(),
    ensures
        r@ == Seq::new(count as nat, |i: int| vec2_at(b@, p + 8 * i)),
{
    let mut out: Vec<Vec2<u32>> = Vec::new();
    let _n = b.len();
    let mut i: u32 = 0;
    while i < count
        invariant
            i <= count,
            b@.len() <= usize::MAX,
            p + count * 8 <= b@.len(),
            out@ == Seq::new(i as nat, |j: int| vec2_at(b@, p + 8 * j)),
        decreases count - i,
    {
        proof {
            assert(8 * i + 8 <= 8 * count) by (nonlinear_arith)
                requires
                    i < count,
            ;
        }
        let q = p + 8 * (i as usize);
        let v = Vec2 { x: read_u32_le(b, q), y: read_u32_le(b, q + 4) };
        out.push(v);
        i += 1;
        assert(out@ =~= Seq::new(i as nat, |j: int| vec2_at(b@, p + 8 * j)));
    }
    out
}

fn read_colours(b: &[u8], p: usize, count: u32) -> (r: Vec<Rgba>)
    requires
        p + count * 4 <= b@.len(),
    ensures
        r@ == Seq::new(count as nat, |i: int| bgra_at(b@, p + 4 * i)),
{
    let mut out: Vec<Rgba> = Vec::new();
    let _n = b.len();
    let mut i: u32 = 0;
    while i < count
        invariant
            i <= count,
            b@.len() <= usize::MAX,
            p + count * 4 <= b@.len(),
            out@ == Seq::new(i as nat, |j: int| bgra_at(b@, p + 4 * j)),
        decreases count - i,
    {
        proof {
            assert(4 * i + 4 <= 4 * count) by (nonlinear_arith)
                requires
                    i < count,
            ;
        }
        let q = p + 4 * (i as usize);
        let v = Rgba { r: b[q + 2], g: b[q + 1], b: b[q], a: b[q + 3] };
        out.push(v);
        i += 1;
        assert(out@ =~= Seq::new(i as nat, |j: int| bgra_at(b@, p + 4 * j)));
    }
    out
}

fn read_u32s(b: &[u8], p: usize, count: u32) -> (r: Vec<u32>)
    requires
        p + count * 4 <= b@.len(),
    ensures
        r@ == Seq::new(count as nat, |i: int| le_u32(b@, p + 4 * i)),
{
    let mut out: Vec<u32> = Vec::new();
    let _n = b.len();
    let mut i: u32 = 0;
    while i < count
        invariant
            i <= count,
            b@.len() <= usize::MAX,
            p + count * 4 <= b@.len(),
            out@ == Seq::new(i as nat, |j: int| le_u32(b@, p + 4 * j)),
        decreases count - i,
    {
        proof {
            assert(4 * i + 4 <= 4 * count) by (nonlinear_arith)
                requires
                    i < count,
            ;
        }
        let q = p + 4 * (i as usize);
        out.push(read_u32_le(b, q));
        i += 1;
        assert(out@ =~= Seq::new(i as nat, |j: int| le_u32(b@, p + 4 * j)));
    }
    out
}

fn read_indices(b: &[u8], p: usize, count: u32, format: u32) -> (r: Vec<Vec4<u16>>)
    requires
        p + count * attribute_width(15, format) <= b@.len(),
    ensures
        r@ == Seq::new(count as nat, |i: int| indices_at(b@, p + attribute_width(15, format) * i, format)),
{
    let w: usize = if format == 2 {
        4
    } else if format == 3 {
        6
    } else {
        8
    };
    let mut out: Vec<Vec4<u16>> = Vec::new();
    let _n = b.len();
    let mut i: u32 = 0;
    while i < count
        invariant
            i <= count,
            b@.len() <= usize::MAX,
            w == attribute_width(15, format),
            p + count * w <= b@.len(),
            out@ == Seq::new(i as nat, |j: int| indices_at(b@, p + w * j, format)),
        decreases count - i,
    {
        proof {
            assert(w * i + w <= w * count && count * w == w * count) by (nonlinear_arith)
                requires
                    i < count,
            ;
        }
        let q = p + w * (i as usize);
        let v = if format == 2 {
            Vec4 { x: read_u16_le(b, q), y: read_u16_le(b, q + 2), z: 0, w: 0 }
        } else if format == 3 {
            Vec4 { x: read_u16_le(b, q), y: read_u16_le(b, q + 2), z: read_u16_le(b, q + 4), w: 0 }
        } else {
            Vec4 {
                x: read_u16_le(b, q),
                y: read_u16_le(b, q + 2),
                z: read_u16_le(b, q + 4),
                w: read_u16_le(b, q + 6),
            }
        };
        out.push(v);
        i += 1;
        assert(out@ =~= Seq::new(i as nat, |j: int| indices_at(b@, p + w * j, format)));
    }
    out
}

fn read_weights(b: &[u8], p: usize, count: u32, format: u32) -> (r: Vec<Vec4<u32>>)
    requires
        p + count * attribute_width(17, format) <= b@.len(),
    ensures
        r@ == Seq::new(count as nat, |i: int| weights_at(b@, p + attribute_width(17, format) * i, format)),
{
    let w: usize = if format == 2 {
        8
    } else if format == 3 {
        12
    } else {
        16
    };
    let mut out: Vec<Vec4<u32>> = Vec::new();
    let _n = b.len();
    let mut i: u32 = 0;
    while i < count
        invariant
            i <= count,
            b@.len() <= usize::MAX,
            w == attribute_width(17, format),
            p + count * w <= b@.len(),
            out@ == Seq::new(i as nat, |j: int| weights_at(b@, p + w * j, format)),
        decreases count - i,
    {
        proof {
            assert(w * i + w <= w * count && count * w == w * count) by (nonlinear_arith)
                requires
                    i < count,
            ;
        }
        let q = p + w * (i as usize);
        let v = if format == 2 {
            Vec4 { x: read_u32_le(b, q), y: read_u32_le(b, q + 4), z: 0, w: 0 }
        } else if format == 3 {
            Vec4 { x: read_u32_le(b, q), y: read_u32_le(b, q + 4), z: read_u32_le(b, q + 8), w: 0 }
        } else {
            Vec4 {
                x: read_u32_le(b, q),
                y: read_u32_le(b, q + 4),
                z: read_u32_le(b, q + 8),
                w: read_u32_le(b, q + 12),
            }
        };
        out.push(v);
        i += 1;
        assert(out@ =~= Seq::new(i as nat, |j: int| weights_at(b@, p + w * j, format)));
    }
    out
}


/// How many bytes one vertex's value of an attribute takes.
fn attr_width(t: GeometryAttributeType, format: u32) -> (r: usize)
    ensures
        r == attribute_width(attribute_type_code(t), format),
{
    match t {
        GeometryAttributeType::Color0 | GeometryAttributeType::Color1 | GeometryAttributeType::PointSize => 4,
        GeometryAttributeType::TexCoord0 | GeometryAttributeType::TexCoord1
        | GeometryAttributeType::TexCoord2 | GeometryAttributeType::TexCoord3
        | GeometryAttributeType::TexCoord4 | GeometryAttributeType::TexCoord5
        | GeometryAttributeType::TexCoord6 | GeometryAttributeType::TexCoord7 => 8,
        GeometryAttributeType::BlendIndices0 | GeometryAttributeType::BlendIndices1 => {
            if format == 2 {
                4
            } else if format == 3 {
                6
            } else {
                8
            }
        },
        GeometryAttributeType::BlendWeight0 | GeometryAttributeType::BlendWeight1 => {
            if format == 2 {
                8
            } else if format == 3 {
                12
            } else {
                16
            }
        },
        _ => 12,
    }
}

impl GeometrySection {
    /// A section with no attributes and name 0.
    pub fn empty() -> (r: GeometrySection)
        ensures
            r@ == empty_geometry(),
    {
        let r = GeometrySection {
            name: 0,
            position: Vec::new(),
            position_1: Vec::new(),
            normal_1: Vec::new(),
            color_0: Vec::new(),
            color_1: Vec::new(),
            tex_coord_0: Vec::new(),
            tex_coord_1: Vec::new(),
            tex_coord_2: Vec::new(),
            tex_coord_3: Vec::new(),
            tex_coord_4: Vec::new(),
            tex_coord_5: Vec::new(),
            tex_coord_6: Vec::new(),
            tex_coord_7: Vec::new(),
            weightcount_0: 0,
            blend_indices_0: Vec::new(),
            blend_weight_0: Vec::new(),
            weightcount_1: 0,
            blend_indices_1: Vec::new(),
            blend_weight_1: Vec::new(),
            normal: Vec::new(),
            binormal: Vec::new(),
            tangent: Vec::new(),
            point_size: Vec::new(),
        };
        assert(r@ =~= empty_geometry());
        r
    }

    /// Sets the attribute of type `t` to the `count` values stored from `p`.
    fn set_attribute(&mut self, b: &[u8], t: GeometryAttributeType, format: u32, p: usize, count: u32)
        requires
            p + count * attribute_width(attribute_type_code(t), format) <= b@.len(),
        ensures
            final(self)@ == apply_attribute(old(self)@, b@, attribute_type_code(t), format, p as int, count as nat),
    {
        match t {
            GeometryAttributeType::Position => self.position = read_vec3s(b, p, count),
            GeometryAttributeType::Normal => self.normal = read_vec3s(b, p, count),
            GeometryAttributeType::Position1 => self.position_1 = read_vec3s(b, p, count),
            GeometryAttributeType::Normal1 => self.normal_1 = read_vec3s(b, p, count),
            GeometryAttributeType::Color0 => self.color_0 = read_colours(b, p, count),
            GeometryAttributeType::Color1 => self.color_1 = read_colours(b, p, count),
            GeometryAttributeType::TexCoord0 => self.tex_coord_0 = read_vec2s(b, p, count),
            GeometryAttributeType::TexCoord1 => self.tex_coord_1 = read_vec2s(b, p, count),
            GeometryAttributeType::TexCoord2 => self.tex_coord_2 = read_vec2s(b, p, count),
            GeometryAttributeType::TexCoord3 => self.tex_coord_3 = read_vec2s(b, p, count),
            GeometryAttributeType::TexCoord4 => self.tex_coord_4 = read_vec2s(b, p, count),
            GeometryAttributeType::TexCoord5 => self.tex_coord_5 = read_vec2s(b, p, count),
            GeometryAttributeType::TexCoord6 => self.tex_coord_6 = read_vec2s(b, p, count),
            GeometryAttributeType::TexCoord7 => self.tex_coord_7 = read_vec2s(b, p, count),
            GeometryAttributeType::BlendIndices0 => self.blend_indices_0 = read_indices(b, p, count, format),
            GeometryAttributeType::BlendIndices1 => self.blend_indices_1 = read_indices(b, p, count, format),
            GeometryAttributeType::BlendWeight0 => {
                self.weightcount_0 = format;
                self.blend_weight_0 = read_weights(b, p, count, format);
            },
            GeometryAttributeType::BlendWeight1 => {
                self.weightcount_1 = format;
                self.blend_weight_1 = read_weights(b, p, count, format);
            },
            GeometryAttributeType::PointSize => self.point_size = read_u32s(b, p, count),
            GeometryAttributeType::Binormal => self.binormal = read_vec3s(b, p, count),
            GeometryAttributeType::Tangent => self.tangent = read_vec3s(b, p, count),
        }
        assert(self@ =~= apply_attribute(old(self)@, b@, attribute_type_code(t), format, p as int, count as nat));
    }
}


proof fn lemma_descriptors_err_persists(b: Seq<u8>, m: nat, n: nat)
    requires
        m <= n,
        descriptors_read(b, m) is Err,
    ensures
        descriptors_read(b, n) == descriptors_read(b, m),
    decreases n - m,
{
    if n > m {
        lemma_descriptors_err_persists(b, m, (n - 1) as nat);
    }
}

proof fn lemma_attributes_err_persists(b: Seq<u8>, nd: nat, count: nat, m: nat, n: nat)
    requires
        m <= n,
        attributes_read(b, nd, count, m) is Err,
    ensures
        attributes_read(b, nd, count, n) == attributes_read(b, nd, count, m),
    decreases n - m,
{
    if n > m {
        lemma_attributes_err_persists(b, nd, count, m, (n - 1) as nat);
    }
}

impl GeometrySection {
    /// Reads a geometry section from the front of `stream`: the vertex
    /// count, the attribute descriptors, and each attribute's values in the
    /// order of the descriptors, a later attribute of a type replacing an
    /// earlier one. What follows the last attribute is left in `stream`.
    pub fn read_from_stream(stream: &mut &[u8]) -> (r: Result<GeometrySection, ReadError>)
        ensures
            match r {
                Ok(g) => spec_geometry(old(stream)@) == Ok::<GeometryView, ReadError>(g@) && final(stream)@
                    == old(stream)@.subrange(
                    attribute_start(
                        old(stream)@,
                        le_u32(old(stream)@, 4) as nat,
                        le_u32(old(stream)@, 0) as nat,
                        le_u32(old(stream)@, 4) as nat,
                    ),
                    old(stream)@.len() as int,
                ),
                Err(e) => spec_geometry(old(stream)@) == Err::<GeometryView, ReadError>(e),
            },
    {
        let b: &[u8] = *stream;
        let n = b.len();
        if n < 8 {
            return Err(ReadError::UnexpectedEof);
        }
        let count = read_u32_le(b, 0);
        let nd = read_u32_le(b, 4);
        let mut descs: Vec<(u32, GeometryAttributeType)> = Vec::new();
        let mut k: u32 = 0;
        while k < nd
            invariant
                n == b@.len(),
                b@ == old(stream)@,
                n >= 8,
                count == le_u32(b@, 0),
                nd == le_u32(b@, 4),
                k <= nd,
                descriptors_read(b@, k as nat) == Ok::<(), ReadError>(()),
                descs@.len() == k,
                8 + 8 * k <= n,
                forall|j: int|
                    0 <= j < k ==> (#[trigger] descs@[j]).0 == desc_format(b@, j) && attribute_type_code(
                        descs@[j].1,
                    ) == desc_code(b@, j),
            decreases nd - k,
        {
            let p = 8 + 8 * (k as usize);
            if n - p < 8 {
                proof {
                    lemma_descriptors_err_persists(b@, (k + 1) as nat, nd as nat);
                }
                return Err(ReadError::UnexpectedEof);
            }
            let format = read_u32_le(b, p);
            let code = read_u32_le(b, p + 4);
            match GeometryAttributeType::try_from_u32(code) {
                None => {
                    proof {
                        lemma_descriptors_err_persists(b@, (k + 1) as nat, nd as nat);
                    }
                    return Err(ReadError::BadDiscriminant("GeometryAttributeType", code as u128));
                },
                Some(t) => {
                    descs.push((format, t));
                },
            }
            k += 1;
        }
        let mut g = GeometrySection::empty();
        let mut pos: usize = 8 + 8 * (nd as usize);
        let ghost cn = count as nat;
        let ghost ndn = nd as nat;
        let mut k: u32 = 0;
        while k < nd
            invariant
                n == b@.len(),
                b@ == old(stream)@,
                n >= 8,
                descriptors_read(b@, nd as nat) == Ok::<(), ReadError>(()),
                n <= usize::MAX,
                nd == le_u32(b@, 4),
                count == le_u32(b@, 0),
                cn == count as nat,
                ndn == nd as nat,
                k <= nd,
                descs@.len() == nd,
                forall|j: int|
                    0 <= j < nd ==> (#[trigger] descs@[j]).0 == desc_format(b@, j) && attribute_type_code(
                        descs@[j].1,
                    ) == desc_code(b@, j),
                attributes_read(b@, ndn, cn, k as nat) == Ok::<GeometryView, ReadError>(g@),
                pos == attribute_start(b@, ndn, cn, k as nat),
                pos <= n,
            decreases nd - k,
        {
            let (format, t) = descs[k as usize];
            let w = attr_width(t, format);
            if !fits(b, pos, count, w) {
                proof {
                    lemma_attributes_err_persists(b@, ndn, cn, (k + 1) as nat, ndn);
                }
                return Err(ReadError::UnexpectedEof);
            }
            g.set_attribute(b, t, format, pos, count);
            proof {
                assert(count * w <= n) by (nonlinear_arith)
                    requires
                        pos + count * w <= n,
                        pos >= 0,
                ;
            }
            pos = pos + (count as usize) * w;
            k += 1;
        }
        let (_, rest) = b.split_at(pos);
        *stream = rest;
        Ok(g)
    }
}


/// The two little-endian bytes of `v`.
pub open spec fn u16_le_bytes(v: u16) -> Seq<u8> {
    seq![(v & 0xff) as u8, ((v >> 8u16) & 0xff) as u8]
}

/// The bytes of a vector of three `f32`.
pub open spec fn vec3_bytes(v: Vec3<u32>) -> Seq<u8> {
    u32_le_bytes(v.x) + u32_le_bytes(v.y) + u32_le_bytes(v.z)
}

/// The bytes of a vector of two `f32`.
pub open spec fn vec2_bytes(v: Vec2<u32>) -> Seq<u8> {
    u32_le_bytes(v.x) + u32_le_bytes(v.y)
}

/// The bytes of a colour: blue, green, red, alpha.
pub open spec fn colour_bytes(c: Rgba) -> Seq<u8> {
    seq![c.b, c.g, c.r, c.a]
}

/// The bytes of blend indices kept to `format` components (two, three, or
/// four).
pub open spec fn indices_bytes(v: Vec4<u16>, format: u32) -> Seq<u8> {
    if format == 2 {
        u16_le_bytes(v.x) + u16_le_bytes(v.y)
    } else if format == 3 {
        u16_le_bytes(v.x) + u16_le_bytes(v.y) + u16_le_bytes(v.z)
    } else {
        u16_le_bytes(v.x) + u16_le_bytes(v.y) + u16_le_bytes(v.z) + u16_le_bytes(v.w)
    }
}

/// The bytes of blend weights kept to `format` components.
pub open spec fn weights_bytes(v: Vec4<u32>, format: u32) -> Seq<u8> {
    if format == 2 {
        u32_le_bytes(v.x) + u32_le_bytes(v.y)
    } else if format == 3 {
        u32_le_bytes(v.x) + u32_le_bytes(v.y) + u32_le_bytes(v.z)
    } else {
        u32_le_bytes(v.x) + u32_le_bytes(v.y) + u32_le_bytes(v.z) + u32_le_bytes(v.w)
    }
}

/// The bytes of a run of three-component vectors.
pub open spec fn vec3s_bytes(s: Seq<Vec3<u32>>) -> Seq<u8>
    decreases s.len(),
{
    if s.len() == 0 {
        Seq::empty()
    } else {
        vec3s_bytes(s.drop_last()) + vec3_bytes(s.last())
    }
}

/// The bytes of a run of two-component vectors.
pub open spec fn vec2s_bytes(s: Seq<Vec2<u32>>) -> Seq<u8>
    decreases s.len(),
{
    if s.len() == 0 {
        Seq::empty()
    } else {
        vec2s_bytes(s.drop_last()) + vec2_bytes(s.last())
    }
}

/// The bytes of a run of colours.
pub open spec fn colours_bytes(s: Seq<Rgba>) -> Seq<u8>
    decreases s.len(),
{
    if s.len() == 0 {
        Seq::empty()
    } else {
        colours_bytes(s.drop_last()) + colour_bytes(s.last())
    }
}

/// The bytes of a run of `f32` point sizes.
pub open spec fn u32s_bytes(s: Seq<u32>) -> Seq<u8>
    decreases s.len(),
{
    if s.len() == 0 {
        Seq::empty()
    } else {
        u32s_bytes(s.drop_last()) + u32_le_bytes(s.last())
    }
}

/// The bytes of a run of blend indices.
pub open spec fn indices_run_bytes(s: Seq<Vec4<u16>>, format: u32) -> Seq<u8>
    decreases s.len(),
{
    if s.len() == 0 {
        Seq::empty()
    } else {
        indices_run_bytes(s.drop_last(), format) + indices_bytes(s.last(), format)
    }
}

/// The bytes of a run of blend weights.
pub open spec fn weights_run_bytes(s: Seq<Vec4<u32>>, format: u32) -> Seq<u8>
    decreases s.len(),
{
    if s.len() == 0 {
        Seq::empty()
    } else {
        weights_run_bytes(s.drop_last(), format) + weights_bytes(s.last(), format)
    }
}

/// The type codes of the attributes in the order they are written.
pub open spec fn slot_code(j: int) -> u32 {
    seq![1u32, 7, 8, 9, 10, 11, 12, 13, 14, 5, 15, 17, 16, 18, 2, 20, 21, 3, 6, 4, 19][j]
}

/// The format written for the attribute in slot `j`.
pub open spec fn slot_format(g: GeometryView, j: int) -> u32 {
    let c = slot_code(j);
    if c == 1 || c == 2 || c == 3 || c == 4 || c == 20 || c == 21 {
        3
    } else if 7 <= c <= 14 {
        2
    } else if c == 5 || c == 6 {
        5
    } else if c == 15 || c == 17 {
        g.weightcount_0
    } else if c == 16 || c == 18 {
        g.weightcount_1
    } else {
        1
    }
}

/// How many values the attribute in slot `j` holds.
pub open spec fn slot_len(g: GeometryView, j: int) -> nat {
    let c = slot_code(j);
    if c == 1 {
        g.position.len()
    } else if c == 7 {
        g.tex_coord_0.len()
    } else if c == 8 {
        g.tex_coord_1.len()
    } else if c == 9 {
        g.tex_coord_2.len()
    } else if c == 10 {
        g.tex_coord_3.len()
    } else if c == 11 {
        g.tex_coord_4.len()
    } else if c == 12 {
        g.tex_coord_5.len()
    } else if c == 13 {
        g.tex_coord_6.len()
    } else if c == 14 {
        g.tex_coord_7.len()
    } else if c == 5 {
        g.color_0.len()
    } else if c == 15 {
        g.blend_indices_0.len()
    } else if c == 17 {
        g.blend_weight_0.len()
    } else if c == 16 {
        g.blend_indices_1.len()
    } else if c == 18 {
        g.blend_weight_1.len()
    } else if c == 2 {
        g.normal.len()
    } else if c == 20 {
        g.binormal.len()
    } else if c == 21 {
        g.tangent.len()
    } else if c == 3 {
        g.position_1.len()
    } else if c == 6 {
        g.color_1.len()
    } else if c == 4 {
        g.normal_1.len()
    } else {
        g.point_size.len()
    }
}

/// The bytes of the values of the attribute in slot `j`.
pub open spec fn slot_bytes(g: GeometryView, j: int) -> Seq<u8> {
    let c = slot_code(j);
    if c == 1 {
        vec3s_bytes(g.position)
    } else if c == 7 {
        vec2s_bytes(g.tex_coord_0)
    } else if c == 8 {
        vec2s_bytes(g.tex_coord_1)
    } else if c == 9 {
        vec2s_bytes(g.tex_coord_2)
    } else if c == 10 {
        vec2s_bytes(g.tex_coord_3)
    } else if c == 11 {
        vec2s_bytes(g.tex_coord_4)
    } else if c == 12 {
        vec2s_bytes(g.tex_coord_5)
    } else if c == 13 {
        vec2s_bytes(g.tex_coord_6)
    } else if c == 14 {
        vec2s_bytes(g.tex_coord_7)
    } else if c == 5 {
        colours_bytes(g.color_0)
    } else if c == 15 {
        indices_run_bytes(g.blend_indices_0, g.weightcount_0)
    } else if c == 17 {
        weights_run_bytes(g.blend_weight_0, g.weightcount_0)
    } else if c == 16 {
        indices_run_bytes(g.blend_indices_1, g.weightcount_1)
    } else if c == 18 {
        weights_run_bytes(g.blend_weight_1, g.weightcount_1)
    } else if c == 2 {
        vec3s_bytes(g.normal)
    } else if c == 20 {
        vec3s_bytes(g.binormal)
    } else if c == 21 {
        vec3s_bytes(g.tangent)
    } else if c == 3 {
        vec3s_bytes(g.position_1)
    } else if c == 6 {
        colours_bytes(g.color_1)
    } else if c == 4 {
        vec3s_bytes(g.normal_1)
    } else {
        u32s_bytes(g.point_size)
    }
}

/// The descriptors written for the first `n` slots: one for each attribute
/// that is not empty.
pub open spec fn headers_upto(g: GeometryView, n: nat) -> Seq<(u32, u32)>
    decreases n,
{
    if n == 0 {
        Seq::empty()
    } else if slot_len(g, n - 1) > 0 {
        headers_upto(g, (n - 1) as nat).push((slot_format(g, n - 1), slot_code(n - 1)))
    } else {
        headers_upto(g, (n - 1) as nat)
    }
}

/// The values written for the first `n` slots.
pub open spec fn data_upto(g: GeometryView, n: nat) -> Seq<u8>
    decreases n,
{
    if n == 0 {
        Seq::empty()
    } else if slot_len(g, n - 1) > 0 {
        data_upto(g, (n - 1) as nat) + slot_bytes(g, n - 1)
    } else {
        data_upto(g, (n - 1) as nat)
    }
}

/// The bytes of a list of descriptors, each its format then its type code.
pub open spec fn headers_bytes(h: Seq<(u32, u32)>) -> Seq<u8>
    decreases h.len(),
{
    if h.len() == 0 {
        Seq::empty()
    } else {
        headers_bytes(h.drop_last()) + u32_le_bytes(h.last().0) + u32_le_bytes(h.last().1)
    }
}

/// The bytes of a geometry section: the vertex count (that of the
/// positions), the descriptors of the attributes that are not empty, their
/// values in slot order, and the name.
pub open spec fn geometry_bytes(g: GeometryView) -> Seq<u8> {
    let h = headers_upto(g, 21);
    u32_le_bytes(g.position.len() as u32) + u32_le_bytes(h.len() as u32) + headers_bytes(h)
        + data_upto(g, 21) + u32_le_bytes(g.name as u32) + u32_le_bytes((g.name >> 32u64) as u32)
}


fn push_u16_le(out: &mut Vec<u8>, v: u16)
    ensures
        final(out)@ == old(out)@ + u16_le_bytes(v),
{
    out.push((v & 0xff) as u8);
    out.push(((v >> 8u16) & 0xff) as u8);
    assert(out@ =~= old(out)@ + u16_le_bytes(v));
}

fn write_vec3s(out: &mut Vec<u8>, s: &Vec<Vec3<u32>>)
    ensures
        final(out)@ == old(out)@ + vec3s_bytes(s@),
{
    let n = s.len();
    let mut i: usize = 0;
    assert(s@.take(0) =~= Seq::<Vec3<u32>>::empty());
    while i < n
        invariant
            n == s@.len(),
            i <= n,
            out@ == old(out)@ + vec3s_bytes(s@.take(i as int)),
        decreases n - i,
    {
        let v = s[i];
        let ghost before = out@;
        push_u32_le(out, v.x);
        push_u32_le(out, v.y);
        push_u32_le(out, v.z);
        assert(s@.take(i + 1).drop_last() =~= s@.take(i as int));
        assert(out@ =~= before + vec3_bytes(v));
        i += 1;
    }
    assert(s@.take(n as int) =~= s@);
}

fn write_vec2s(out: &mut Vec<u8>, s: &Vec<Vec2<u32>>)
    ensures
        final(out)@ == old(out)@ + vec2s_bytes(s@),
{
    let n = s.len();
    let mut i: usize = 0;
    assert(s@.take(0) =~= Seq::<Vec2<u32>>::empty());
    while i < n
        invariant
            n == s@.len(),
            i <= n,
            out@ == old(out)@ + vec2s_bytes(s@.take(i as int)),
        decreases n - i,
    {
        let v = s[i];
        let ghost before = out@;
        push_u32_le(out, v.x);
        push_u32_le(out, v.y);
        assert(s@.take(i + 1).drop_last() =~= s@.take(i as int));
        assert(out@ =~= before + vec2_bytes(v));
        i += 1;
    }
    assert(s@.take(n as int) =~= s@);
}

fn write_colours(out: &mut Vec<u8>, s: &Vec<Rgba>)
    ensures
        final(out)@ == old(out)@ + colours_bytes(s@),
{
    let n = s.len();
    let mut i: usize = 0;
    assert(s@.take(0) =~= Seq::<Rgba>::empty());
    while i < n
        invariant
            n == s@.len(),
            i <= n,
            out@ == old(out)@ + colours_bytes(s@.take(i as int)),
        decreases n - i,
    {
        let v = s[i];
        let ghost before = out@;
        out.push(v.b);
        out.push(v.g);
        out.push(v.r);
        out.push(v.a);
        assert(s@.take(i + 1).drop_last() =~= s@.take(i as int));
        assert(out@ =~= before + colour_bytes(v));
        i += 1;
    }
    assert(s@.take(n as int) =~= s@);
}

fn write_u32s(out: &mut Vec<u8>, s: &Vec<u32>)
    ensures
        final(out)@ == old(out)@ + u32s_bytes(s@),
{
    let n = s.len();
    let mut i: usize = 0;
    assert(s@.take(0) =~= Seq::<u32>::empty());
    while i < n
        invariant
            n == s@.len(),
            i <= n,
            out@ == old(out)@ + u32s_bytes(s@.take(i as int)),
        decreases n - i,
    {
        let v = s[i];
        let ghost before = out@;
        push_u32_le(out, v);
        assert(s@.take(i + 1).drop_last() =~= s@.take(i as int));
        assert(out@ =~= before + u32_le_bytes(v));
        i += 1;
    }
    assert(s@.take(n as int) =~= s@);
}

fn write_indices(out: &mut Vec<u8>, s: &Vec<Vec4<u16>>, format: u32)
    ensures
        final(out)@ == old(out)@ + indices_run_bytes(s@, format),
{
    let n = s.len();
    let mut i: usize = 0;
    assert(s@.take(0) =~= Seq::<Vec4<u16>>::empty());
    while i < n
        invariant
            n == s@.len(),
            i <= n,
            out@ == old(out)@ + indices_run_bytes(s@.take(i as int), format),
        decreases n - i,
    {
        let v = s[i];
        let ghost before = out@;
        push_u16_le(out, v.x);
        push_u16_le(out, v.y);
        if format != 2 {
            push_u16_le(out, v.z);
        }
        if format != 2 && format != 3 {
            push_u16_le(out, v.w);
        }
        assert(s@.take(i + 1).drop_last() =~= s@.take(i as int));
        assert(out@ =~= before + indices_bytes(v, format));
        i += 1;
    }
    assert(s@.take(n as int) =~= s@);
}

fn write_weights(out: &mut Vec<u8>, s: &Vec<Vec4<u32>>, format: u32)
    ensures
        final(out)@ == old(out)@ + weights_run_bytes(s@, format),
{
    let n = s.len();
    let mut i: usize = 0;
    assert(s@.take(0) =~= Seq::<Vec4<u32>>::empty());
    while i < n
        invariant
            n == s@.len(),
            i <= n,
            out@ == old(out)@ + weights_run_bytes(s@.take(i as int), format),
        decreases n - i,
    {
        let v = s[i];
        let ghost before = out@;
        push_u32_le(out, v.x);
        push_u32_le(out, v.y);
        if format != 2 {
            push_u32_le(out, v.z);
        }
        if format != 2 && format != 3 {
            push_u32_le(out, v.w);
        }
        assert(s@.take(i + 1).drop_last() =~= s@.take(i as int));
        assert(out@ =~= before + weights_bytes(v, format));
        i += 1;
    }
    assert(s@.take(n as int) =~= s@);
}


impl GeometrySection {
    /// The length, written format and type code of the attribute in slot
    /// `j`.
    fn slot_info(&self, j: usize) -> (r: (usize, u32, u32))
        requires
            j < 21,
        ensures
            r.0 == slot_len(self@, j as int),
            r.1 == slot_format(self@, j as int),
            r.2 == slot_code(j as int),
    {
        let codes: [u32; 21] = [1, 7, 8, 9, 10, 11, 12, 13, 14, 5, 15, 17, 16, 18, 2, 20, 21, 3, 6, 4, 19];
        assert(codes@ =~= seq![1u32, 7, 8, 9, 10, 11, 12, 13, 14, 5, 15, 17, 16, 18, 2, 20, 21, 3, 6, 4, 19]);
        let c = codes[j];
        let format: u32 = if c == 1 || c == 2 || c == 3 || c == 4 || c == 20 || c == 21 {
            3
        } else if 7 <= c && c <= 14 {
            2
        } else if c == 5 || c == 6 {
            5
        } else if c == 15 || c == 17 {
            self.weightcount_0
        } else if c == 16 || c == 18 {
            self.weightcount_1
        } else {
            1
        };
        let len = if c == 1 {
            self.position.len()
        } else if c == 7 {
            self.tex_coord_0.len()
        } else if c == 8 {
            self.tex_coord_1.len()
        } else if c == 9 {
            self.tex_coord_2.len()
        } else if c == 10 {
            self.tex_coord_3.len()
        } else if c == 11 {
            self.tex_coord_4.len()
        } else if c == 12 {
            self.tex_coord_5.len()
        } else if c == 13 {
            self.tex_coord_6.len()
        } else if c == 14 {
            self.tex_coord_7.len()
        } else if c == 5 {
            self.color_0.len()
        } else if c == 15 {
            self.blend_indices_0.len()
        } else if c == 17 {
            self.blend_weight_0.len()
        } else if c == 16 {
            self.blend_indices_1.len()
        } else if c == 18 {
            self.blend_weight_1.len()
        } else if c == 2 {
            self.normal.len()
        } else if c == 20 {
            self.binormal.len()
        } else if c == 21 {
            self.tangent.len()
        } else if c == 3 {
            self.position_1.len()
        } else if c == 6 {
            self.color_1.len()
        } else if c == 4 {
            self.normal_1.len()
        } else {
            self.point_size.len()
        };
        (len, format, c)
    }

    /// Writes the values of the attribute in slot `j`.
    fn write_slot(&self, out: &mut Vec<u8>, j: usize)
        requires
            j < 21,
        ensures
            final(out)@ == old(out)@ + slot_bytes(self@, j as int),
    {
        let (_, _, c) = self.slot_info(j);
        if c == 1 {
            write_vec3s(out, &self.position)
        } else if c == 7 {
            write_vec2s(out, &self.tex_coord_0)
        } else if c == 8 {
            write_vec2s(out, &self.tex_coord_1)
        } else if c == 9 {
            write_vec2s(out, &self.tex_coord_2)
        } else if c == 10 {
            write_vec2s(out, &self.tex_coord_3)
        } else if c == 11 {
            write_vec2s(out, &self.tex_coord_4)
        } else if c == 12 {
            write_vec2s(out, &self.tex_coord_5)
        } else if c == 13 {
            write_vec2s(out, &self.tex_coord_6)
        } else if c == 14 {
            write_vec2s(out, &self.tex_coord_7)
        } else if c == 5 {
            write_colours(out, &self.color_0)
        } else if c == 15 {
            write_indices(out, &self.blend_indices_0, self.weightcount_0)
        } else if c == 17 {
            write_weights(out, &self.blend_weight_0, self.weightcount_0)
        } else if c == 16 {
            write_indices(out, &self.blend_indices_1, self.weightcount_1)
        } else if c == 18 {
            write_weights(out, &self.blend_weight_1, self.weightcount_1)
        } else if c == 2 {
            write_vec3s(out, &self.normal)
        } else if c == 20 {
            write_vec3s(out, &self.binormal)
        } else if c == 21 {
            write_vec3s(out, &self.tangent)
        } else if c == 3 {
            write_vec3s(out, &self.position_1)
        } else if c == 6 {
            write_colours(out, &self.color_1)
        } else if c == 4 {
            write_vec3s(out, &self.normal_1)
        } else {
            write_u32s(out, &self.point_size)
        }
    }

    /// Writes the section to the end of `stream`: the vertex count (that of
    /// the positions), a descriptor for each attribute that is not empty,
    /// their values, and the name. Blend indices and weights are written
    /// with as many components as their weight count says.
    pub fn write_to_stream(stream: &mut Vec<u8>, item: &GeometrySection) -> (r: Result<(), ReadError>)
        requires
            item.position@.len() <= u32::MAX,
            item.blend_indices_0@.len() > 0 || item.blend_weight_0@.len() > 0 ==> 2 <= item.weightcount_0 <= 4,
            item.blend_indices_1@.len() > 0 || item.blend_weight_1@.len() > 0 ==> 2 <= item.weightcount_1 <= 4,
        ensures
            r is Ok,
            final(stream)@ == old(stream)@ + geometry_bytes(item@),
    {
        let ghost g = item@;
        let vcount = item.position.len() as u32;
        let mut headers: Vec<(u32, u32)> = Vec::new();
        let mut j: usize = 0;
        while j < 21
            invariant
                j <= 21,
                g == item@,
                headers@ == headers_upto(g, j as nat),
                headers@.len() <= j,
            decreases 21 - j,
        {
            let (len, format, code) = item.slot_info(j);
            if len > 0 {
                headers.push((format, code));
            }
            j += 1;
        }
        push_u32_le(stream, vcount);
        push_u32_le(stream, headers.len() as u32);
        let ghost start = stream@;
        let nh = headers.len();
        let mut k: usize = 0;
        assert(headers@.take(0) =~= Seq::<(u32, u32)>::empty());
        while k < nh
            invariant
                nh == headers@.len(),
                k <= nh,
                stream@ == start + headers_bytes(headers@.take(k as int)),
            decreases nh - k,
        {
            let (format, code) = headers[k];
            push_u32_le(stream, format);
            push_u32_le(stream, code);
            assert(headers@.take(k + 1).drop_last() =~= headers@.take(k as int));
            k += 1;
        }
        assert(headers@.take(nh as int) =~= headers@);
        let ghost mid = stream@;
        let mut j: usize = 0;
        while j < 21
            invariant
                j <= 21,
                g == item@,
                stream@ == mid + data_upto(g, j as nat),
            decreases 21 - j,
        {
            let (len, _, _) = item.slot_info(j);
            if len > 0 {
                item.write_slot(stream, j);
            }
            assert(stream@ =~= mid + data_upto(g, (j + 1) as nat));
            j += 1;
        }
        let name = item.name;
        push_u32_le(stream, (name & 0xFFFF_FFFF) as u32);
        push_u32_le(stream, (name >> 32u64) as u32);
        proof {
            assert((name & 0xFFFF_FFFF) as u32 == name as u32) by (bit_vector);
        }
        assert(stream@ =~= old(stream)@ + geometry_bytes(g));
        Ok(())
    }
}


/// The two bytes of `v` read back as `v`.
proof fn lemma_le_u16_of_bytes(b: Seq<u8>, q: int, v: u16)
    requires
        0 <= q,
        q + 2 <= b.len(),
        b.subrange(q, q + 2) == u16_le_bytes(v),
    ensures
        le_u16(b, q) == v,
{
    let b0 = b[q];
    let b1 = b[q + 1];
    assert(b0 == b.subrange(q, q + 2)[0] && b1 == b.subrange(q, q + 2)[1]);
    assert(v == (b0 as int + b1 as int * 0x100) as u16) by (bit_vector)
        requires
            b0 == (v & 0xff) as u8,
            b1 == ((v >> 8u16) & 0xff) as u8,
    ;
}

/// Four bytes of `v` at `q` of `b`, given as a piece of a larger piece.
proof fn lemma_u32_within(b: Seq<u8>, q: int, len: int, off: int, v: u32)
    requires
        0 <= q,
        0 <= off,
        off + 4 <= len,
        q + len <= b.len(),
        b.subrange(q, q + len).subrange(off, off + 4) == u32_le_bytes(v),
    ensures
        le_u32(b, q + off) == v,
{
    assert(b.subrange(q + off, q + off + 4) =~= b.subrange(q, q + len).subrange(off, off + 4));
    crate::read_helpers::lemma_le_u32_at(b, q + off, v);
}

/// Two bytes of `v` at `q` of `b`, given as a piece of a larger piece.
proof fn lemma_u16_within(b: Seq<u8>, q: int, len: int, off: int, v: u16)
    requires
        0 <= q,
        0 <= off,
        off + 2 <= len,
        q + len <= b.len(),
        b.subrange(q, q + len).subrange(off, off + 2) == u16_le_bytes(v),
    ensures
        le_u16(b, q + off) == v,
{
    assert(b.subrange(q + off, q + off + 2) =~= b.subrange(q, q + len).subrange(off, off + 2));
    lemma_le_u16_of_bytes(b, q + off, v);
}

proof fn lemma_vec3_at(b: Seq<u8>, q: int, v: Vec3<u32>)
    requires
        0 <= q,
        q + 12 <= b.len(),
        b.subrange(q, q + 12) == vec3_bytes(v),
    ensures
        vec3_at(b, q) == v,
{
    let r = vec3_bytes(v);
    assert(r.subrange(0, 4) =~= u32_le_bytes(v.x));
    assert(r.subrange(4, 8) =~= u32_le_bytes(v.y));
    assert(r.subrange(8, 12) =~= u32_le_bytes(v.z));
    lemma_u32_within(b, q, 12, 0, v.x);
    lemma_u32_within(b, q, 12, 4, v.y);
    lemma_u32_within(b, q, 12, 8, v.z);
}

proof fn lemma_vec2_at(b: Seq<u8>, q: int, v: Vec2<u32>)
    requires
        0 <= q,
        q + 8 <= b.len(),
        b.subrange(q, q + 8) == vec2_bytes(v),
    ensures
        vec2_at(b, q) == v,
{
    let r = vec2_bytes(v);
    assert(r.subrange(0, 4) =~= u32_le_bytes(v.x));
    assert(r.subrange(4, 8) =~= u32_le_bytes(v.y));
    lemma_u32_within(b, q, 8, 0, v.x);
    lemma_u32_within(b, q, 8, 4, v.y);
}

proof fn lemma_u32_at(b: Seq<u8>, q: int, v: u32)
    requires
        0 <= q,
        q + 4 <= b.len(),
        b.subrange(q, q + 4) == u32_le_bytes(v),
    ensures
        le_u32(b, q) == v,
{
    crate::read_helpers::lemma_le_u32_at(b, q, v);
}

proof fn lemma_colour_at(b: Seq<u8>, q: int, v: Rgba)
    requires
        0 <= q,
        q + 4 <= b.len(),
        b.subrange(q, q + 4) == colour_bytes(v),
    ensures
        bgra_at(b, q) == v,
{
    assert(b[q] == b.subrange(q, q + 4)[0]);
    assert(b[q + 1] == b.subrange(q, q + 4)[1]);
    assert(b[q + 2] == b.subrange(q, q + 4)[2]);
    assert(b[q + 3] == b.subrange(q, q + 4)[3]);
}

/// Blend indices kept to `format` components read back as themselves
/// where the components left out are zero.
proof fn lemma_indices_at(b: Seq<u8>, q: int, v: Vec4<u16>, format: u32)
    requires
        2 <= format <= 4,
        0 <= q,
        q + attribute_width(15, format) <= b.len(),
        b.subrange(q, q + attribute_width(15, format)) == indices_bytes(v, format),
        format == 2 ==> v.z == 0 && v.w == 0,
        format == 3 ==> v.w == 0,
    ensures
        indices_at(b, q, format) == v,
{
    let w = attribute_width(15, format);
    let r = indices_bytes(v, format);
    assert(r.subrange(0, 2) =~= u16_le_bytes(v.x));
    assert(r.subrange(2, 4) =~= u16_le_bytes(v.y));
    lemma_u16_within(b, q, w, 0, v.x);
    lemma_u16_within(b, q, w, 2, v.y);
    if format >= 3 {
        assert(r.subrange(4, 6) =~= u16_le_bytes(v.z));
        lemma_u16_within(b, q, w, 4, v.z);
    }
    if format == 4 {
        assert(r.subrange(6, 8) =~= u16_le_bytes(v.w));
        lemma_u16_within(b, q, w, 6, v.w);
    }
}

/// Blend weights kept to `format` components read back as themselves where
/// the components left out are zero.
proof fn lemma_weights_at(b: Seq<u8>, q: int, v: Vec4<u32>, format: u32)
    requires
        2 <= format <= 4,
        0 <= q,
        q + attribute_width(17, format) <= b.len(),
        b.subrange(q, q + attribute_width(17, format)) == weights_bytes(v, format),
        format == 2 ==> v.z == 0 && v.w == 0,
        format == 3 ==> v.w == 0,
    ensures
        weights_at(b, q, format) == v,
{
    let w = attribute_width(17, format);
    let r = weights_bytes(v, format);
    assert(r.subrange(0, 4) =~= u32_le_bytes(v.x));
    assert(r.subrange(4, 8) =~= u32_le_bytes(v.y));
    lemma_u32_within(b, q, w, 0, v.x);
    lemma_u32_within(b, q, w, 4, v.y);
    if format >= 3 {
        assert(r.subrange(8, 12) =~= u32_le_bytes(v.z));
        lemma_u32_within(b, q, w, 8, v.z);
    }
    if format == 4 {
        assert(r.subrange(12, 16) =~= u32_le_bytes(v.w));
        lemma_u32_within(b, q, w, 12, v.w);
    }
}

/// A run of values written from `p` reads back as the run.
proof fn lemma_vec3_run(b: Seq<u8>, p: int, s: Seq<Vec3<u32>>)
    requires
        0 <= p,
        p + vec3s_bytes(s).len() <= b.len(),
        b.subrange(p, p + vec3s_bytes(s).len()) == vec3s_bytes(s),
    ensures
        vec3s_bytes(s).len() == 12 * s.len(),
        Seq::new(s.len(), |i: int| vec3_at(b, p + 12 * i)) == s,
    decreases s.len(),
{
    if s.len() > 0 {
        let t = s.drop_last();
        let rt = vec3s_bytes(t);
        let whole = vec3s_bytes(s);
        assert(whole == rt + vec3_bytes(s.last()));
        assert(b.subrange(p, p + rt.len()) =~= whole.subrange(0, rt.len() as int));
        assert(whole.subrange(0, rt.len() as int) =~= rt);
        lemma_vec3_run(b, p, t);
        let q = p + 12 * t.len();
        assert(b.subrange(q, q + 12) =~= whole.subrange(rt.len() as int, whole.len() as int));
        assert(whole.subrange(rt.len() as int, whole.len() as int) =~= vec3_bytes(s.last()));
        lemma_vec3_at(b, q, s.last());
        let decoded = Seq::new(s.len(), |i: int| vec3_at(b, p + 12 * i));
        let decoded_t = Seq::new(t.len(), |i: int| vec3_at(b, p + 12 * i));
        assert(decoded_t =~= t);
        assert forall|i: int| 0 <= i < s.len() implies decoded[i] == s[i] by {
            if i < t.len() {
                assert(decoded_t[i] == t[i]);
            }
        }
        assert(decoded =~= s);
    } else {
        assert(Seq::new(s.len(), |i: int| vec3_at(b, p + 12 * i)) =~= s);
    }
}

/// A run of values written from `p` reads back as the run.
proof fn lemma_vec2_run(b: Seq<u8>, p: int, s: Seq<Vec2<u32>>)
    requires
        0 <= p,
        p + vec2s_bytes(s).len() <= b.len(),
        b.subrange(p, p + vec2s_bytes(s).len()) == vec2s_bytes(s),
    ensures
        vec2s_bytes(s).len() == 8 * s.len(),
        Seq::new(s.len(), |i: int| vec2_at(b, p + 8 * i)) == s,
    decreases s.len(),
{
    if s.len() > 0 {
        let t = s.drop_last();
        let rt = vec2s_bytes(t);
        let whole = vec2s_bytes(s);
        assert(whole == rt + vec2_bytes(s.last()));
        assert(b.subrange(p, p + rt.len()) =~= whole.subrange(0, rt.len() as int));
        assert(whole.subrange(0, rt.len() as int) =~= rt);
        lemma_vec2_run(b, p, t);
        let q = p + 8 * t.len();
        assert(b.subrange(q, q + 8) =~= whole.subrange(rt.len() as int, whole.len() as int));
        assert(whole.subrange(rt.len() as int, whole.len() as int) =~= vec2_bytes(s.last()));
        lemma_vec2_at(b, q, s.last());
        let decoded = Seq::new(s.len(), |i: int| vec2_at(b, p + 8 * i));
        let decoded_t = Seq::new(t.len(), |i: int| vec2_at(b, p + 8 * i));
        assert(decoded_t =~= t);
        assert forall|i: int| 0 <= i < s.len() implies decoded[i] == s[i] by {
            if i < t.len() {
                assert(decoded_t[i] == t[i]);
            }
        }
        assert(decoded =~= s);
    } else {
        assert(Seq::new(s.len(), |i: int| vec2_at(b, p + 8 * i)) =~= s);
    }
}

/// A run of values written from `p` reads back as the run.
proof fn lemma_colour_run(b: Seq<u8>, p: int, s: Seq<Rgba>)
    requires
        0 <= p,
        p + colours_bytes(s).len() <= b.len(),
        b.subrange(p, p + colours_bytes(s).len()) == colours_bytes(s),
    ensures
        colours_bytes(s).len() == 4 * s.len(),
        Seq::new(s.len(), |i: int| bgra_at(b, p + 4 * i)) == s,
    decreases s.len(),
{
    if s.len() > 0 {
        let t = s.drop_last();
        let rt = colours_bytes(t);
        let whole = colours_bytes(s);
        assert(whole == rt + colour_bytes(s.last()));
        assert(b.subrange(p, p + rt.len()) =~= whole.subrange(0, rt.len() as int));
        assert(whole.subrange(0, rt.len() as int) =~= rt);
        lemma_colour_run(b, p, t);
        let q = p + 4 * t.len();
        assert(b.subrange(q, q + 4) =~= whole.subrange(rt.len() as int, whole.len() as int));
        assert(whole.subrange(rt.len() as int, whole.len() as int) =~= colour_bytes(s.last()));
        lemma_colour_at(b, q, s.last());
        let decoded = Seq::new(s.len(), |i: int| bgra_at(b, p + 4 * i));
        let decoded_t = Seq::new(t.len(), |i: int| bgra_at(b, p + 4 * i));
        assert(decoded_t =~= t);
        assert forall|i: int| 0 <= i < s.len() implies decoded[i] == s[i] by {
            if i < t.len() {
                assert(decoded_t[i] == t[i]);
            }
        }
        assert(decoded =~= s);
    } else {
        assert(Seq::new(s.len(), |i: int| bgra_at(b, p + 4 * i)) =~= s);
    }
}

/// A run of values written from `p` reads back as the run.
proof fn lemma_u32_run(b: Seq<u8>, p: int, s: Seq<u32>)
    requires
        0 <= p,
        p + u32s_bytes(s).len() <= b.len(),
        b.subrange(p, p + u32s_bytes(s).len()) == u32s_bytes(s),
    ensures
        u32s_bytes(s).len() == 4 * s.len(),
        Seq::new(s.len(), |i: int| le_u32(b, p + 4 * i)) == s,
    decreases s.len(),
{
    if s.len() > 0 {
        let t = s.drop_last();
        let rt = u32s_bytes(t);
        let whole = u32s_bytes(s);
        assert(whole == rt + u32_le_bytes(s.last()));
        assert(b.subrange(p, p + rt.len()) =~= whole.subrange(0, rt.len() as int));
        assert(whole.subrange(0, rt.len() as int) =~= rt);
        lemma_u32_run(b, p, t);
        let q = p + 4 * t.len();
        assert(b.subrange(q, q + 4) =~= whole.subrange(rt.len() as int, whole.len() as int));
        assert(whole.subrange(rt.len() as int, whole.len() as int) =~= u32_le_bytes(s.last()));
        lemma_u32_at(b, q, s.last());
        let decoded = Seq::new(s.len(), |i: int| le_u32(b, p + 4 * i));
        let decoded_t = Seq::new(t.len(), |i: int| le_u32(b, p + 4 * i));
        assert(decoded_t =~= t);
        assert forall|i: int| 0 <= i < s.len() implies decoded[i] == s[i] by {
            if i < t.len() {
                assert(decoded_t[i] == t[i]);
            }
        }
        assert(decoded =~= s);
    } else {
        assert(Seq::new(s.len(), |i: int| le_u32(b, p + 4 * i)) =~= s);
    }
}


/// A run of blend values written from `p` reads back as the run, where the
/// components that `format` leaves out are zero.
proof fn lemma_indices_run(b: Seq<u8>, p: int, s: Seq<Vec4<u16>>, format: u32)
    requires
        2 <= format <= 4,
        forall|i: int| 0 <= i < s.len() ==> (format == 2 ==> (#[trigger] s[i]).z == 0 && s[i].w == 0) && (
        format == 3 ==> s[i].w == 0),
        0 <= p,
        p + indices_run_bytes(s, format).len() <= b.len(),
        b.subrange(p, p + indices_run_bytes(s, format).len()) == indices_run_bytes(s, format),
    ensures
        indices_run_bytes(s, format).len() == attribute_width(15, format) * s.len(),
        Seq::new(s.len(), |i: int| indices_at(b, p + attribute_width(15, format) * i, format)) == s,
    decreases s.len(),
{
    let w = attribute_width(15, format);
    if s.len() > 0 {
        let t = s.drop_last();
        let rt = indices_run_bytes(t, format);
        let whole = indices_run_bytes(s, format);
        assert(whole == rt + indices_bytes(s.last(), format));
        assert(b.subrange(p, p + rt.len()) =~= whole.subrange(0, rt.len() as int));
        assert(whole.subrange(0, rt.len() as int) =~= rt);
        assert forall|i: int| 0 <= i < t.len() implies (format == 2 ==> (#[trigger] t[i]).z == 0 && t[i].w == 0) && (
        format == 3 ==> t[i].w == 0) by {
            assert(t[i] == s[i]);
        }
        lemma_indices_run(b, p, t, format);
        let q = p + w * t.len();
        assert(indices_bytes(s.last(), format).len() == w);
        assert(b.subrange(q, q + w) =~= whole.subrange(rt.len() as int, whole.len() as int));
        assert(whole.subrange(rt.len() as int, whole.len() as int) =~= indices_bytes(s.last(), format));
        assert(s.last() == s[s.len() - 1]);
        lemma_indices_at(b, q, s.last(), format);
        let decoded = Seq::new(s.len(), |i: int| indices_at(b, p + attribute_width(15, format) * i, format));
        let decoded_t = Seq::new(t.len(), |i: int| indices_at(b, p + attribute_width(15, format) * i, format));
        assert(decoded_t =~= t);
        assert forall|i: int| 0 <= i < s.len() implies decoded[i] == s[i] by {
            if i < t.len() {
                assert(decoded_t[i] == t[i]);
            }
        }
        assert(decoded =~= s);
    } else {
        assert(Seq::new(s.len(), |i: int| indices_at(b, p + attribute_width(15, format) * i, format)) =~= s);
    }
}

/// A run of blend values written from `p` reads back as the run, where the
/// components that `format` leaves out are zero.
proof fn lemma_weights_run(b: Seq<u8>, p: int, s: Seq<Vec4<u32>>, format: u32)
    requires
        2 <= format <= 4,
        forall|i: int| 0 <= i < s.len() ==> (format == 2 ==> (#[trigger] s[i]).z == 0 && s[i].w == 0) && (
        format == 3 ==> s[i].w == 0),
        0 <= p,
        p + weights_run_bytes(s, format).len() <= b.len(),
        b.subrange(p, p + weights_run_bytes(s, format).len()) == weights_run_bytes(s, format),
    ensures
        weights_run_bytes(s, format).len() == attribute_width(17, format) * s.len(),
        Seq::new(s.len(), |i: int| weights_at(b, p + attribute_width(17, format) * i, format)) == s,
    decreases s.len(),
{
    let w = attribute_width(17, format);
    if s.len() > 0 {
        let t = s.drop_last();
        let rt = weights_run_bytes(t, format);
        let whole = weights_run_bytes(s, format);
        assert(whole == rt + weights_bytes(s.last(), format));
        assert(b.subrange(p, p + rt.len()) =~= whole.subrange(0, rt.len() as int));
        assert(whole.subrange(0, rt.len() as int) =~= rt);
        assert forall|i: int| 0 <= i < t.len() implies (format == 2 ==> (#[trigger] t[i]).z == 0 && t[i].w == 0) && (
        format == 3 ==> t[i].w == 0) by {
            assert(t[i] == s[i]);
        }
        lemma_weights_run(b, p, t, format);
        let q = p + w * t.len();
        assert(weights_bytes(s.last(), format).len() == w);
        assert(b.subrange(q, q + w) =~= whole.subrange(rt.len() as int, whole.len() as int));
        assert(whole.subrange(rt.len() as int, whole.len() as int) =~= weights_bytes(s.last(), format));
        assert(s.last() == s[s.len() - 1]);
        lemma_weights_at(b, q, s.last(), format);
        let decoded = Seq::new(s.len(), |i: int| weights_at(b, p + attribute_width(17, format) * i, format));
        let decoded_t = Seq::new(t.len(), |i: int| weights_at(b, p + attribute_width(17, format) * i, format));
        assert(decoded_t =~= t);
        assert forall|i: int| 0 <= i < s.len() implies decoded[i] == s[i] by {
            if i < t.len() {
                assert(decoded_t[i] == t[i]);
            }
        }
        assert(decoded =~= s);
    } else {
        assert(Seq::new(s.len(), |i: int| weights_at(b, p + attribute_width(17, format) * i, format)) =~= s);
    }
}

/// Descriptors written from `p` read back as themselves.
proof fn lemma_headers_run(b: Seq<u8>, p: int, h: Seq<(u32, u32)>)
    requires
        0 <= p,
        p + headers_bytes(h).len() <= b.len(),
        b.subrange(p, p + headers_bytes(h).len()) == headers_bytes(h),
    ensures
        headers_bytes(h).len() == 8 * h.len(),
        forall|k: int| 0 <= k < h.len() ==> le_u32(b, p + 8 * k) == (#[trigger] h[k]).0 && le_u32(b, p + 8 * k + 4) == h[k].1,
    decreases h.len(),
{
    if h.len() > 0 {
        let t = h.drop_last();
        let rt = headers_bytes(t);
        let whole = headers_bytes(h);
        let last = h.last();
        assert(whole == rt + u32_le_bytes(last.0) + u32_le_bytes(last.1));
        assert(b.subrange(p, p + rt.len()) =~= whole.subrange(0, rt.len() as int));
        assert(whole.subrange(0, rt.len() as int) =~= rt);
        lemma_headers_run(b, p, t);
        let q = p + 8 * t.len();
        assert(b.subrange(q, q + 8) =~= whole.subrange(rt.len() as int, whole.len() as int));
        let r = whole.subrange(rt.len() as int, whole.len() as int);
        assert(r.subrange(0, 4) =~= u32_le_bytes(last.0));
        assert(r.subrange(4, 8) =~= u32_le_bytes(last.1));
        assert(b.subrange(q, q + 8) == r);
        lemma_u32_within(b, q, 8, 0, last.0);
        lemma_u32_within(b, q, 8, 4, last.1);
        assert forall|k: int| 0 <= k < h.len() implies le_u32(b, p + 8 * k) == (#[trigger] h[k]).0 && le_u32(
            b,
            p + 8 * k + 4,
        ) == h[k].1 by {
            if k < t.len() {
                assert(t[k] == h[k]);
            }
        }
    }
}


/// Whether blend values hold zero in the components that `format` leaves
/// out.
pub open spec fn indices_padded(s: Seq<Vec4<u16>>, format: u32) -> bool {
    forall|i: int| 0 <= i < s.len() ==> (format == 2 ==> (#[trigger] s[i]).z == 0 && s[i].w == 0) && (format == 3
        ==> s[i].w == 0)
}

/// Whether blend weights hold zero in the components that `format` leaves
/// out.
pub open spec fn weights_padded(s: Seq<Vec4<u32>>, format: u32) -> bool {
    forall|i: int| 0 <= i < s.len() ==> (format == 2 ==> (#[trigger] s[i]).z == 0 && s[i].w == 0) && (format == 3
        ==> s[i].w == 0)
}

/// Whether a section can be written and read back as itself: the vertex
/// count fits, the weight counts of blend values that are present are two,
/// three or four, every attribute that is not empty has one value per
/// position, and the blend components that the weight counts leave out are
/// zero.
pub open spec fn round_trips(g: GeometryView) -> bool {
    &&& g.position.len() <= u32::MAX
    &&& g.blend_indices_0.len() > 0 || g.blend_weight_0.len() > 0 ==> 2 <= g.weightcount_0 <= 4
    &&& g.blend_indices_1.len() > 0 || g.blend_weight_1.len() > 0 ==> 2 <= g.weightcount_1 <= 4
    &&& forall|j: int| 0 <= j < 21 && #[trigger] slot_len(g, j) > 0 ==> slot_len(g, j) == g.position.len()
    &&& indices_padded(g.blend_indices_0, g.weightcount_0)
    &&& weights_padded(g.blend_weight_0, g.weightcount_0)
    &&& indices_padded(g.blend_indices_1, g.weightcount_1)
    &&& weights_padded(g.blend_weight_1, g.weightcount_1)
}

/// What reading a written section gives: the section without its name
/// (which is written after the attributes and not read), and with a weight
/// count only where there are blend weights.
pub open spec fn read_back(g: GeometryView) -> GeometryView {
    GeometryView {
        name: 0,
        weightcount_0: if g.blend_weight_0.len() > 0 {
            g.weightcount_0
        } else {
            0
        },
        weightcount_1: if g.blend_weight_1.len() > 0 {
            g.weightcount_1
        } else {
            0
        },
        ..g
    }
}

/// What reading back the first `j` slots of a written section gives: their
/// attributes, and the weight counts of blend weights among them.
pub open spec fn partial_read(g: GeometryView, j: int) -> GeometryView {
    GeometryView {
        name: 0,
        position: if j > 0 {
            g.position
        } else {
            Seq::empty()
        },
        tex_coord_0: if j > 1 {
            g.tex_coord_0
        } else {
            Seq::empty()
        },
        tex_coord_1: if j > 2 {
            g.tex_coord_1
        } else {
            Seq::empty()
        },
        tex_coord_2: if j > 3 {
            g.tex_coord_2
        } else {
            Seq::empty()
        },
        tex_coord_3: if j > 4 {
            g.tex_coord_3
        } else {
            Seq::empty()
        },
        tex_coord_4: if j > 5 {
            g.tex_coord_4
        } else {
            Seq::empty()
        },
        tex_coord_5: if j > 6 {
            g.tex_coord_5
        } else {
            Seq::empty()
        },
        tex_coord_6: if j > 7 {
            g.tex_coord_6
        } else {
            Seq::empty()
        },
        tex_coord_7: if j > 8 {
            g.tex_coord_7
        } else {
            Seq::empty()
        },
        color_0: if j > 9 {
            g.color_0
        } else {
            Seq::empty()
        },
        blend_indices_0: if j > 10 {
            g.blend_indices_0
        } else {
            Seq::empty()
        },
        blend_weight_0: if j > 11 {
            g.blend_weight_0
        } else {
            Seq::empty()
        },
        blend_indices_1: if j > 12 {
            g.blend_indices_1
        } else {
            Seq::empty()
        },
        blend_weight_1: if j > 13 {
            g.blend_weight_1
        } else {
            Seq::empty()
        },
        normal: if j > 14 {
            g.normal
        } else {
            Seq::empty()
        },
        binormal: if j > 15 {
            g.binormal
        } else {
            Seq::empty()
        },
        tangent: if j > 16 {
            g.tangent
        } else {
            Seq::empty()
        },
        position_1: if j > 17 {
            g.position_1
        } else {
            Seq::empty()
        },
        color_1: if j > 18 {
            g.color_1
        } else {
            Seq::empty()
        },
        normal_1: if j > 19 {
            g.normal_1
        } else {
            Seq::empty()
        },
        point_size: if j > 20 {
            g.point_size
        } else {
            Seq::empty()
        },
        weightcount_0: if j > 11 && g.blend_weight_0.len() > 0 {
            g.weightcount_0
        } else {
            0
        },
        weightcount_1: if j > 13 && g.blend_weight_1.len() > 0 {
            g.weightcount_1
        } else {
            0
        },
    }
}

/// Reading back the attribute of slot `j`, written from `p`, sets exactly
/// that attribute.
proof fn lemma_slot_step(g: GeometryView, b: Seq<u8>, p: int, j: int)
    requires
        round_trips(g),
        0 <= j < 21,
        slot_len(g, j) > 0,
        0 <= p,
        p + slot_bytes(g, j).len() <= b.len(),
        b.subrange(p, p + slot_bytes(g, j).len()) == slot_bytes(g, j),
    ensures
        slot_bytes(g, j).len() == g.position.len() * attribute_width(slot_code(j), slot_format(g, j)),
        apply_attribute(partial_read(g, j), b, slot_code(j), slot_format(g, j), p, g.position.len())
            == partial_read(g, j + 1),
{
    assert(slot_len(g, j) == g.position.len());
    if j == 0 {
        lemma_vec3_run(b, p, g.position);
    } else if j == 1 {
        lemma_vec2_run(b, p, g.tex_coord_0);
    } else if j == 2 {
        lemma_vec2_run(b, p, g.tex_coord_1);
    } else if j == 3 {
        lemma_vec2_run(b, p, g.tex_coord_2);
    } else if j == 4 {
        lemma_vec2_run(b, p, g.tex_coord_3);
    } else if j == 5 {
        lemma_vec2_run(b, p, g.tex_coord_4);
    } else if j == 6 {
        lemma_vec2_run(b, p, g.tex_coord_5);
    } else if j == 7 {
        lemma_vec2_run(b, p, g.tex_coord_6);
    } else if j == 8 {
        lemma_vec2_run(b, p, g.tex_coord_7);
    } else if j == 9 {
        lemma_colour_run(b, p, g.color_0);
    } else if j == 10 {
        lemma_indices_run(b, p, g.blend_indices_0, g.weightcount_0);
    } else if j == 11 {
        lemma_weights_run(b, p, g.blend_weight_0, g.weightcount_0);
    } else if j == 12 {
        lemma_indices_run(b, p, g.blend_indices_1, g.weightcount_1);
    } else if j == 13 {
        lemma_weights_run(b, p, g.blend_weight_1, g.weightcount_1);
    } else if j == 14 {
        lemma_vec3_run(b, p, g.normal);
    } else if j == 15 {
        lemma_vec3_run(b, p, g.binormal);
    } else if j == 16 {
        lemma_vec3_run(b, p, g.tangent);
    } else if j == 17 {
        lemma_vec3_run(b, p, g.position_1);
    } else if j == 18 {
        lemma_colour_run(b, p, g.color_1);
    } else if j == 19 {
        lemma_vec3_run(b, p, g.normal_1);
    } else if j == 20 {
        lemma_u32_run(b, p, g.point_size);
    }
    assert(apply_attribute(partial_read(g, j), b, slot_code(j), slot_format(g, j), p, g.position.len())
        =~= partial_read(g, j + 1));
}

/// Reading back past an empty slot changes nothing.
proof fn lemma_slot_skip(g: GeometryView, j: int)
    requires
        0 <= j < 21,
        slot_len(g, j) == 0,
    ensures
        partial_read(g, j) == partial_read(g, j + 1),
{
    assert(partial_read(g, j) =~= partial_read(g, j + 1));
}


proof fn lemma_slot_code_range(j: int)
    requires
        0 <= j < 21,
    ensures
        1 <= slot_code(j) <= 21,
{
    if j == 0 {
    } else if j == 1 {
    } else if j == 2 {
    } else if j == 3 {
    } else if j == 4 {
    } else if j == 5 {
    } else if j == 6 {
    } else if j == 7 {
    } else if j == 8 {
    } else if j == 9 {
    } else if j == 10 {
    } else if j == 11 {
    } else if j == 12 {
    } else if j == 13 {
    } else if j == 14 {
    } else if j == 15 {
    } else if j == 16 {
    } else if j == 17 {
    } else if j == 18 {
    } else if j == 19 {
    } else if j == 20 {
    }
}

/// The descriptors of the first `n` slots are at most `n`, with known type
/// codes.
proof fn lemma_headers_upto_shape(g: GeometryView, n: nat)
    requires
        n <= 21,
    ensures
        headers_upto(g, n).len() <= n,
        forall|k: int| 0 <= k < headers_upto(g, n).len() ==> 1 <= (#[trigger] headers_upto(g, n)[k]).1 <= 21,
    decreases n,
{
    if n > 0 {
        lemma_headers_upto_shape(g, (n - 1) as nat);
        lemma_slot_code_range(n - 1);
        let prev = headers_upto(g, (n - 1) as nat);
        assert forall|k: int| 0 <= k < headers_upto(g, n).len() implies 1 <= (#[trigger] headers_upto(g, n)[k]).1
            <= 21 by {
            if k < prev.len() {
                assert(headers_upto(g, n)[k] == prev[k]);
            }
        }
    }
}

/// The descriptors of the first `j` slots begin those of the first `m`.
proof fn lemma_headers_prefix(g: GeometryView, j: nat, m: nat)
    requires
        j <= m,
    ensures
        headers_upto(g, j).len() <= headers_upto(g, m).len(),
        headers_upto(g, m).take(headers_upto(g, j).len() as int) == headers_upto(g, j),
    decreases m - j,
{
    if m > j {
        lemma_headers_prefix(g, j, (m - 1) as nat);
        let a = headers_upto(g, (m - 1) as nat);
        let n = headers_upto(g, j).len() as int;
        assert(headers_upto(g, m).take(n) =~= a.take(n));
    } else {
        assert(headers_upto(g, m).take(headers_upto(g, j).len() as int) =~= headers_upto(g, j));
    }
}

/// The values of the first `j` slots begin those of the first `m`.
proof fn lemma_data_prefix(g: GeometryView, j: nat, m: nat)
    requires
        j <= m,
    ensures
        data_upto(g, j).len() <= data_upto(g, m).len(),
        data_upto(g, m).subrange(0, data_upto(g, j).len() as int) == data_upto(g, j),
    decreases m - j,
{
    if m > j {
        lemma_data_prefix(g, j, (m - 1) as nat);
        let a = data_upto(g, (m - 1) as nat);
        let n = data_upto(g, j).len() as int;
        assert(data_upto(g, m).subrange(0, n) =~= a.subrange(0, n));
    } else {
        assert(data_upto(g, m).subrange(0, data_upto(g, j).len() as int) =~= data_upto(g, j));
    }
}

/// Where the parts of a written section lie.
proof fn lemma_geometry_parts(g: GeometryView)
    ensures
        ({
            let b = geometry_bytes(g);
            let h = headers_upto(g, 21);
            let hb = headers_bytes(h);
            let d = data_upto(g, 21);
            &&& b.len() == 16 + hb.len() + d.len()
            &&& b.subrange(0, 4) == u32_le_bytes(g.position.len() as u32)
            &&& b.subrange(4, 8) == u32_le_bytes(h.len() as u32)
            &&& b.subrange(8, 8 + hb.len() as int) == hb
            &&& forall|x: int, l: int|
                0 <= x && 0 <= l && x + l <= d.len() ==> #[trigger] b.subrange(8 + hb.len() + x, 8 + hb.len() + x + l)
                    == d.subrange(x, x + l)
        }),
{
    let b = geometry_bytes(g);
    let h = headers_upto(g, 21);
    let hb = headers_bytes(h);
    let d = data_upto(g, 21);
    assert(b.subrange(0, 4) =~= u32_le_bytes(g.position.len() as u32));
    assert(b.subrange(4, 8) =~= u32_le_bytes(h.len() as u32));
    assert(b.subrange(8, 8 + hb.len() as int) =~= hb);
    assert forall|x: int, l: int|
        0 <= x && 0 <= l && x + l <= d.len() implies #[trigger] b.subrange(8 + hb.len() + x, 8 + hb.len() + x + l)
        == d.subrange(x, x + l) by {
        assert(b.subrange(8 + hb.len() + x, 8 + hb.len() + x + l) =~= d.subrange(x, x + l));
    }
}

/// Every descriptor of a written section reads.
proof fn lemma_descriptors_of_written(b: Seq<u8>, h: Seq<(u32, u32)>, n: nat)
    requires
        n <= h.len(),
        8 + 8 * h.len() <= b.len(),
        forall|k: int| 0 <= k < h.len() ==> desc_code(b, k) == (#[trigger] h[k]).1 && 1 <= h[k].1 <= 21,
    ensures
        descriptors_read(b, n) == Ok::<(), ReadError>(()),
    decreases n,
{
    if n > 0 {
        lemma_descriptors_of_written(b, h, (n - 1) as nat);
        assert(desc_code(b, n - 1) == h[n - 1].1);
    }
}


/// The descriptor written for a slot that is not empty.
proof fn lemma_slot_header(g: GeometryView, i: nat)
    requires
        i < 21,
        slot_len(g, i as int) > 0,
    ensures
        headers_upto(g, i).len() < headers_upto(g, 21).len(),
        headers_upto(g, 21)[headers_upto(g, i).len() as int] == (slot_format(g, i as int), slot_code(i as int)),
        headers_upto(g, i + 1).len() == headers_upto(g, i).len() + 1,
{
    let h = headers_upto(g, 21);
    let j = (i + 1) as nat;
    let k = headers_upto(g, i).len() as int;
    lemma_headers_prefix(g, j, 21);
    assert(headers_upto(g, j) == headers_upto(g, i).push((slot_format(g, i as int), slot_code(i as int))));
    assert(h.take(k + 1) == headers_upto(g, j));
    assert(h[k] == h.take(k + 1)[k]);
}

/// The values written for a slot lie where the values before them end.
proof fn lemma_slot_bytes_in_place(g: GeometryView, i: nat)
    requires
        i < 21,
        slot_len(g, i as int) > 0,
    ensures
        ({
            let b = geometry_bytes(g);
            let p: int = (8 + 8 * headers_upto(g, 21).len() + data_upto(g, i).len()) as int;
            let sb = slot_bytes(g, i as int);
            &&& p + sb.len() <= b.len()
            &&& b.subrange(p, p + sb.len()) == sb
            &&& data_upto(g, i + 1).len() == data_upto(g, i).len() + sb.len()
        }),
{
    let b = geometry_bytes(g);
    let h = headers_upto(g, 21);
    let j = (i + 1) as nat;
    let sb = slot_bytes(g, i as int);
    lemma_data_prefix(g, j, 21);
    let d = data_upto(g, 21);
    let di = data_upto(g, i);
    let dj = data_upto(g, j);
    let dl: int = di.len() as int;
    let sl: int = sb.len() as int;
    let hl: int = headers_bytes(h).len() as int;
    assert(dj == di + sb);
    lemma_geometry_parts(g);
    lemma_headers_run(b, 8, h);
    assert(b.subrange(8 + hl + dl, 8 + hl + dl + sl) == d.subrange(dl, dl + sl));
    assert(d.subrange(dl, dl + sl) =~= dj.subrange(dl, dl + sl)) by {
        assert forall|x: int| 0 <= x < sl implies #[trigger] d.subrange(dl, dl + sl)[x] == dj.subrange(dl, dl + sl)[x] by {
            assert(d.subrange(0, dj.len() as int)[dl + x] == d[dl + x]);
        }
    }
    assert(dj.subrange(dl, dl + sl) =~= sb);
}

/// Reading back one more slot that is not empty.
proof fn lemma_slot_read_step(g: GeometryView, i: nat)
    requires
        round_trips(g),
        i < 21,
        slot_len(g, i as int) > 0,
        forall|k: int|
            0 <= k < headers_upto(g, 21).len() ==> desc_format(geometry_bytes(g), k) == (#[trigger] headers_upto(
                g,
                21,
            )[k]).0 && desc_code(geometry_bytes(g), k) == headers_upto(g, 21)[k].1,
        attributes_read(
            geometry_bytes(g),
            headers_upto(g, 21).len(),
            g.position.len(),
            headers_upto(g, i).len(),
        ) == Ok::<GeometryView, ReadError>(partial_read(g, i as int)),
        attribute_start(geometry_bytes(g), headers_upto(g, 21).len(), g.position.len(), headers_upto(g, i).len())
            == 8 + 8 * headers_upto(g, 21).len() + data_upto(g, i).len(),
    ensures
        attributes_read(
            geometry_bytes(g),
            headers_upto(g, 21).len(),
            g.position.len(),
            headers_upto(g, i + 1).len(),
        ) == Ok::<GeometryView, ReadError>(partial_read(g, i + 1int)),
        attribute_start(geometry_bytes(g), headers_upto(g, 21).len(), g.position.len(), headers_upto(g, i + 1).len())
            == 8 + 8 * headers_upto(g, 21).len() + data_upto(g, i + 1).len(),
{
    let b = geometry_bytes(g);
    let h = headers_upto(g, 21);
    let nh = h.len();
    let vc = g.position.len();
    let k = headers_upto(g, i).len();
    lemma_slot_header(g, i);
    lemma_slot_bytes_in_place(g, i);
    let p: int = (8 + 8 * nh + data_upto(g, i).len()) as int;
    lemma_slot_step(g, b, p, i as int);
    assert(desc_format(b, k as int) == slot_format(g, i as int));
    assert(desc_code(b, k as int) == slot_code(i as int));
    assert((k + 1) as nat - 1 == k);
}

/// Reading back the first `j` slots of a written section gives what they
/// hold, and ends where their values end.
proof fn lemma_slots_read(g: GeometryView, j: nat)
    requires
        round_trips(g),
        j <= 21,
        forall|k: int|
            0 <= k < headers_upto(g, 21).len() ==> desc_format(geometry_bytes(g), k) == (#[trigger] headers_upto(
                g,
                21,
            )[k]).0 && desc_code(geometry_bytes(g), k) == headers_upto(g, 21)[k].1,
    ensures
        attributes_read(
            geometry_bytes(g),
            headers_upto(g, 21).len(),
            g.position.len(),
            headers_upto(g, j).len(),
        ) == Ok::<GeometryView, ReadError>(partial_read(g, j as int)),
        attribute_start(geometry_bytes(g), headers_upto(g, 21).len(), g.position.len(), headers_upto(g, j).len())
            == 8 + 8 * headers_upto(g, 21).len() + data_upto(g, j).len(),
    decreases j,
{
    if j == 0 {
        assert(partial_read(g, 0) =~= empty_geometry());
    } else {
        let i = (j - 1) as nat;
        lemma_slots_read(g, i);
        if slot_len(g, i as int) > 0 {
            lemma_slot_read_step(g, i);
        } else {
            lemma_slot_skip(g, i as int);
        }
    }
}

/// Writing a section and reading it back gives the section, without its
/// name and with weight counts only where there are blend weights, for every
/// section whose attributes all have one value per position and whose blend
/// values are zero in the components their weight count leaves out; the
/// name is what remains after the attributes.
pub proof fn lemma_geometry_round_trip(g: GeometryView)
    requires
        round_trips(g),
    ensures
        spec_geometry(geometry_bytes(g)) == Ok::<GeometryView, ReadError>(read_back(g)),
        attribute_start(
            geometry_bytes(g),
            le_u32(geometry_bytes(g), 4) as nat,
            le_u32(geometry_bytes(g), 0) as nat,
            le_u32(geometry_bytes(g), 4) as nat,
        ) == geometry_bytes(g).len() - 8,
{
    let b = geometry_bytes(g);
    let h = headers_upto(g, 21);
    let nh = h.len();
    lemma_headers_upto_shape(g, 21);
    lemma_geometry_parts(g);
    lemma_headers_run(b, 8, h);
    crate::read_helpers::lemma_le_u32_at(b, 0, g.position.len() as u32);
    crate::read_helpers::lemma_le_u32_at(b, 4, nh as u32);
    assert(le_u32(b, 4) == nh);
    assert(le_u32(b, 0) == g.position.len());
    assert forall|k: int| 0 <= k < nh implies desc_format(b, k) == (#[trigger] h[k]).0 && desc_code(b, k) == h[k].1
        && 1 <= h[k].1 <= 21 by {
        assert(8 + 8 * k + 4 == 12 + 8 * k);
    }
    lemma_descriptors_of_written(b, h, nh);
    lemma_slots_read(g, 21);
    assert(partial_read(g, 21) =~= read_back(g));
}

} // verus!
