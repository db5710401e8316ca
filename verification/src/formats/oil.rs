//! OIL, the intermediate representation written by the exporters of the
//! model tools: `FORM`, a total size, then typed chunks each with its length.
use vstd::prelude::*;
use crate::read_helpers::{le_u32, try_u32_le};

verus! {

/// A chunk not yet decoded.
pub struct UnparsedSection<'a> {
    pub type_code: u32,
    pub length: usize,
    pub offset: usize,
    pub bytes: &'a [u8],
}

/// Why an OIL file could not be read.
#[derive(Debug)]
pub enum ParseError {
    NoMagic,
    UnexpectedEof,
    BadUtf8,
    SectionTooShort,
    Mysterious,
}

/// The bytes `FORM`.
pub open spec fn form_magic() -> Seq<u8> {
    seq![70u8, 79u8, 82u8, 77u8]
}

/// The chunks from offset `curr` on while `curr - 8` is below the total
/// size: each a type code, a length, and that many bytes. Gives
/// `(type_code, length, offset)` for each, after those in `acc`.
pub open spec fn chunks_from(b: Seq<u8>, curr: int, total: int, acc: Seq<(u32, int, int)>) -> Result<
    Seq<(u32, int, int)>,
    ParseError,
>
    decreases b.len() + 8 - curr,
{
    if curr - 8 >= total {
        Ok(acc)
    } else if curr + 8 > b.len() {
        Err(ParseError::UnexpectedEof)
    } else if curr + 8 + le_u32(b, curr + 4) > b.len() {
        Err(ParseError::UnexpectedEof)
    } else {
        let len = le_u32(b, curr + 4) as int;
        chunks_from(b, curr + 8 + len, total, acc.push((le_u32(b, curr), len, curr + 8)))
    }
}

/// What `split_to_sections` gives for the file `b`.
pub open spec fn spec_split_to_sections(b: Seq<u8>) -> Result<Seq<(u32, int, int)>, ParseError> {
    if b.subrange(0, 4) != form_magic() {
        Err(ParseError::NoMagic)
    } else if b.len() < 8 {
        Err(ParseError::UnexpectedEof)
    } else {
        chunks_from(b, 8, le_u32(b, 4) as int, Seq::empty())
    }
}

/// Splits an OIL file into its chunks, without decoding them.
pub fn split_to_sections<'a>(src: &'a [u8]) -> (r: Result<Vec<UnparsedSection<'a>>, ParseError>)
    requires
        src@.len() >= 4,
    ensures
        match r {
            Ok(v) => spec_split_to_sections(src@) matches Ok(cs) && v@.len() == cs.len() && forall|i: int|
                0 <= i < cs.len() ==> {
                    &&& (#[trigger] v@[i]).type_code == cs[i].0
                    &&& v@[i].length == cs[i].1
                    &&& v@[i].offset == cs[i].2
                    &&& v@[i].bytes@ == src@.subrange(cs[i].2, cs[i].2 + cs[i].1)
                },
            Err(e) => spec_split_to_sections(src@) == Err::<Seq<(u32, int, int)>, ParseError>(e),
        },
{
    let n = src.len();
    let mut out: Vec<UnparsedSection<'a>> = Vec::new();
    if !(src[0] == 70u8 && src[1] == 79u8 && src[2] == 82u8 && src[3] == 77u8) {
        proof {
            if src@.subrange(0, 4) == form_magic() {
                assert(src@.subrange(0, 4)[0] == src@[0]);
                assert(src@.subrange(0, 4)[1] == src@[1]);
                assert(src@.subrange(0, 4)[2] == src@[2]);
                assert(src@.subrange(0, 4)[3] == src@[3]);
            }
        }
        return Err(ParseError::NoMagic);
    }
    assert(src@.subrange(0, 4) =~= form_magic());
    let total_size: usize = match try_u32_le(src, 4) {
        Some(v) => v as usize,
        None => return Err(ParseError::UnexpectedEof),
    };
    let ghost total = total_size as int;
    let mut curr_offset: usize = 8;
    let ghost mut acc: Seq<(u32, int, int)> = Seq::empty();
    while curr_offset - 8 < total_size
        invariant
            n == src@.len(),
            8 <= curr_offset <= n + 8,
            total == total_size,
            spec_split_to_sections(src@) == chunks_from(src@, curr_offset as int, total, acc),
            out@.len() == acc.len(),
            forall|i: int|
                0 <= i < acc.len() ==> {
                    &&& (#[trigger] out@[i]).type_code == acc[i].0
                    &&& out@[i].length == acc[i].1
                    &&& out@[i].offset == acc[i].2
                    &&& out@[i].bytes@ == src@.subrange(acc[i].2, acc[i].2 + acc[i].1)
                },
        decreases n + 8 - curr_offset,
    {
        let type_code = match try_u32_le(src, curr_offset) {
            Some(v) => v,
            None => return Err(ParseError::UnexpectedEof),
        };
        let length = match try_u32_le(src, curr_offset + 4) {
            Some(v) => v as usize,
            None => return Err(ParseError::UnexpectedEof),
        };
        let body_offset = curr_offset + 8;
        if length > n - body_offset {
            return Err(ParseError::UnexpectedEof);
        }
        out.push(
            UnparsedSection {
                type_code,
                length,
                offset: body_offset,
                bytes: &src[body_offset..(body_offset + length)],
            },
        );
        proof {
            acc = acc.push((type_code, length as int, body_offset as int));
        }
        curr_offset += length + 8;
    }
    Ok(out)
}

/// A material: its id, name and parent's id.
#[derive(Debug)]
pub struct Material {
    pub id: u32,
    pub name: String,
    pub parent_id: u32,
}

/// The materials XML carried along with a model.
#[derive(Debug)]
pub struct MaterialsXml {
    pub xml: String,
}

/// A face of a geometry: its material, an unknown word, and its loops.
#[derive(Debug)]
pub struct GeometryFace {
    pub material_id: u32,
    pub unknown1: u32,
    pub loops: Vec<GeometryFaceloop>,
}

/// A loop of a face: the channel it indexes and three indices into it.
#[derive(Debug)]
pub struct GeometryFaceloop {
    pub channel: u32,
    pub a: u32,
    pub b: u32,
    pub c: u32,
}

/// A discriminant that names no variant.
#[derive(Debug, PartialEq, Eq, Clone, Copy, Structural)]
pub struct InvalidDiscriminant {
    pub discriminant: u32,
}

/// The kind of a light: spot (0), directional (1) or omni (2).
#[derive(Debug, PartialEq, Eq, Clone, Copy, Structural)]
pub enum LightType {
    Spot,
    Directional,
    Omni,
}

/// The shape of a spotlight: rectangular (0) or circular (1).
#[derive(Debug, PartialEq, Eq, Clone, Copy, Structural)]
pub enum SpotlightShape {
    Rectangular,
    Circular,
}

/// The discriminant of a light type.
pub open spec fn light_type_code(t: LightType) -> u32 {
    match t {
        LightType::Spot => 0,
        LightType::Directional => 1,
        LightType::Omni => 2,
    }
}

/// The light type with a discriminant, if any.
pub open spec fn light_type_of(v: u32) -> Option<LightType> {
    if v == 0 {
        Some(LightType::Spot)
    } else if v == 1 {
        Some(LightType::Directional)
    } else if v == 2 {
        Some(LightType::Omni)
    } else {
        None
    }
}

/// The discriminant of a spotlight shape.
pub open spec fn spotlight_shape_code(t: SpotlightShape) -> u32 {
    match t {
        SpotlightShape::Rectangular => 0,
        SpotlightShape::Circular => 1,
    }
}

/// The spotlight shape with a discriminant, if any.
pub open spec fn spotlight_shape_of(v: u32) -> Option<SpotlightShape> {
    if v == 0 {
        Some(SpotlightShape::Rectangular)
    } else if v == 1 {
        Some(SpotlightShape::Circular)
    } else {
        None
    }
}

impl LightType {
    /// The light type with discriminant `src`.
    pub fn try_from_u32(src: u32) -> (r: Result<LightType, InvalidDiscriminant>)
        ensures
            match light_type_of(src) {
                Some(t) => r == Ok::<LightType, InvalidDiscriminant>(t),
                None => r == Err::<LightType, InvalidDiscriminant>(InvalidDiscriminant { discriminant: src }),
            },
    {
        match src {
            0 => Ok(LightType::Spot),
            1 => Ok(LightType::Directional),
            2 => Ok(LightType::Omni),
            e => Err(InvalidDiscriminant { discriminant: e }),
        }
    }

    /// The light type's discriminant.
    pub fn to_u32(self) -> (r: u32)
        ensures
            r == light_type_code(self),
    {
        match self {
            LightType::Spot => 0,
            LightType::Directional => 1,
            LightType::Omni => 2,
        }
    }
}

impl SpotlightShape {
    /// The spotlight shape with discriminant `src`.
    pub fn try_from_u32(src: u32) -> (r: Result<SpotlightShape, InvalidDiscriminant>)
        ensures
            match spotlight_shape_of(src) {
                Some(t) => r == Ok::<SpotlightShape, InvalidDiscriminant>(t),
                None => r == Err::<SpotlightShape, InvalidDiscriminant>(
                    InvalidDiscriminant { discriminant: src },
                ),
            },
    {
        match src {
            0 => Ok(SpotlightShape::Rectangular),
            1 => Ok(SpotlightShape::Circular),
            e => Err(InvalidDiscriminant { discriminant: e }),
        }
    }

    /// The spotlight shape's discriminant.
    pub fn to_u32(self) -> (r: u32)
        ensures
            r == spotlight_shape_code(self),
    {
        match self {
            SpotlightShape::Rectangular => 0,
            SpotlightShape::Circular => 1,
        }
    }
}

/// A discriminant read back gives the variant it was taken from, and a
/// variant is found only under its own discriminant.
pub proof fn lemma_discriminants_roundtrip(l: LightType, s: SpotlightShape, v: u32)
    ensures
        light_type_of(light_type_code(l)) == Some(l),
        spotlight_shape_of(spotlight_shape_code(s)) == Some(s),
        light_type_of(v) matches Some(t) ==> light_type_code(t) == v,
        spotlight_shape_of(v) matches Some(t) ==> spotlight_shape_code(t) == v,
{
}

} // verus!
