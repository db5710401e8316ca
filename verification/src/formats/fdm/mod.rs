//! Final Diesel Model: the model format of release versions of the game.
use vstd::prelude::*;
use crate::hashindex::Hash as Idstring;

pub mod container;
pub mod geometry;
pub mod meshoid;
pub mod sections;

verus! {

/// Why the sections of a model could not be laid out.
#[derive(Clone, Debug)]
pub enum ParseError {
    BadHeaders(usize),
    UnknownSectionType { id: u32, section_type: u32, data_offset: usize },
    BadSection { id: u32, location: usize },
    TruncatedSection { id: u32 },
    NotEnoughSections { got: u32, expected: u32 },
}

/// Metadata about the model file.
pub struct AuthorSection {
    pub name: Idstring,
    pub author_email: String,
    pub source_filename: String,
    pub unknown_2: u32,
}

/// A single draw's worth of geometry.
pub struct RenderAtom {
    pub base_vertex: u32,
    pub triangle_count: u32,
    pub base_index: u32,
    pub geometry_slice_length: u32,
    pub material: u32,
}

/// The kind of a light.
#[derive(Debug, Copy, Clone, PartialEq, Eq, Structural)]
pub enum LightType {
    Omnidirectional,
    Spot,
}

/// Indirection to vertex and index data.
pub struct PassthroughGPSection {
    pub geometry: u32,
    pub topology: u32,
}

/// Indirection to index data.
pub struct TopologyIPSection {
    pub topology: u32,
}

/// Index buffer.
pub struct TopologySection {
    pub unknown_1: u32,
    pub faces: Vec<u16>,
    pub unknown_2: Vec<u8>,
    pub name: Idstring,
}

/// Describes one vertex attribute of a geometry section.
pub struct GeometryHeader {
    pub attribute_format: u32,
    pub attribute_type: GeometryAttributeType,
}

/// The vertex attributes a geometry section can hold.
#[derive(Debug, Copy, Clone, PartialEq, Eq, Structural)]
pub enum GeometryAttributeType {
    Position,
    Normal,
    Position1,
    Normal1,
    Color0,
    Color1,
    TexCoord0,
    TexCoord1,
    TexCoord2,
    TexCoord3,
    TexCoord4,
    TexCoord5,
    TexCoord6,
    TexCoord7,
    BlendIndices0,
    BlendIndices1,
    BlendWeight0,
    BlendWeight1,
    PointSize,
    Binormal,
    Tangent,
}

/// The wire value of each attribute type, 1 to 21 in declaration order.
pub open spec fn attribute_type_code(t: GeometryAttributeType) -> u32 {
    match t {
        GeometryAttributeType::Position => 1,
        GeometryAttributeType::Normal => 2,
        GeometryAttributeType::Position1 => 3,
        GeometryAttributeType::Normal1 => 4,
        GeometryAttributeType::Color0 => 5,
        GeometryAttributeType::Color1 => 6,
        GeometryAttributeType::TexCoord0 => 7,
        GeometryAttributeType::TexCoord1 => 8,
        GeometryAttributeType::TexCoord2 => 9,
        GeometryAttributeType::TexCoord3 => 10,
        GeometryAttributeType::TexCoord4 => 11,
        GeometryAttributeType::TexCoord5 => 12,
        GeometryAttributeType::TexCoord6 => 13,
        GeometryAttributeType::TexCoord7 => 14,
        GeometryAttributeType::BlendIndices0 => 15,
        GeometryAttributeType::BlendIndices1 => 16,
        GeometryAttributeType::BlendWeight0 => 17,
        GeometryAttributeType::BlendWeight1 => 18,
        GeometryAttributeType::PointSize => 19,
        GeometryAttributeType::Binormal => 20,
        GeometryAttributeType::Tangent => 21,
    }
}

impl GeometryAttributeType {
    /// The attribute type with wire value `v`, if there is one.
    pub fn try_from_u32(v: u32) -> (r: Option<GeometryAttributeType>)
        ensures
            match r {
                Some(t) => attribute_type_code(t) == v,
                None => !(1 <= v <= 21),
            },
    {
        match v {
            1 => Some(GeometryAttributeType::Position),
            2 => Some(GeometryAttributeType::Normal),
            3 => Some(GeometryAttributeType::Position1),
            4 => Some(GeometryAttributeType::Normal1),
            5 => Some(GeometryAttributeType::Color0),
            6 => Some(GeometryAttributeType::Color1),
            7 => Some(GeometryAttributeType::TexCoord0),
            8 => Some(GeometryAttributeType::TexCoord1),
            9 => Some(GeometryAttributeType::TexCoord2),
            10 => Some(GeometryAttributeType::TexCoord3),
            11 => Some(GeometryAttributeType::TexCoord4),
            12 => Some(GeometryAttributeType::TexCoord5),
            13 => Some(GeometryAttributeType::TexCoord6),
            14 => Some(GeometryAttributeType::TexCoord7),
            15 => Some(GeometryAttributeType::BlendIndices0),
            16 => Some(GeometryAttributeType::BlendIndices1),
            17 => Some(GeometryAttributeType::BlendWeight0),
            18 => Some(GeometryAttributeType::BlendWeight1),
            19 => Some(GeometryAttributeType::PointSize),
            20 => Some(GeometryAttributeType::Binormal),
            21 => Some(GeometryAttributeType::Tangent),
            _ => None,
        }
    }
}

/// The number of components of an attribute: 3 for positions, normals,
/// colours, binormals and tangents, 2 for texture coordinates, 1 for point
/// size, 4 for blend indices, and the format's own count for blend weights.
pub open spec fn spec_component_count(h: GeometryHeader) -> u32 {
    match h.attribute_type {
        GeometryAttributeType::Position | GeometryAttributeType::Normal
        | GeometryAttributeType::Position1 | GeometryAttributeType::Normal1
        | GeometryAttributeType::Color0 | GeometryAttributeType::Color1
        | GeometryAttributeType::Binormal | GeometryAttributeType::Tangent => 3,
        GeometryAttributeType::TexCoord0 | GeometryAttributeType::TexCoord1
        | GeometryAttributeType::TexCoord2 | GeometryAttributeType::TexCoord3
        | GeometryAttributeType::TexCoord4 | GeometryAttributeType::TexCoord5
        | GeometryAttributeType::TexCoord6 | GeometryAttributeType::TexCoord7 => 2,
        GeometryAttributeType::PointSize => 1,
        GeometryAttributeType::BlendIndices0 | GeometryAttributeType::BlendIndices1 => 4,
        GeometryAttributeType::BlendWeight0 | GeometryAttributeType::BlendWeight1 => h.attribute_format,
    }
}

/// The byte size of a vertex attribute of each format: 0, 4, 8, 12, 16, 4,
/// 4, 8, 12 for formats 0 to 8.
pub open spec fn format_byte_count(f: u32) -> u32 {
    seq![0u32, 4, 8, 12, 16, 4, 4, 8, 12][f as int]
}

impl GeometryHeader {
    /// The number of components of the attribute.
    pub fn component_count(&self) -> (r: u32)
        ensures
            r == spec_component_count(*self),
    {
        match self.attribute_type {
            GeometryAttributeType::Position | GeometryAttributeType::Normal
            | GeometryAttributeType::Position1 | GeometryAttributeType::Normal1
            | GeometryAttributeType::Color0 | GeometryAttributeType::Color1
            | GeometryAttributeType::Binormal | GeometryAttributeType::Tangent => 3,
            GeometryAttributeType::TexCoord0 | GeometryAttributeType::TexCoord1
            | GeometryAttributeType::TexCoord2 | GeometryAttributeType::TexCoord3
            | GeometryAttributeType::TexCoord4 | GeometryAttributeType::TexCoord5
            | GeometryAttributeType::TexCoord6 | GeometryAttributeType::TexCoord7 => 2,
            GeometryAttributeType::PointSize => 1,
            GeometryAttributeType::BlendIndices0 | GeometryAttributeType::BlendIndices1 => 4,
            GeometryAttributeType::BlendWeight0 | GeometryAttributeType::BlendWeight1 => self.attribute_format,
        }
    }

    /// The size in bytes of one vertex's value of the attribute.
    pub fn byte_count(&self) -> (r: u32)
        requires
            self.attribute_format <= 8,
        ensures
            r == format_byte_count(self.attribute_format),
    {
        let counts: [u32; 9] = [0, 4, 8, 12, 16, 4, 4, 8, 12];
        assert(counts@ =~= seq![0u32, 4, 8, 12, 16, 4, 4, 8, 12]);
        counts[self.attribute_format as usize]
    }
}

/// How many weights each vertex is blended with.
pub enum BlendComponentCount {
    Two,
    Three,
    Four,
}

impl Default for BlendComponentCount {
    fn default() -> (r: Self)
        ensures
            r == BlendComponentCount::Two,
    {
        BlendComponentCount::Two
    }
}

/// The materials of a model.
pub struct MaterialGroupSection {
    pub material_ids: Vec<u32>,
}

/// A material: its name, and its texture slots.
pub struct MaterialSection {
    pub name: u64,
    pub items: Vec<(u32, u32)>,
}

/// A look-at rotation controller constrained by three other sections.
pub struct LookAtConstrRotationControllerSection {
    pub name: Idstring,
    pub unknown_1: u32,
    pub section_1: u32,
    pub section_2: u32,
    pub section_3: u32,
}

/// The strings the model tool hashed.
pub struct ModelToolHashSection {
    pub version: u16,
    pub strings: Vec<String>,
}

} // verus!
