//! The in-memory model that the modelling-tool bridge works on: settings,
//! names and meshes.
use vstd::prelude::*;
use crate::formats::fdm::geometry::{Vec2, Vec3, Vec4};

verus! {

/// The settings of a scene as the engine's tools record them.
#[derive(Default)]
pub struct DieselSceneSettings {
    pub author_tag: String,
    pub source_file: String,
    pub scene_type: String,
}

/// A material, by name.
pub struct Material {
    pub name: String,
}

/// The part an object plays in a skin: none (`Unskinned`), the armature, or
/// a bone.
#[derive(PartialEq, Eq, Structural)]
pub enum SkinRole {
    Unskinned,
    Armature,
    Bone,
}

/// How the engine draws a mesh: whether it casts and receives shadows, and
/// whether only its bounds are kept.
pub struct DieselMeshSettings {
    pub cast_shadows: bool,
    pub receive_shadows: bool,
    pub bounds_only: bool,
}

impl Default for DieselMeshSettings {
    /// Casts and receives shadows; keeps the mesh, not only its bounds.
    fn default() -> (r: Self)
        ensures
            r.cast_shadows,
            r.receive_shadows,
            !r.bounds_only,
    {
        Self { cast_shadows: true, receive_shadows: true, bounds_only: false }
    }
}

/// A collection of the scene: its name, its parent, its child collections
/// and its member objects, each by its key in the scene.
pub struct Collection {
    pub name: String,
    pub parent: usize,
    pub children: Vec<usize>,
    pub members: Vec<usize>,
}

/// A corner of a polygon: the vertex it stands on and its edge.
#[derive(Debug, Copy, Clone, PartialEq, Eq, Structural)]
pub struct Faceloop {
    pub vertex: usize,
    pub edge: usize,
}

/// A polygon: its first loop, how many loops it has, and its material slot.
#[derive(Debug, Copy, Clone, PartialEq, Eq, Structural)]
pub struct Polygon {
    pub base: usize,
    pub count: usize,
    pub material: usize,
}

/// A triangle of a polygon: three of its loops.
#[derive(Debug, Copy, Clone)]
pub struct Triangle {
    pub loops: [usize; 3],
    pub polygon: usize,
}

/// The tangent frame of a loop, as the bits of its three vectors.
#[derive(Debug, Copy, Clone, PartialEq, Eq, Structural)]
pub struct Tangent {
    pub normal: Vec3<u32>,
    pub tangent: Vec3<u32>,
    pub bitangent: Vec3<u32>,
}

/// What a mesh knows of the directions at its loops: nothing, normals, or
/// whole tangent frames.
pub enum TangentLayer {
    Absent,
    Normals(Vec<Vec3<u32>>),
    Tangents(Vec<Tangent>),
}

/// A named texture coordinate layer, one entry per loop.
pub struct LoopUvs {
    pub name: String,
    pub data: Vec<Vec2<u32>>,
}

/// A named colour layer, one red, green, blue and alpha value per loop.
pub struct LoopColours {
    pub name: String,
    pub data: Vec<Vec4<u32>>,
}

/// A mesh of the model: vertex positions, loops, polygons and their
/// triangles, the layers on the loops (in the order of their names), the
/// material each slot refers to (by the scene's key), and the engine's
/// settings. Floating-point values are their bits.
pub struct Mesh {
    pub vertices: Vec<Vec3<u32>>,
    pub faceloops: Vec<Faceloop>,
    pub polygons: Vec<Polygon>,
    pub triangles: Vec<Triangle>,
    pub faceloop_uvs: Vec<LoopUvs>,
    pub faceloop_colors: Vec<LoopColours>,
    pub faceloop_tangents: TangentLayer,
    pub material_ids: Vec<Option<usize>>,
    pub diesel: DieselMeshSettings,
}

} // verus!
