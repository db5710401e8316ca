//! A mesh in the shape modelling tools use, made from a geometry section, its
//! index buffer and the render atoms that draw it: vertices with equal
//! position and weights (bit for bit) are merged, every triangle becomes a
//! face of three face corners ("loops"), and the texture coordinates and
//! colours become one entry per loop. Floating-point values are carried as
//! their bits.
use vstd::prelude::*;
use crate::formats::fdm::geometry::{GeometrySection, GeometryView, Rgba, Vec2, Vec3, Vec4};
use crate::formats::fdm::{RenderAtom, TopologySection};
use crate::text::push_char;

verus! {

/// One bone influence on a vertex: the bone's index and the weight's bits.
#[derive(Debug, Copy, Clone, PartialEq, Eq, Structural)]
pub struct VertexWeight {
    pub group: i32,
    pub weight: u32,
}

/// A vertex: its position's bits and its bone influences.
pub struct MeshVertex {
    pub co: Vec3<u32>,
    pub weights: Vec<VertexWeight>,
}

/// A corner of a face: the vertex it stands on and its normal's bits.
#[derive(Debug, Copy, Clone, PartialEq, Eq, Structural)]
pub struct MeshLoop {
    pub vertex: usize,
    pub normal: Vec3<u32>,
}

/// A face: its material slot and its loops.
pub struct MeshFace {
    pub material: u16,
    pub loops: Vec<usize>,
}

/// A texture coordinate layer, one entry per loop.
pub struct UvLayer {
    pub name: String,
    pub data: Vec<Vec2<u32>>,
}

/// A colour layer, one entry per loop.
pub struct ColourLayer {
    pub name: String,
    pub data: Vec<Rgba>,
}

/// The mesh.
pub struct Meshoid {
    pub vertices: Vec<MeshVertex>,
    pub loops: Vec<MeshLoop>,
    pub faces: Vec<MeshFace>,
    pub material_names: Vec<Option<String>>,
    pub uv_layers: Vec<UvLayer>,
    pub colours: Vec<ColourLayer>,
    pub has_normals: bool,
}

/// Component `j` of a four-component value.
pub open spec fn comp4<T>(v: Vec4<T>, j: int) -> T {
    if j == 0 {
        v.x
    } else if j == 1 {
        v.y
    } else if j == 2 {
        v.z
    } else {
        v.w
    }
}

fn get4<T: Copy>(v: &Vec4<T>, j: u32) -> (r: T)
    ensures
        r == comp4(*v, j as int),
{
    if j == 0 {
        v.x
    } else if j == 1 {
        v.y
    } else if j == 2 {
        v.z
    } else {
        v.w
    }
}

/// The first `n` influences of one slot of blend indices and weights.
pub open spec fn slot_weights(ix: Vec4<u16>, w: Vec4<u32>, n: u32) -> Seq<VertexWeight> {
    Seq::new(n as nat, |j: int| VertexWeight { group: comp4(ix, j) as i32, weight: comp4(w, j) })
}

/// The influences of vertex `i`: those of the first slot, then those of the
/// second.
pub open spec fn weights_of(g: GeometryView, i: int) -> Seq<VertexWeight> {
    slot_weights(g.blend_indices_0[i], g.blend_weight_0[i], g.weightcount_0) + slot_weights(
        g.blend_indices_1[i],
        g.blend_weight_1[i],
        g.weightcount_1,
    )
}

/// What makes vertex `i` what it is: its position and its influences.
pub open spec fn vertex_key(g: GeometryView, i: int) -> (Vec3<u32>, Seq<VertexWeight>) {
    (g.position[i], weights_of(g, i))
}

/// The position and influences of a vertex of the mesh.
pub open spec fn mesh_vertex_key(v: MeshVertex) -> (Vec3<u32>, Seq<VertexWeight>) {
    (v.co, v.weights@)
}

/// Every vertex's influences can be read: a slot with influences holds at
/// most four of them and has an entry for every vertex.
pub open spec fn blend_readable(g: GeometryView) -> bool {
    &&& (g.position.len() > 0 && g.weightcount_0 > 0) ==> (g.weightcount_0 <= 4 && g.blend_indices_0.len()
        >= g.position.len() && g.blend_weight_0.len() >= g.position.len())
    &&& (g.position.len() > 0 && g.weightcount_1 > 0) ==> (g.weightcount_1 <= 4 && g.blend_indices_1.len()
        >= g.position.len() && g.blend_weight_1.len() >= g.position.len())
}

/// Some of the first `n` entries of `map` is `k`.
pub open spec fn is_hit(map: Seq<usize>, k: int, n: int) -> bool {
    exists|i: int| 0 <= i < n && #[trigger] map[i] as int == k
}

/// `vertices` and `map` are the merge of the vertices of `g`: vertex `i`
/// goes to the one of `vertices` with its position and influences, no two of
/// `vertices` have both equal, and they come in the order in which they are
/// first met.
pub open spec fn merged(g: GeometryView, vertices: Seq<MeshVertex>, map: Seq<usize>) -> bool {
    &&& map.len() == g.position.len()
    &&& forall|i: int|
        0 <= i < map.len() ==> (#[trigger] map[i]) < vertices.len() && mesh_vertex_key(vertices[map[i] as int])
            == vertex_key(g, i)
    &&& forall|a: int, b: int|
        0 <= a < b < vertices.len() ==> mesh_vertex_key(#[trigger] vertices[a]) != mesh_vertex_key(
            #[trigger] vertices[b],
        )
    &&& forall|k: int| 0 <= k < vertices.len() ==> #[trigger] is_hit(map, k, map.len() as int)
    &&& forall|i: int, k: int| 0 <= i < map.len() && 0 <= k < map[i] ==> #[trigger] is_hit(map, k, i)
}

fn same_weights(a: &Vec<VertexWeight>, b: &Vec<VertexWeight>) -> (r: bool)
    ensures
        r == (a@ == b@),
{
    if a.len() != b.len() {
        return false;
    }
    let n = a.len();
    let mut i: usize = 0;
    while i < n
        invariant
            n == a@.len(),
            n == b@.len(),
            i <= n,
            forall|k: int| 0 <= k < i ==> a@[k] == b@[k],
        decreases n - i,
    {
        if a[i] != b[i] {
            return false;
        }
        i += 1;
    }
    assert(a@ =~= b@);
    true
}

/// The influences of vertex `i`.
fn vertex_weights(geo: &GeometrySection, i: usize) -> (r: Vec<VertexWeight>)
    requires
        blend_readable(geo@),
        i < geo.position@.len(),
    ensures
        r@ == weights_of(geo@, i as int),
{
    let mut w: Vec<VertexWeight> = Vec::new();
    let mut j: u32 = 0;
    while j < geo.weightcount_0
        invariant
            blend_readable(geo@),
            i < geo.position@.len(),
            j <= geo.weightcount_0,
            w@ =~= slot_weights(geo.blend_indices_0@[i as int], geo.blend_weight_0@[i as int], j),
        decreases geo.weightcount_0 - j,
    {
        let g = get4(&geo.blend_indices_0[i], j) as i32;
        let x = get4(&geo.blend_weight_0[i], j);
        w.push(VertexWeight { group: g, weight: x });
        j += 1;
    }
    let ghost first = w@;
    let mut j: u32 = 0;
    while j < geo.weightcount_1
        invariant
            blend_readable(geo@),
            i < geo.position@.len(),
            j <= geo.weightcount_1,
            first == slot_weights(geo.blend_indices_0@[i as int], geo.blend_weight_0@[i as int], geo.weightcount_0),
            w@ =~= first + slot_weights(geo.blend_indices_1@[i as int], geo.blend_weight_1@[i as int], j),
        decreases geo.weightcount_1 - j,
    {
        let g = get4(&geo.blend_indices_1[i], j) as i32;
        let x = get4(&geo.blend_weight_1[i], j);
        w.push(VertexWeight { group: g, weight: x });
        j += 1;
    }
    w
}

/// Merges the vertices of `geo` with equal position and influences (bit for
/// bit); the second result says where each vertex went.
pub fn merge_vertices(geo: &GeometrySection) -> (r: (Vec<MeshVertex>, Vec<usize>))
    requires
        blend_readable(geo@),
    ensures
        merged(geo@, r.0@, r.1@),
{
    let n = geo.position.len();
    let mut vertices: Vec<MeshVertex> = Vec::new();
    let mut map: Vec<usize> = Vec::new();
    let mut i: usize = 0;
    while i < n
        invariant
            n == geo.position@.len(),
            blend_readable(geo@),
            i <= n,
            map@.len() == i,
            vertices@.len() <= i,
            forall|q: int|
                0 <= q < i ==> (#[trigger] map@[q]) < vertices@.len() && mesh_vertex_key(vertices@[map@[q] as int])
                    == vertex_key(geo@, q),
            forall|a: int, b: int|
                0 <= a < b < vertices@.len() ==> mesh_vertex_key(#[trigger] vertices@[a]) != mesh_vertex_key(
                    #[trigger] vertices@[b],
                ),
            forall|k: int| 0 <= k < vertices@.len() ==> #[trigger] is_hit(map@, k, i as int),
            forall|q: int, k: int| 0 <= q < i && 0 <= k < map@[q] ==> #[trigger] is_hit(map@, k, q),
        decreases n - i,
    {
        let co = geo.position[i];
        let weights = vertex_weights(geo, i);
        let nv = vertices.len();
        let mut found: usize = nv;
        let mut k: usize = 0;
        while k < nv
            invariant_except_break
                found == nv,
                forall|kk: int| 0 <= kk < k ==> mesh_vertex_key(#[trigger] vertices@[kk]) != (co, weights@),
            invariant
                nv == vertices@.len(),
                k <= nv,
            ensures
                found < nv ==> mesh_vertex_key(vertices@[found as int]) == (co, weights@),
                found == nv ==> forall|kk: int| 0 <= kk < nv ==> mesh_vertex_key(#[trigger] vertices@[kk]) != (co, weights@),
                found <= nv,
            decreases nv - k,
        {
            if vertices[k].co == co && same_weights(&vertices[k].weights, &weights) {
                found = k;
                break;
            }
            k += 1;
        }
        let ghost old_map = map@;
        let ghost old_vertices = vertices@;
        if found < nv {
            map.push(found);
            proof {
                assert forall|q: int| 0 <= q < i + 1 implies (#[trigger] map@[q]) < vertices@.len() && mesh_vertex_key(
                    vertices@[map@[q] as int],
                ) == vertex_key(geo@, q) by {
                    if q < i {
                        assert(map@[q] == old_map[q]);
                    }
                }
                assert forall|kk: int| 0 <= kk < vertices@.len() implies #[trigger] is_hit(map@, kk, i + 1) by {
                    assert(is_hit(old_map, kk, i as int));
                    let q = choose|q: int| 0 <= q < i && #[trigger] old_map[q] as int == kk;
                    assert(map@[q] == old_map[q]);
                }
                assert forall|q: int, kk: int| 0 <= q < i + 1 && 0 <= kk < map@[q] implies #[trigger] is_hit(map@, kk, q) by {
                    if q < i {
                        assert(map@[q] == old_map[q]);
                        assert(is_hit(old_map, kk, q));
                        let q2 = choose|q2: int| 0 <= q2 < q && #[trigger] old_map[q2] as int == kk;
                        assert(map@[q2] == old_map[q2]);
                    } else {
                        assert(is_hit(old_map, kk, i as int));
                        let q2 = choose|q2: int| 0 <= q2 < i && #[trigger] old_map[q2] as int == kk;
                        assert(map@[q2] == old_map[q2]);
                    }
                }
            }
        } else {
            map.push(nv);
            vertices.push(MeshVertex { co, weights });
            proof {
                assert forall|q: int| 0 <= q < i + 1 implies (#[trigger] map@[q]) < vertices@.len() && mesh_vertex_key(
                    vertices@[map@[q] as int],
                ) == vertex_key(geo@, q) by {
                    if q < i {
                        assert(map@[q] == old_map[q]);
                        assert(vertices@[map@[q] as int] == old_vertices[map@[q] as int]);
                    }
                }
                assert forall|a: int, b: int| 0 <= a < b < vertices@.len() implies mesh_vertex_key(
                    #[trigger] vertices@[a],
                ) != mesh_vertex_key(#[trigger] vertices@[b]) by {
                    assert(vertices@[a] == old_vertices[a]);
                    if b < nv {
                        assert(vertices@[b] == old_vertices[b]);
                    }
                }
                assert forall|kk: int| 0 <= kk < vertices@.len() implies #[trigger] is_hit(map@, kk, i + 1) by {
                    if kk < nv {
                        assert(is_hit(old_map, kk, i as int));
                        let q = choose|q: int| 0 <= q < i && #[trigger] old_map[q] as int == kk;
                        assert(map@[q] == old_map[q]);
                    } else {
                        assert(map@[i as int] as int == kk);
                    }
                }
                assert forall|q: int, kk: int| 0 <= q < i + 1 && 0 <= kk < map@[q] implies #[trigger] is_hit(map@, kk, q) by {
                    if q < i {
                        assert(map@[q] == old_map[q]);
                        assert(is_hit(old_map, kk, q));
                        let q2 = choose|q2: int| 0 <= q2 < q && #[trigger] old_map[q2] as int == kk;
                        assert(map@[q2] == old_map[q2]);
                    } else {
                        assert(is_hit(old_map, kk, i as int));
                        let q2 = choose|q2: int| 0 <= q2 < i && #[trigger] old_map[q2] as int == kk;
                        assert(map@[q2] == old_map[q2]);
                    }
                }
            }
        }
        i += 1;
    }
    (vertices, map)
}

/// The vertex numbers that the triangles of `ra` read from the index buffer,
/// three per triangle, each shifted by the atom's base vertex.
pub open spec fn atom_corners(faces: Seq<u16>, ra: RenderAtom) -> Seq<int> {
    Seq::new(3 * ra.triangle_count as nat, |c: int| faces[3 * ra.base_index + c] as int + ra.base_vertex as int)
}

/// The corners of the first `n` atoms, one atom after another.
pub open spec fn corners(faces: Seq<u16>, atoms: Seq<RenderAtom>, n: int) -> Seq<int>
    decreases n,
{
    if n <= 0 {
        Seq::empty()
    } else {
        corners(faces, atoms, n - 1) + atom_corners(faces, atoms[n - 1])
    }
}

/// The material of each triangle of the first `n` atoms.
pub open spec fn face_materials(atoms: Seq<RenderAtom>, n: int) -> Seq<u32>
    decreases n,
{
    if n <= 0 {
        Seq::empty()
    } else {
        face_materials(atoms, n - 1) + Seq::new(atoms[n - 1].triangle_count as nat, |_t: int| atoms[n - 1].material)
    }
}

/// Texture coordinate set `k` of the section.
pub open spec fn tex_src(g: GeometryView, k: int) -> Seq<Vec2<u32>> {
    if k == 0 {
        g.tex_coord_0
    } else if k == 1 {
        g.tex_coord_1
    } else if k == 2 {
        g.tex_coord_2
    } else if k == 3 {
        g.tex_coord_3
    } else if k == 4 {
        g.tex_coord_4
    } else if k == 5 {
        g.tex_coord_5
    } else if k == 6 {
        g.tex_coord_6
    } else {
        g.tex_coord_7
    }
}

/// Colour set `k` of the section.
pub open spec fn colour_src(g: GeometryView, k: int) -> Seq<Rgba> {
    if k == 0 {
        g.color_0
    } else {
        g.color_1
    }
}

/// The texture coordinate sets among the first `n` that the section has.
pub open spec fn uv_sources(g: GeometryView, n: int) -> Seq<int>
    decreases n,
{
    if n <= 0 {
        Seq::empty()
    } else if tex_src(g, n - 1).len() > 0 {
        uv_sources(g, n - 1).push(n - 1)
    } else {
        uv_sources(g, n - 1)
    }
}

/// The colour sets among the first `n` that the section has.
pub open spec fn colour_sources(g: GeometryView, n: int) -> Seq<int>
    decreases n,
{
    if n <= 0 {
        Seq::empty()
    } else if colour_src(g, n - 1).len() > 0 {
        colour_sources(g, n - 1).push(n - 1)
    } else {
        colour_sources(g, n - 1)
    }
}

/// The character of decimal digit `d`.
pub open spec fn digit_char(d: int) -> char {
    if d == 0 {
        '0'
    } else if d == 1 {
        '1'
    } else if d == 2 {
        '2'
    } else if d == 3 {
        '3'
    } else if d == 4 {
        '4'
    } else if d == 5 {
        '5'
    } else if d == 6 {
        '6'
    } else if d == 7 {
        '7'
    } else if d == 8 {
        '8'
    } else {
        '9'
    }
}

/// `n` in decimal.
pub open spec fn dec_text(n: nat) -> Seq<char>
    decreases n,
{
    if n < 10 {
        seq![digit_char(n as int)]
    } else {
        dec_text(n / 10) + seq![digit_char((n % 10) as int)]
    }
}

/// The name of texture coordinate layer `k`: `uv_` and the digit.
pub open spec fn uv_name(k: int) -> Seq<char> {
    seq!['u', 'v', '_', digit_char(k)]
}

/// The name of colour layer `k`: `Col_` and the digit.
pub open spec fn colour_name(k: int) -> Seq<char> {
    seq!['C', 'o', 'l', '_', digit_char(k)]
}

/// The name of material `m`: `mat_` and the number.
pub open spec fn material_name(m: u32) -> Seq<char> {
    seq!['m', 'a', 't', '_'] + dec_text(m as nat)
}

/// The zero vector, the normal of a loop where the section has none.
pub open spec fn zero3() -> Vec3<u32> {
    Vec3 { x: 0, y: 0, z: 0 }
}

/// Vertex `v` can be read: it is a vertex of the section, and every present
/// normal, texture coordinate and colour set has an entry for it.
pub open spec fn corner_readable(g: GeometryView, v: int) -> bool {
    &&& 0 <= v < g.position.len()
    &&& g.normal.len() > 0 ==> v < g.normal.len()
    &&& forall|k: int| 0 <= k < 8 && #[trigger] tex_src(g, k).len() > 0 ==> v < tex_src(g, k).len()
    &&& forall|k: int| 0 <= k < 2 && #[trigger] colour_src(g, k).len() > 0 ==> v < colour_src(g, k).len()
}

/// Every atom's triangles lie in the index buffer, its material fits in 16
/// bits, and every vertex its triangles read can be read.
pub open spec fn atoms_fit(g: GeometryView, faces: Seq<u16>, atoms: Seq<RenderAtom>) -> bool {
    forall|a: int|
        0 <= a < atoms.len() ==> {
            &&& (#[trigger] atoms[a]).base_index + atoms[a].triangle_count <= u32::MAX
            &&& 3 * (atoms[a].base_index + atoms[a].triangle_count) <= faces.len()
            &&& atoms[a].material <= u16::MAX
            &&& forall|c: int| 0 <= c < 3 * atoms[a].triangle_count ==> corner_readable(g, #[trigger] atom_corners(faces, atoms[a])[c])
        }
}

pub(crate) fn digit(d: u32) -> (r: char)
    requires
        d < 10,
    ensures
        r == digit_char(d as int),
{
    if d == 0 {
        '0'
    } else if d == 1 {
        '1'
    } else if d == 2 {
        '2'
    } else if d == 3 {
        '3'
    } else if d == 4 {
        '4'
    } else if d == 5 {
        '5'
    } else if d == 6 {
        '6'
    } else if d == 7 {
        '7'
    } else if d == 8 {
        '8'
    } else {
        '9'
    }
}

/// Appends `n` in decimal.
fn push_decimal(out: &mut String, n: u32)
    ensures
        final(out)@ == old(out)@ + dec_text(n as nat),
    decreases n,
{
    if n >= 10 {
        push_decimal(out, n / 10);
    }
    push_char(out, digit(n % 10));
    proof {
        if n < 10 {
            assert(n % 10 == n);
        }
    }
    assert(out@ =~= old(out)@ + dec_text(n as nat));
}

fn tex_coord(geo: &GeometrySection, k: usize) -> (r: &Vec<Vec2<u32>>)
    ensures
        r@ == tex_src(geo@, k as int),
{
    if k == 0 {
        &geo.tex_coord_0
    } else if k == 1 {
        &geo.tex_coord_1
    } else if k == 2 {
        &geo.tex_coord_2
    } else if k == 3 {
        &geo.tex_coord_3
    } else if k == 4 {
        &geo.tex_coord_4
    } else if k == 5 {
        &geo.tex_coord_5
    } else if k == 6 {
        &geo.tex_coord_6
    } else {
        &geo.tex_coord_7
    }
}

fn colour(geo: &GeometrySection, k: usize) -> (r: &Vec<Rgba>)
    ensures
        r@ == colour_src(geo@, k as int),
{
    if k == 0 {
        &geo.color_0
    } else {
        &geo.color_1
    }
}

/// The entries of `src` at the corners, in order.
fn gather<T: Copy>(src: &Vec<T>, cs: &Vec<usize>) -> (r: Vec<T>)
    requires
        forall|l: int| 0 <= l < cs@.len() ==> (#[trigger] cs@[l]) < src@.len(),
    ensures
        r@ == Seq::new(cs@.len(), |l: int| src@[cs@[l] as int]),
{
    let mut out: Vec<T> = Vec::new();
    let n = cs.len();
    let mut l: usize = 0;
    while l < n
        invariant
            n == cs@.len(),
            l <= n,
            forall|q: int| 0 <= q < cs@.len() ==> (#[trigger] cs@[q]) < src@.len(),
            out@ =~= Seq::new(l as nat, |q: int| src@[cs@[q] as int]),
        decreases n - l,
    {
        out.push(src[cs[l]]);
        l += 1;
    }
    out
}

proof fn lemma_corner_count(faces: Seq<u16>, atoms: Seq<RenderAtom>, n: int)
    requires
        0 <= n <= atoms.len(),
    ensures
        corners(faces, atoms, n).len() == 3 * face_materials(atoms, n).len(),
    decreases n,
{
    if n > 0 {
        lemma_corner_count(faces, atoms, n - 1);
    }
}

proof fn lemma_face_materials_fit(g: GeometryView, faces: Seq<u16>, atoms: Seq<RenderAtom>, n: int)
    requires
        0 <= n <= atoms.len(),
        atoms_fit(g, faces, atoms),
    ensures
        forall|f: int| 0 <= f < face_materials(atoms, n).len() ==> #[trigger] face_materials(atoms, n)[f] <= u16::MAX,
    decreases n,
{
    if n > 0 {
        lemma_face_materials_fit(g, faces, atoms, n - 1);
        assert(atoms[n - 1].material <= u16::MAX);
        let prev = face_materials(atoms, n - 1);
        assert forall|f: int| 0 <= f < face_materials(atoms, n).len() implies #[trigger] face_materials(atoms, n)[f] <= u16::MAX by {
            if f < prev.len() {
                assert(face_materials(atoms, n)[f] == prev[f]);
            }
        }
    }
}

/// The corners of all atoms, the material of each of their triangles, and
/// each atom's material name.
fn collect_corners(geo: &GeometrySection, topo: &TopologySection, atoms: &Vec<RenderAtom>) -> (r: (
    Vec<usize>,
    Vec<u32>,
    Vec<Option<String>>,
))
    requires
        atoms_fit(geo@, topo.faces@, atoms@),
    ensures
        r.0@.len() == corners(topo.faces@, atoms@, atoms@.len() as int).len(),
        forall|l: int| 0 <= l < r.0@.len() ==> #[trigger] r.0@[l] as int == corners(topo.faces@, atoms@, atoms@.len() as int)[l],
        forall|l: int| 0 <= l < r.0@.len() ==> corner_readable(geo@, #[trigger] r.0@[l] as int),
        r.1@ == face_materials(atoms@, atoms@.len() as int),
        r.2@.len() == atoms@.len(),
        forall|a: int| 0 <= a < atoms@.len() ==> (#[trigger] r.2@[a]) is Some && r.2@[a]->0@ == material_name(atoms@[a].material),
{
    let ghost faces = topo.faces@;
    let mut cs: Vec<usize> = Vec::new();
    let mut mats: Vec<u32> = Vec::new();
    let mut names: Vec<Option<String>> = Vec::new();
    let na = atoms.len();
    let mut a: usize = 0;
    while a < na
        invariant
            na == atoms@.len(),
            faces == topo.faces@,
            atoms_fit(geo@, faces, atoms@),
            a <= na,
            cs@.len() == corners(faces, atoms@, a as int).len(),
            forall|l: int| 0 <= l < cs@.len() ==> #[trigger] cs@[l] as int == corners(faces, atoms@, a as int)[l],
            forall|l: int| 0 <= l < cs@.len() ==> corner_readable(geo@, #[trigger] cs@[l] as int),
            mats@ == face_materials(atoms@, a as int),
            names@.len() == a,
            forall|q: int| 0 <= q < a ==> (#[trigger] names@[q]) is Some && names@[q]->0@ == material_name(atoms@[q].material),
        decreases na - a,
    {
        let ra = &atoms[a];
        assert(atoms@[a as int] == *ra);
        let nf = topo.faces.len();
        let np = geo.position.len();
        assert(3 * (ra.base_index + ra.triangle_count) <= nf);
        let base: usize = 3 * (ra.base_index as usize);
        let count: usize = 3 * (ra.triangle_count as usize);
        let ghost before = cs@;
        let ghost ac = atom_corners(faces, *ra);
        let mut c: usize = 0;
        while c < count
            invariant
                faces == topo.faces@,
                atoms_fit(geo@, faces, atoms@),
                a < na,
                na == atoms@.len(),
                *ra == atoms@[a as int],
                ac == atom_corners(faces, *ra),
                base == 3 * ra.base_index,
                count == 3 * ra.triangle_count,
                base + count <= faces.len(),
                nf == faces.len(),
                np == geo@.position.len(),
                c <= count,
                cs@.len() == before.len() + c,
                forall|l: int| 0 <= l < before.len() ==> #[trigger] cs@[l] == before[l],
                forall|l: int| 0 <= l < c ==> #[trigger] cs@[before.len() + l] as int == ac[l],
                forall|l: int| 0 <= l < cs@.len() ==> corner_readable(geo@, #[trigger] cs@[l] as int),
            decreases count - c,
        {
            let fv = topo.faces[base + c];
            proof {
                assert(corner_readable(geo@, ac[c as int]));
                assert(ac[c as int] == fv as int + ra.base_vertex as int);
            }
            let v: usize = fv as usize + ra.base_vertex as usize;
            let ghost old_cs = cs@;
            cs.push(v);
            proof {
                assert forall|l: int| 0 <= l < cs@.len() implies corner_readable(geo@, #[trigger] cs@[l] as int) by {
                    if l < old_cs.len() {
                        assert(cs@[l] == old_cs[l]);
                    }
                }
                assert forall|l: int| 0 <= l < c + 1 implies #[trigger] cs@[before.len() + l] as int == ac[l] by {
                    if l < c {
                        assert(cs@[before.len() + l] == old_cs[before.len() + l]);
                    }
                }
            }
            c += 1;
        }
        proof {
            assert forall|l: int| 0 <= l < cs@.len() implies #[trigger] cs@[l] as int == corners(faces, atoms@, a + 1)[l] by {
                if l < before.len() {
                    assert(cs@[l] == before[l]);
                } else {
                    assert(cs@[before.len() + (l - before.len())] as int == ac[l - before.len()]);
                }
            }
        }
        let ghost mats_before = mats@;
        let mut t: u32 = 0;
        while t < ra.triangle_count
            invariant
                t <= ra.triangle_count,
                mats@ =~= mats_before + Seq::new(t as nat, |_t: int| ra.material),
            decreases ra.triangle_count - t,
        {
            mats.push(ra.material);
            t += 1;
        }
        let mut name = String::new();
        push_char(&mut name, 'm');
        push_char(&mut name, 'a');
        push_char(&mut name, 't');
        push_char(&mut name, '_');
        push_decimal(&mut name, ra.material);
        let ghost names_before = names@;
        names.push(Some(name));
        proof {
            assert(name@ =~= material_name(ra.material));
            assert forall|q: int| 0 <= q < a + 1 implies (#[trigger] names@[q]) is Some && names@[q]->0@ == material_name(atoms@[q].material) by {
                if q < a {
                    assert(names@[q] == names_before[q]);
                }
            }
        }
        a += 1;
    }
    (cs, mats, names)
}

/// What the mesh made from `g`, the index buffer `faces` and `atoms` is:
/// merged vertices; one loop per corner, on the merged vertex of the corner's
/// vertex, with its normal (zero where the section has none); one face per
/// triangle, on its three loops, with its atom's material; one material name
/// per atom; and a texture coordinate or colour layer for each set the
/// section has, with the set's entry for each loop's vertex.
pub open spec fn is_meshoid_of(m: Meshoid, g: GeometryView, faces: Seq<u16>, atoms: Seq<RenderAtom>) -> bool {
    let cs = corners(faces, atoms, atoms.len() as int);
    let fm = face_materials(atoms, atoms.len() as int);
    let uvs = uv_sources(g, 8);
    let cols = colour_sources(g, 2);
    &&& exists|map: Seq<usize>|
        #[trigger] merged(g, m.vertices@, map) && forall|l: int|
            0 <= l < cs.len() ==> #[trigger] m.loops@[l].vertex == map[cs[l]]
    &&& m.has_normals == (g.normal.len() > 0)
    &&& m.loops@.len() == cs.len()
    &&& forall|l: int|
        0 <= l < cs.len() ==> (#[trigger] m.loops@[l]).normal == if g.normal.len() > 0 {
            g.normal[cs[l]]
        } else {
            zero3()
        }
    &&& m.faces@.len() == fm.len()
    &&& forall|f: int|
        0 <= f < fm.len() ==> (#[trigger] m.faces@[f]).material == fm[f] && m.faces@[f].loops@ == seq![
            (3 * f) as usize,
            (3 * f + 1) as usize,
            (3 * f + 2) as usize,
        ]
    &&& m.material_names@.len() == atoms.len()
    &&& forall|a: int|
        0 <= a < atoms.len() ==> (#[trigger] m.material_names@[a]) is Some && m.material_names@[a]->0@ == material_name(
            atoms[a].material,
        )
    &&& m.uv_layers@.len() == uvs.len()
    &&& forall|j: int|
        0 <= j < uvs.len() ==> (#[trigger] m.uv_layers@[j]).name@ == uv_name(uvs[j]) && m.uv_layers@[j].data@
            == Seq::new(cs.len(), |l: int| tex_src(g, uvs[j])[cs[l]])
    &&& m.colours@.len() == cols.len()
    &&& forall|j: int|
        0 <= j < cols.len() ==> (#[trigger] m.colours@[j]).name@ == colour_name(cols[j]) && m.colours@[j].data@
            == Seq::new(cs.len(), |l: int| colour_src(g, cols[j])[cs[l]])
}

/// Makes the mesh of a geometry section, its index buffer and the render
/// atoms that draw it. Vertices with equal position and weights (bit for
/// bit) are merged; every triangle of every atom becomes a face of three
/// loops.
pub fn meshoid_from_geometry(geo: &GeometrySection, topo: &TopologySection, atoms: &Vec<RenderAtom>) -> (m: Meshoid)
    requires
        blend_readable(geo@),
        atoms_fit(geo@, topo.faces@, atoms@),
    ensures
        is_meshoid_of(m, geo@, topo.faces@, atoms@),
{
    let ghost g = geo@;
    let (vertices, map) = merge_vertices(geo);
    let (cs, mats, material_names) = collect_corners(geo, topo, atoms);
    let ghost scs = corners(topo.faces@, atoms@, atoms@.len() as int);
    let ghost fm = face_materials(atoms@, atoms@.len() as int);
    proof {
        lemma_corner_count(topo.faces@, atoms@, atoms@.len() as int);
        lemma_face_materials_fit(geo@, topo.faces@, atoms@, atoms@.len() as int);
    }
    let has_normals = geo.normal.len() > 0;
    let nc = cs.len();
    let mut loops: Vec<MeshLoop> = Vec::new();
    let mut l: usize = 0;
    while l < nc
        invariant
            nc == cs@.len(),
            nc == scs.len(),
            g == geo@,
            has_normals == (g.normal.len() > 0),
            merged(g, vertices@, map@),
            forall|q: int| 0 <= q < nc ==> #[trigger] cs@[q] as int == scs[q],
            forall|q: int| 0 <= q < nc ==> corner_readable(g, #[trigger] cs@[q] as int),
            l <= nc,
            loops@.len() == l,
            forall|q: int| 0 <= q < l ==> (#[trigger] loops@[q]).vertex == map@[scs[q]] && loops@[q].normal == if g.normal.len() > 0 {
                g.normal[scs[q]]
            } else {
                zero3()
            },
        decreases nc - l,
    {
        let v = cs[l];
        assert(corner_readable(g, v as int));
        let normal = if has_normals {
            geo.normal[v]
        } else {
            Vec3 { x: 0u32, y: 0u32, z: 0u32 }
        };
        let ghost old_loops = loops@;
        loops.push(MeshLoop { vertex: map[v], normal });
        proof {
            assert forall|q: int| 0 <= q < l + 1 implies (#[trigger] loops@[q]).vertex == map@[scs[q]] && loops@[q].normal
                == if g.normal.len() > 0 {
                g.normal[scs[q]]
            } else {
                zero3()
            } by {
                if q < l {
                    assert(loops@[q] == old_loops[q]);
                }
            }
        }
        l += 1;
    }
    let nf = mats.len();
    let mut faces: Vec<MeshFace> = Vec::new();
    let mut f: usize = 0;
    while f < nf
        invariant
            nf == mats@.len(),
            mats@ == fm,
            3 * nf == nc,
            forall|q: int| 0 <= q < nf ==> #[trigger] fm[q] <= u16::MAX,
            f <= nf,
            faces@.len() == f,
            forall|q: int| 0 <= q < f ==> (#[trigger] faces@[q]).material == fm[q] && faces@[q].loops@ == seq![
                (3 * q) as usize,
                (3 * q + 1) as usize,
                (3 * q + 2) as usize,
            ],
        decreases nf - f,
    {
        let mut fl: Vec<usize> = Vec::new();
        fl.push(3 * f);
        fl.push(3 * f + 1);
        fl.push(3 * f + 2);
        let ghost old_faces = faces@;
        faces.push(MeshFace { material: mats[f] as u16, loops: fl });
        proof {
            assert(fl@ =~= seq![(3 * f) as usize, (3 * f + 1) as usize, (3 * f + 2) as usize]);
            assert forall|q: int| 0 <= q < f + 1 implies (#[trigger] faces@[q]).material == fm[q] && faces@[q].loops@ == seq![
                (3 * q) as usize,
                (3 * q + 1) as usize,
                (3 * q + 2) as usize,
            ] by {
                if q < f {
                    assert(faces@[q] == old_faces[q]);
                }
            }
        }
        f += 1;
    }
    let mut uv_layers: Vec<UvLayer> = Vec::new();
    let mut k: usize = 0;
    while k < 8
        invariant
            g == geo@,
            nc == cs@.len(),
            nc == scs.len(),
            forall|q: int| 0 <= q < nc ==> #[trigger] cs@[q] as int == scs[q],
            forall|q: int| 0 <= q < nc ==> corner_readable(g, #[trigger] cs@[q] as int),
            k <= 8,
            uv_layers@.len() == uv_sources(g, k as int).len(),
            forall|j: int|
                0 <= j < uv_layers@.len() ==> (#[trigger] uv_layers@[j]).name@ == uv_name(uv_sources(g, k as int)[j])
                    && uv_layers@[j].data@ == Seq::new(nc as nat, |q: int| tex_src(g, uv_sources(g, k as int)[j])[scs[q]]),
        decreases 8 - k,
    {
        let src = tex_coord(geo, k);
        let ghost old_layers = uv_layers@;
        if src.len() > 0 {
            assert forall|q: int| 0 <= q < cs@.len() implies (#[trigger] cs@[q]) < src@.len() by {
                assert(corner_readable(g, cs@[q] as int));
                assert(tex_src(g, k as int).len() > 0);
            }
            let data = gather(src, &cs);
            let mut name = String::new();
            push_char(&mut name, 'u');
            push_char(&mut name, 'v');
            push_char(&mut name, '_');
            push_char(&mut name, digit(k as u32));
            uv_layers.push(UvLayer { name, data });
            proof {
                assert(name@ =~= uv_name(k as int));
                assert(data@ =~= Seq::new(nc as nat, |q: int| tex_src(g, k as int)[scs[q]]));
                assert forall|j: int|
                    0 <= j < uv_layers@.len() implies (#[trigger] uv_layers@[j]).name@ == uv_name(uv_sources(g, k + 1)[j])
                        && uv_layers@[j].data@ == Seq::new(nc as nat, |q: int| tex_src(g, uv_sources(g, k + 1)[j])[scs[q]]) by {
                    if j < old_layers.len() {
                        assert(uv_layers@[j] == old_layers[j]);
                    }
                }
            }
        }
        k += 1;
    }
    let mut colours: Vec<ColourLayer> = Vec::new();
    let mut k: usize = 0;
    while k < 2
        invariant
            g == geo@,
            nc == cs@.len(),
            nc == scs.len(),
            forall|q: int| 0 <= q < nc ==> #[trigger] cs@[q] as int == scs[q],
            forall|q: int| 0 <= q < nc ==> corner_readable(g, #[trigger] cs@[q] as int),
            k <= 2,
            colours@.len() == colour_sources(g, k as int).len(),
            forall|j: int|
                0 <= j < colours@.len() ==> (#[trigger] colours@[j]).name@ == colour_name(colour_sources(g, k as int)[j])
                    && colours@[j].data@ == Seq::new(nc as nat, |q: int| colour_src(g, colour_sources(g, k as int)[j])[scs[q]]),
        decreases 2 - k,
    {
        let src = colour(geo, k);
        let ghost old_layers = colours@;
        if src.len() > 0 {
            assert forall|q: int| 0 <= q < cs@.len() implies (#[trigger] cs@[q]) < src@.len() by {
                assert(corner_readable(g, cs@[q] as int));
                assert(colour_src(g, k as int).len() > 0);
            }
            let data = gather(src, &cs);
            let mut name = String::new();
            push_char(&mut name, 'C');
            push_char(&mut name, 'o');
            push_char(&mut name, 'l');
            push_char(&mut name, '_');
            push_char(&mut name, digit(k as u32));
            colours.push(ColourLayer { name, data });
            proof {
                assert(name@ =~= colour_name(k as int));
                assert(data@ =~= Seq::new(nc as nat, |q: int| colour_src(g, k as int)[scs[q]]));
                assert forall|j: int|
                    0 <= j < colours@.len() implies (#[trigger] colours@[j]).name@ == colour_name(colour_sources(g, k + 1)[j])
                        && colours@[j].data@ == Seq::new(nc as nat, |q: int| colour_src(g, colour_sources(g, k + 1)[j])[scs[q]]) by {
                    if j < old_layers.len() {
                        assert(colours@[j] == old_layers[j]);
                    }
                }
            }
        }
        k += 1;
    }
    let m = Meshoid { vertices, loops, faces, material_names, uv_layers, colours, has_normals };
    proof {
        assert(merged(g, m.vertices@, map@));
    }
    m
}

proof fn lemma_corners_readable(g: GeometryView, faces: Seq<u16>, atoms: Seq<RenderAtom>, n: int)
    requires
        0 <= n <= atoms.len(),
        atoms_fit(g, faces, atoms),
    ensures
        forall|l: int| 0 <= l < corners(faces, atoms, n).len() ==> corner_readable(g, #[trigger] corners(faces, atoms, n)[l]),
    decreases n,
{
    if n > 0 {
        lemma_corners_readable(g, faces, atoms, n - 1);
        let prev = corners(faces, atoms, n - 1);
        let ac = atom_corners(faces, atoms[n - 1]);
        assert forall|l: int| 0 <= l < corners(faces, atoms, n).len() implies corner_readable(g, #[trigger] corners(faces, atoms, n)[l]) by {
            if l < prev.len() {
                assert(corners(faces, atoms, n)[l] == prev[l]);
            } else {
                assert(corners(faces, atoms, n)[l] == ac[l - prev.len()]);
                assert(corner_readable(g, ac[l - prev.len()]));
            }
        }
    }
}

/// Every loop of the mesh stands on a vertex with the position and the
/// influences of the section's vertex at its corner, and every face's loops
/// are loops of the mesh.
pub proof fn lemma_loops_keep_vertices(m: Meshoid, g: GeometryView, faces: Seq<u16>, atoms: Seq<RenderAtom>)
    requires
        blend_readable(g),
        atoms_fit(g, faces, atoms),
        is_meshoid_of(m, g, faces, atoms),
    ensures
        forall|l: int|
            0 <= l < m.loops@.len() ==> (#[trigger] m.loops@[l]).vertex < m.vertices@.len() && mesh_vertex_key(
                m.vertices@[m.loops@[l].vertex as int],
            ) == vertex_key(g, corners(faces, atoms, atoms.len() as int)[l]),
        forall|f: int, c: int|
            0 <= f < m.faces@.len() && 0 <= c < m.faces@[f].loops@.len() ==> #[trigger] m.faces@[f].loops@[c] < m.loops@.len(),
{
    let cs = corners(faces, atoms, atoms.len() as int);
    lemma_corners_readable(g, faces, atoms, atoms.len() as int);
    lemma_corner_count(faces, atoms, atoms.len() as int);
    let map = choose|map: Seq<usize>|
        #[trigger] merged(g, m.vertices@, map) && forall|l: int| 0 <= l < cs.len() ==> #[trigger] m.loops@[l].vertex == map[cs[l]];
    assert forall|l: int| 0 <= l < m.loops@.len() implies (#[trigger] m.loops@[l]).vertex < m.vertices@.len() && mesh_vertex_key(
        m.vertices@[m.loops@[l].vertex as int],
    ) == vertex_key(g, cs[l]) by {
        assert(corner_readable(g, cs[l]));
        assert(m.loops@[l].vertex == map[cs[l]]);
    }
    assert forall|f: int, c: int|
        0 <= f < m.faces@.len() && 0 <= c < m.faces@[f].loops@.len() implies #[trigger] m.faces@[f].loops@[c] < m.loops@.len() by {
        assert(m.faces@[f].loops@ == seq![(3 * f) as usize, (3 * f + 1) as usize, (3 * f + 2) as usize]);
    }
}

} // verus!
