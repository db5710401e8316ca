use pd2tools::formats::fdm::geometry::{GeometrySection, Rgba, Vec2, Vec3, Vec4};
use pd2tools::formats::fdm::meshoid::{meshoid_from_geometry, merge_vertices, VertexWeight};
use pd2tools::formats::fdm::{RenderAtom, TopologySection};

fn v3(x: u32, y: u32, z: u32) -> Vec3<u32> {
    Vec3 { x, y, z }
}

/// Four vertices, the third a copy of the first, drawn as two triangles.
fn quad() -> (GeometrySection, TopologySection, Vec<RenderAtom>) {
    let mut g = GeometrySection::empty();
    g.position = vec![v3(0, 0, 0), v3(1, 0, 0), v3(0, 0, 0), v3(0, 1, 0)];
    g.normal = vec![v3(0, 0, 1), v3(0, 0, 2), v3(0, 0, 3), v3(0, 0, 4)];
    g.tex_coord_1 = vec![Vec2 { x: 10, y: 0 }, Vec2 { x: 11, y: 0 }, Vec2 { x: 12, y: 0 }, Vec2 { x: 13, y: 0 }];
    g.color_0 = vec![Rgba { r: 1, g: 0, b: 0, a: 0 }, Rgba { r: 2, g: 0, b: 0, a: 0 }, Rgba { r: 3, g: 0, b: 0, a: 0 }, Rgba { r: 4, g: 0, b: 0, a: 0 }];
    let topo = TopologySection { unknown_1: 0, faces: vec![0, 1, 3, 2, 3, 1], unknown_2: Vec::new(), name: pd2tools::hashindex::Hash(0) };
    let atoms = vec![
        RenderAtom { base_vertex: 0, triangle_count: 1, base_index: 0, geometry_slice_length: 0, material: 7 },
        RenderAtom { base_vertex: 0, triangle_count: 1, base_index: 1, geometry_slice_length: 0, material: 12 },
    ];
    (g, topo, atoms)
}

#[test]
fn equal_vertices_are_merged() {
    let (g, _, _) = quad();
    let (vertices, map) = merge_vertices(&g);
    assert_eq!(vertices.len(), 3);
    assert_eq!(map, vec![0, 1, 0, 2]);
    assert_eq!(vertices[2].co, v3(0, 1, 0));
}

#[test]
fn vertices_with_other_weights_stay_apart() {
    let (mut g, _, _) = quad();
    g.weightcount_0 = 1;
    g.blend_indices_0 = vec![Vec4 { x: 1, y: 0, z: 0, w: 0 }, Vec4 { x: 1, y: 0, z: 0, w: 0 }, Vec4 { x: 2, y: 0, z: 0, w: 0 }, Vec4 { x: 1, y: 0, z: 0, w: 0 }];
    g.blend_weight_0 = vec![Vec4 { x: 5, y: 0, z: 0, w: 0 }; 4];
    let (vertices, map) = merge_vertices(&g);
    assert_eq!(vertices.len(), 4);
    assert_eq!(map, vec![0, 1, 2, 3]);
    assert_eq!(vertices[2].weights, vec![VertexWeight { group: 2, weight: 5 }]);
}

#[test]
fn mesh_from_geometry() {
    let (g, topo, atoms) = quad();
    let m = meshoid_from_geometry(&g, &topo, &atoms);
    assert_eq!(m.vertices.len(), 3);
    assert!(m.has_normals);
    let loop_vertices: Vec<usize> = m.loops.iter().map(|l| l.vertex).collect();
    assert_eq!(loop_vertices, vec![0, 1, 2, 0, 2, 1]);
    let normals: Vec<u32> = m.loops.iter().map(|l| l.normal.z).collect();
    assert_eq!(normals, vec![1, 2, 4, 3, 4, 2]);
    assert_eq!(m.faces.len(), 2);
    assert_eq!(m.faces[0].material, 7);
    assert_eq!(m.faces[1].material, 12);
    assert_eq!(m.faces[1].loops, vec![3, 4, 5]);
    assert_eq!(m.material_names, vec![Some(String::from("mat_7")), Some(String::from("mat_12"))]);
    assert_eq!(m.uv_layers.len(), 1);
    assert_eq!(m.uv_layers[0].name, "uv_1");
    let us: Vec<u32> = m.uv_layers[0].data.iter().map(|t| t.x).collect();
    assert_eq!(us, vec![10, 11, 13, 12, 13, 11]);
    assert_eq!(m.colours.len(), 1);
    assert_eq!(m.colours[0].name, "Col_0");
    assert_eq!(m.colours[0].data[5].r, 2);
}

#[test]
fn mesh_without_normals_has_zero_loop_normals() {
    let (mut g, topo, atoms) = quad();
    g.normal = Vec::new();
    let m = meshoid_from_geometry(&g, &topo, &atoms);
    assert!(!m.has_normals);
    assert!(m.loops.iter().all(|l| l.normal == v3(0, 0, 0)));
}
