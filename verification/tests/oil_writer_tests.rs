use pd2tools::formats::fdm::geometry::{Vec2, Vec3, Vec4};
use pd2tools::model_ir::{DieselMeshSettings, Faceloop, Mesh, LoopColours, LoopUvs, Polygon, TangentLayer, Triangle};
use pd2tools::oil_writer::{mesh_to_oil_geometry, MaterialCollector, OilChannel};

fn collector() -> MaterialCollector {
    MaterialCollector {
        names: vec![String::from("wood"), String::from("steel")],
        next_id: 10,
        collected: Vec::new(),
        solo_mats: vec![None, None],
    }
}

#[test]
fn no_or_empty_material_reference_uses_none() {
    let mut mc = collector();
    assert_eq!(mc.collect_and_map(&vec![]), (0xFFFF_FFFF, vec![0xFFFF_FFFF]));
    assert_eq!(mc.collect_and_map(&vec![None]), (0xFFFF_FFFF, vec![0xFFFF_FFFF]));
    assert_eq!(mc.next_id, 10);
    assert!(mc.collected.is_empty());
}

#[test]
fn single_material_is_collected_once() {
    let mut mc = collector();
    assert_eq!(mc.collect_and_map(&vec![Some(1)]), (10, vec![10]));
    assert_eq!(mc.collect_and_map(&vec![Some(1)]), (10, vec![10]));
    assert_eq!(mc.next_id, 11);
    assert_eq!(mc.collected.len(), 1);
    assert_eq!((mc.collected[0].id, mc.collected[0].name.as_str(), mc.collected[0].parent_id), (10, "steel", 0xFFFF_FFFF));
}

#[test]
fn several_materials_go_under_a_multi_material() {
    let mut mc = collector();
    let (root, mapping) = mc.collect_and_map(&vec![Some(1), None, Some(0), Some(1)]);
    assert_eq!(root, 10);
    assert_eq!(mapping, vec![11, 0xFFFF_FFFF, 12, 11]);
    let got: Vec<(u32, &str, u32)> = mc.collected.iter().map(|m| (m.id, m.name.as_str(), m.parent_id)).collect();
    assert_eq!(got, vec![(10, "MultiMaterial", 0xFFFF_FFFF), (11, "steel", 10), (12, "wood", 10)]);
    assert_eq!(mc.next_id, 13);
}

fn triangle_mesh(bounds_only: bool) -> Mesh {
    Mesh {
        vertices: vec![Vec3 { x: 1, y: 0, z: 0 }, Vec3 { x: 0, y: 1, z: 0 }, Vec3 { x: 0, y: 0, z: 1 }],
        faceloops: vec![Faceloop { vertex: 2, edge: 0 }, Faceloop { vertex: 0, edge: 0 }, Faceloop { vertex: 1, edge: 0 }],
        polygons: vec![Polygon { base: 0, count: 3, material: 0 }],
        triangles: vec![Triangle { loops: [0, 1, 2], polygon: 0 }],
        faceloop_uvs: vec![LoopUvs { name: String::from("uv"), data: vec![Vec2 { x: 1, y: 2 }; 3] }],
        faceloop_colors: vec![LoopColours { name: String::from("col"), data: vec![Vec4 { x: 5, y: 6, z: 7, w: 8 }; 3] }],
        faceloop_tangents: TangentLayer::Normals(vec![Vec3 { x: 0, y: 0, z: 9 }; 3]),
        material_ids: vec![Some(0)],
        diesel: DieselMeshSettings { cast_shadows: true, receive_shadows: false, bounds_only },
    }
}

#[test]
fn mesh_becomes_oil_geometry() {
    let mut mc = collector();
    let g = mesh_to_oil_geometry(4, &triangle_mesh(false), &mut mc);
    assert_eq!(g.node_id, 4);
    assert!(g.casts_shadows && !g.receives_shadows);
    assert_eq!(g.material_id, 10);
    assert_eq!(g.channels.len(), 5);
    assert!(matches!(&g.channels[0], OilChannel::Position(0, v) if v.len() == 3));
    assert!(matches!(&g.channels[1], OilChannel::TexCoord(1, _)));
    assert!(matches!(&g.channels[2], OilChannel::Colour(1, c) if c[0] == Vec3 { x: 5, y: 6, z: 7 }));
    assert!(matches!(&g.channels[3], OilChannel::Alpha(1, a) if a[2] == 8));
    assert!(matches!(&g.channels[4], OilChannel::Normal(0, _)));
    assert_eq!(g.faces.len(), 1);
    assert_eq!(g.faces[0].material_id, 10);
    let loops: Vec<(u32, u32, u32, u32)> = g.faces[0].loops.iter().map(|l| (l.channel, l.a, l.b, l.c)).collect();
    assert_eq!(loops, vec![(0, 2, 0, 1), (1, 0, 1, 2), (2, 0, 1, 2), (3, 0, 1, 2), (4, 0, 1, 2)]);
}

#[test]
fn bounds_only_mesh_has_no_channels() {
    let mut mc = collector();
    let g = mesh_to_oil_geometry(4, &triangle_mesh(true), &mut mc);
    assert!(g.bounds_only);
    assert!(g.channels.is_empty() && g.faces.is_empty());
    assert_eq!(g.material_id, 0xFFFF_FFFF);
    assert_eq!(mc.next_id, 10);
}
