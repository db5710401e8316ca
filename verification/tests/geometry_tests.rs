use pd2tools::formats::fdm::container::ReadError;
use pd2tools::formats::fdm::geometry::{GeometrySection, Rgba, Vec2, Vec3, Vec4};

fn u32s(out: &mut Vec<u8>, vs: &[u32]) {
    for v in vs {
        out.extend_from_slice(&v.to_le_bytes());
    }
}

fn sample() -> Vec<u8> {
    let mut b = Vec::new();
    // two vertices, four descriptors
    u32s(&mut b, &[2, 4]);
    u32s(&mut b, &[3, 1, 2, 17, 5, 5, 2, 15]);
    // positions
    u32s(&mut b, &[1, 2, 3, 4, 5, 6]);
    // two weights per vertex
    u32s(&mut b, &[10, 11, 12, 13]);
    // colours, stored blue, green, red, alpha
    b.extend_from_slice(&[1, 2, 3, 4, 5, 6, 7, 8]);
    // two indices per vertex
    b.extend_from_slice(&[7, 0, 8, 0, 9, 0, 10, 1]);
    // what follows the section
    b.extend_from_slice(&[0xAA, 0xBB]);
    b
}

#[test]
fn geometry_reads_attributes() {
    let data = sample();
    let mut stream: &[u8] = &data;
    let g = GeometrySection::read_from_stream(&mut stream).expect("reads");
    assert_eq!(stream, &[0xAA, 0xBB]);
    assert_eq!(g.name, 0);
    assert_eq!(g.position, vec![Vec3 { x: 1, y: 2, z: 3 }, Vec3 { x: 4, y: 5, z: 6 }]);
    assert_eq!(g.weightcount_0, 2);
    assert_eq!(g.blend_weight_0, vec![Vec4 { x: 10, y: 11, z: 0, w: 0 }, Vec4 { x: 12, y: 13, z: 0, w: 0 }]);
    assert_eq!(g.color_0, vec![Rgba { r: 3, g: 2, b: 1, a: 4 }, Rgba { r: 7, g: 6, b: 5, a: 8 }]);
    assert_eq!(g.blend_indices_0, vec![Vec4 { x: 7, y: 8, z: 0, w: 0 }, Vec4 { x: 9, y: 266, z: 0, w: 0 }]);
    assert!(g.normal.is_empty());
    assert!(g.tex_coord_0.is_empty());
    assert_eq!(g.weightcount_1, 0);
}

#[test]
fn geometry_later_attribute_replaces_earlier() {
    let mut b = Vec::new();
    u32s(&mut b, &[1, 2]);
    u32s(&mut b, &[2, 7, 2, 7]);
    u32s(&mut b, &[1, 2, 3, 4]);
    let mut stream: &[u8] = &b;
    let g = GeometrySection::read_from_stream(&mut stream).expect("reads");
    assert_eq!(g.tex_coord_0, vec![Vec2 { x: 3, y: 4 }]);
    assert!(stream.is_empty());
}

#[test]
fn geometry_errors() {
    let short: &[u8] = &[1, 0, 0];
    let mut s = short;
    assert!(matches!(GeometrySection::read_from_stream(&mut s), Err(ReadError::UnexpectedEof)));
    let mut b = Vec::new();
    u32s(&mut b, &[1, 1, 3, 22]);
    let mut s: &[u8] = &b;
    assert!(matches!(
        GeometrySection::read_from_stream(&mut s),
        Err(ReadError::BadDiscriminant("GeometryAttributeType", 22))
    ));
    let mut b = Vec::new();
    u32s(&mut b, &[2, 1, 3, 1, 1, 2, 3]);
    let mut s: &[u8] = &b;
    assert!(matches!(GeometrySection::read_from_stream(&mut s), Err(ReadError::UnexpectedEof)));
    let mut b = Vec::new();
    u32s(&mut b, &[2, 2, 3, 1]);
    let mut s: &[u8] = &b;
    assert!(matches!(GeometrySection::read_from_stream(&mut s), Err(ReadError::UnexpectedEof)));
}

#[test]
fn geometry_write_bytes() {
    let mut g = GeometrySection::empty();
    g.weightcount_0 = 2;
    g.weightcount_1 = 2;
    g.position = vec![Vec3 { x: 1, y: 2, z: 3 }];
    g.point_size = vec![9];
    g.name = 0x0102030405060708;
    let mut out = vec![0xEE];
    GeometrySection::write_to_stream(&mut out, &g).expect("writes");
    let mut expect = vec![0xEE];
    u32s(&mut expect, &[1, 2, 3, 1, 1, 19, 1, 2, 3, 9]);
    expect.extend_from_slice(&0x0102030405060708u64.to_le_bytes());
    assert_eq!(out, expect);
}

#[test]
fn geometry_write_then_read() {
    let mut g = GeometrySection::empty();
    g.weightcount_0 = 2;
    g.weightcount_1 = 3;
    g.position = vec![Vec3 { x: 1, y: 2, z: 3 }, Vec3 { x: 4, y: 5, z: 6 }];
    g.tex_coord_3 = vec![Vec2 { x: 7, y: 8 }, Vec2 { x: 9, y: 10 }];
    g.color_1 = vec![Rgba { r: 1, g: 2, b: 3, a: 4 }, Rgba { r: 5, g: 6, b: 7, a: 8 }];
    g.blend_indices_0 = vec![Vec4 { x: 1, y: 2, z: 0, w: 0 }, Vec4 { x: 3, y: 4, z: 0, w: 0 }];
    g.blend_weight_0 = vec![Vec4 { x: 11, y: 12, z: 0, w: 0 }, Vec4 { x: 13, y: 14, z: 0, w: 0 }];
    g.name = 77;
    let mut out = Vec::new();
    GeometrySection::write_to_stream(&mut out, &g).expect("writes");
    let mut stream: &[u8] = &out;
    let r = GeometrySection::read_from_stream(&mut stream).expect("reads");
    assert_eq!(stream, &77u64.to_le_bytes());
    assert_eq!(r.name, 0);
    assert_eq!(r.position, g.position);
    assert_eq!(r.tex_coord_3, g.tex_coord_3);
    assert_eq!(r.color_1, g.color_1);
    assert_eq!(r.blend_indices_0, g.blend_indices_0);
    assert_eq!(r.blend_weight_0, g.blend_weight_0);
    assert_eq!(r.weightcount_0, 2);
    assert_eq!(r.weightcount_1, 0);
    assert!(r.normal.is_empty());
}

#[test]
fn geometry_write_positions_only() {
    let mut g = GeometrySection::empty();
    g.position = vec![Vec3 { x: 0, y: 0, z: 0 }];
    let mut out = Vec::new();
    GeometrySection::write_to_stream(&mut out, &g).expect("writes");
    let mut expect = Vec::new();
    u32s(&mut expect, &[1, 1, 3, 1, 0, 0, 0, 0, 0]);
    assert_eq!(out, expect);
}
