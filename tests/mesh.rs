use wireframe::buffer::ColorBuffer;
use wireframe::color::Vec3;
use wireframe::error::MeshError;
use wireframe::mesh::{project, Model, Vec3f, UNIT};
use wireframe::obj::{mesh_name, parse_coord_token, parse_index_token, split_pieces};
use wireframe::raster::Point;

const BLACK: Vec3 = Vec3 { r: 0, g: 0, b: 0 };
const WHITE: Vec3 = Vec3 { r: 255, g: 255, b: 255 };

fn parse(text: &str) -> Result<Model, MeshError> {
    Model::parse(text.as_bytes(), String::from("mesh"))
}

#[test]
fn minimal_mesh_round_trip() {
    let m = parse("v 0 0 0\nv 1 0 0\nv 0 1 0\nf 1 2 3\n").unwrap();
    assert_eq!(m.num_vertices(), 3);
    assert_eq!(m.num_faces(), 1);
    assert_eq!(m.vertices[0], Vec3f { x: 0, y: 0, z: 0 });
    assert_eq!(m.vertices[1], Vec3f { x: UNIT, y: 0, z: 0 });
    assert_eq!(m.vertices[2], Vec3f { x: 0, y: UNIT, z: 0 });
    assert_eq!(m.faces[0].indices, vec![0, 1, 2]);
    assert_eq!(m.file_name, "mesh");
}

#[test]
fn face_references_drop_auxiliary_fields() {
    let m = parse("v 0 0 0\nv 1 0 0\nv 0 1 0\nv 1 1 1\nf 4/1/2 2//7 3/5 1\n").unwrap();
    assert_eq!(m.faces[0].indices, vec![3, 1, 2, 0]);
}

#[test]
fn other_lines_are_ignored() {
    let text = "# a comment\r\n\r\no cube\nvn 0 0 1\nvt 0.5 0.5\nv 1 2 3\n  \ns off\n";
    let m = parse(text).unwrap();
    assert_eq!(m.num_vertices(), 1);
    assert_eq!(m.num_faces(), 0);
    assert_eq!(m.vertices[0], Vec3f { x: UNIT, y: 2 * UNIT, z: 3 * UNIT });
}

#[test]
fn coordinates_are_fixed_point() {
    let m = parse("v -1.5 2.25 0.1234567\nv +3. .5 -0\n").unwrap();
    assert_eq!(m.vertices[0], Vec3f { x: -1_500_000, y: 2_250_000, z: 123_456 });
    assert_eq!(m.vertices[1], Vec3f { x: 3_000_000, y: 500_000, z: 0 });
}

#[test]
fn coordinate_tokens() {
    assert_eq!(parse_coord_token(&b"12.000001".to_vec()), Some(12_000_001));
    assert_eq!(parse_coord_token(&b"-0.75".to_vec()), Some(-750_000));
    assert_eq!(parse_coord_token(&b"999999999999".to_vec()), Some(999_999_999_999_000_000));
    assert_eq!(parse_coord_token(&b"1000000000000".to_vec()), None);
    assert_eq!(parse_coord_token(&b".".to_vec()), None);
    assert_eq!(parse_coord_token(&b"-".to_vec()), None);
    assert_eq!(parse_coord_token(&b"1e5".to_vec()), None);
    assert_eq!(parse_coord_token(&b"1.2.3".to_vec()), None);
}

#[test]
fn index_tokens() {
    assert_eq!(parse_index_token(&b"1".to_vec()), Some(0));
    assert_eq!(parse_index_token(&b"42/3/9".to_vec()), Some(41));
    assert_eq!(parse_index_token(&b"0".to_vec()), None);
    assert_eq!(parse_index_token(&b"/3".to_vec()), None);
    assert_eq!(parse_index_token(&b"-1".to_vec()), None);
    assert_eq!(parse_index_token(&b"99999999999999999999999".to_vec()), None);
}

#[test]
fn splitting_lines_and_tokens() {
    let lines = split_pieces(b"a b\n\n c\td \n", true);
    assert_eq!(lines, vec![b"a b".to_vec(), b" c\td ".to_vec()]);
    let toks = split_pieces(b" c\td \r", false);
    assert_eq!(toks, vec![b"c".to_vec(), b"d".to_vec()]);
}

#[test]
fn malformed_vertex_is_fatal() {
    assert_eq!(parse("v 1 2\n").err(), Some(MeshError::MalformedRecord));
    assert_eq!(parse("v 1 x 2\n").err(), Some(MeshError::MalformedRecord));
}

#[test]
fn malformed_face_is_fatal() {
    let verts = "v 0 0 0\nv 1 0 0\nv 0 1 0\n";
    assert_eq!(parse(&format!("{verts}f 1 2\n")).err(), Some(MeshError::MalformedRecord));
    assert_eq!(parse(&format!("{verts}f 1 a 3\n")).err(), Some(MeshError::MalformedRecord));
    assert_eq!(parse(&format!("{verts}f 0 1 2\n")).err(), Some(MeshError::MalformedRecord));
}

#[test]
fn out_of_range_face_is_fatal() {
    let text = "v 0 0 0\nv 1 0 0\nv 0 1 0\nf 1 2 4\n";
    assert_eq!(parse(text).err(), Some(MeshError::IndexOutOfRange));
}

#[test]
fn normalization_maps_onto_unit_range() {
    let mut m = parse("v -1 0 10\nv 1 4 20\nv 0 1 12.5\n").unwrap();
    assert_eq!(m.normalize_vertices(), Ok(()));
    assert_eq!(m.vertices[0], Vec3f { x: 0, y: 0, z: 0 });
    assert_eq!(m.vertices[1], Vec3f { x: UNIT, y: UNIT, z: UNIT });
    assert_eq!(m.vertices[2], Vec3f { x: 500_000, y: 250_000, z: 250_000 });
    for v in &m.vertices {
        for c in [v.x, v.y, v.z] {
            assert!(0 <= c && c <= UNIT);
        }
    }
}

#[test]
fn flat_mesh_is_degenerate() {
    let mut m = parse("v 0 0 0\nv 1 0 0\nv 0 1 0\n").unwrap();
    assert_eq!(m.normalize_vertices(), Err(MeshError::DegenerateGeometry));
    assert_eq!(m.vertices[1], Vec3f { x: UNIT, y: 0, z: 0 });
    let mut empty = parse("").unwrap();
    assert_eq!(empty.normalize_vertices(), Err(MeshError::DegenerateGeometry));
}

#[test]
fn projection_scales_and_rounds_down() {
    let v = Vec3f { x: 500_000, y: 333_333, z: 7 };
    assert_eq!(project(&v, 10, 9), Point { x: 5, y: 2 });
    let corner = Vec3f { x: UNIT, y: UNIT, z: 0 };
    assert_eq!(project(&corner, 10, 9), Point { x: 10, y: 9 });
}

#[test]
fn draw_renders_triangle_edges() {
    let mut m = parse("v 0 0 0\nv 1 0 1\nv 0 1 2\nf 1 2 3\n").unwrap();
    m.normalize_vertices().unwrap();
    let mut img = ColorBuffer::new(11, 11, &BLACK);
    m.draw(&mut img, WHITE);
    // Edge from (0,0) to (11,0): the end lies outside, the rest of row 0 is set.
    for x in 0..11 {
        assert_eq!(img.get_pixel(x, 0), WHITE);
    }
    // Edge from (0,11) back to (0,0): column 0.
    for y in 0..11 {
        assert_eq!(img.get_pixel(0, y), WHITE);
    }
    // Diagonal from (11,0) to (0,11).
    assert_eq!(img.get_pixel(5, 6), WHITE);
    assert_eq!(img.get_pixel(6, 5), WHITE);
    assert_eq!(img.get_pixel(3, 3), BLACK);
    assert_eq!(img.get_pixel(10, 10), BLACK);
}

#[test]
fn mesh_name_is_stem_of_last_component() {
    assert_eq!(mesh_name(b"./obj/teddy_bear.obj"), b"teddy_bear".to_vec());
    assert_eq!(mesh_name(b"models/cube.tar.obj"), b"cube".to_vec());
    assert_eq!(mesh_name(b"plain"), b"plain".to_vec());
    assert_eq!(mesh_name(b"dir/"), Vec::<u8>::new());
}
