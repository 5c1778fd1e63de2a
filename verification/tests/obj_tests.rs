use rasterizer::obj::fan_triangulate;
use rasterizer::obj::obj_vertex_index;
use rasterizer::obj::parse_face_slot;
use rasterizer::obj::Face;

#[test]
fn parse_face_slot_plain_index() {
    assert_eq!(parse_face_slot(b"12"), Some(12));
    assert_eq!(parse_face_slot(b"007"), Some(7));
    assert_eq!(parse_face_slot(b"0"), Some(0));
}

#[test]
fn parse_face_slot_takes_only_the_leading_token() {
    assert_eq!(parse_face_slot(b"12/3/4"), Some(12));
    assert_eq!(parse_face_slot(b"5//2"), Some(5));
}

#[test]
fn parse_face_slot_negative_index() {
    assert_eq!(parse_face_slot(b"-7"), Some(-7));
    assert_eq!(parse_face_slot(b"-1/2"), Some(-1));
}

#[test]
fn parse_face_slot_malformed_is_none() {
    assert_eq!(parse_face_slot(b""), None);
    assert_eq!(parse_face_slot(b"/2"), None);
    assert_eq!(parse_face_slot(b"-"), None);
    assert_eq!(parse_face_slot(b"3x"), None);
    assert_eq!(parse_face_slot(b"x3"), None);
    assert_eq!(parse_face_slot(b"+3"), None);
}

#[test]
fn parse_face_slot_overflow_is_none() {
    assert_eq!(parse_face_slot(b"9223372036854775807"), Some(i64::MAX));
    assert_eq!(parse_face_slot(b"9223372036854775808"), None);
    assert_eq!(parse_face_slot(b"99999999999999999999999"), None);
}

#[test]
fn obj_vertex_index_positive_is_one_based() {
    assert_eq!(obj_vertex_index(1, 10), Some(0));
    assert_eq!(obj_vertex_index(3, 10), Some(2));
    // a positive index needs no vertices to resolve
    assert_eq!(obj_vertex_index(7, 0), Some(6));
}

#[test]
fn obj_vertex_index_non_positive_counts_from_the_end() {
    assert_eq!(obj_vertex_index(-1, 10), Some(9));
    assert_eq!(obj_vertex_index(-10, 10), Some(0));
    assert_eq!(obj_vertex_index(0, 10), Some(10));
}

#[test]
fn obj_vertex_index_unrepresentable_is_none() {
    assert_eq!(obj_vertex_index(-11, 10), None);
    assert_eq!(obj_vertex_index(-1, 0), None);
}

#[test]
fn fan_triangulate_triangle_is_kept_as_is() {
    let indices = vec![0usize, 1, 2];
    let faces = fan_triangulate(&indices);
    assert_eq!(faces.len(), 1);
    assert_eq!(faces[0].vertices, vec![0, 1, 2]);
}

#[test]
fn fan_triangulate_quad_splits_around_first_vertex() {
    let indices = vec![4usize, 5, 6, 7];
    let faces = fan_triangulate(&indices);
    assert_eq!(faces.len(), 2);
    assert_eq!(faces[0].vertices, vec![4, 5, 6]);
    assert_eq!(faces[1].vertices, vec![4, 6, 7]);
}

#[test]
fn fan_triangulate_pentagon_gives_three_faces() {
    let indices = vec![0usize, 1, 2, 3, 4];
    let faces = fan_triangulate(&indices);
    assert_eq!(faces.len(), 3);
    assert_eq!(faces[2].vertices, vec![0, 3, 4]);
}

#[test]
fn fan_triangulate_too_few_indices_gives_no_faces() {
    let indices = vec![0usize, 1];
    assert_eq!(fan_triangulate(&indices).len(), 0);
    let empty: Vec<usize> = Vec::new();
    assert_eq!(fan_triangulate(&empty).len(), 0);
}

#[test]
fn triangle_indices_of_a_valid_face() {
    let face = Face { vertices: vec![0usize, 2, 1] };
    assert_eq!(face.triangle_indices(3), Some((0, 2, 1)));
}

#[test]
fn triangle_indices_rejects_wrong_arity() {
    let face = Face { vertices: vec![0usize, 1] };
    assert_eq!(face.triangle_indices(10), None);
    let face = Face { vertices: vec![0usize, 1, 2, 3] };
    assert_eq!(face.triangle_indices(10), None);
}

#[test]
fn triangle_indices_rejects_out_of_range() {
    let face = Face { vertices: vec![0usize, 1, 5] };
    assert_eq!(face.triangle_indices(5), None);
    assert_eq!(face.triangle_indices(6), Some((0, 1, 5)));
}
