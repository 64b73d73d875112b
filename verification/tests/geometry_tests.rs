//! The geometry container: constructors, the bounds invariant, the
//! primitive builders and the centroid.

use mesh_kernel::geometry::{
    compute_bounding_sphere, compute_centroid, cube_same_len, plane_same_len, plane_var_len,
    tf_vn, tf_vn_separate, uv_cube_same_len, uv_cube_var_len, Geometry, Point, TriangleFace,
    Vector,
};

fn p(x: i64, y: i64, z: i64) -> Point {
    Point { x, y, z }
}

fn tf_v(a: u32, b: u32, c: u32) -> TriangleFace {
    TriangleFace { vertices: (a, b, c), normals: None }
}

fn quad() -> (Vec<TriangleFace>, Vec<Point>) {
    let vertices = vec![
        p(-1000000, -1000000, 0),
        p(1000000, -1000000, 0),
        p(1000000, 1000000, 0),
        p(-1000000, 1000000, 0),
    ];

    let faces = vec![tf_v(0, 1, 2), tf_v(2, 3, 0)];

    (faces, vertices)
}

fn quad_with_normals() -> (Vec<TriangleFace>, Vec<Point>, Vec<Vector>) {
    let (_, vertices) = quad();

    let normals = vec![
        Vector { x: 0, y: 0, z: 1 },
        Vector { x: 0, y: 0, z: 1 },
        Vector { x: 0, y: 0, z: 1 },
        Vector { x: 0, y: 0, z: 1 },
    ];

    let faces = vec![tf_vn(0, 1, 2), tf_vn(2, 3, 0)];

    (faces, vertices, normals)
}

#[test]
fn test_geometry_from_triangle_faces_with_vertices() {
    let (faces, vertices) = quad();
    let geometry = Geometry::from_triangle_faces_with_vertices(faces.clone(), vertices.clone());
    let geometry_faces = geometry.triangle_faces();

    assert_eq!(vertices.as_slice(), geometry.vertices().as_slice());
    assert_eq!(faces.as_slice(), geometry_faces.as_slice());
}

#[test]
fn test_geometry_from_triangle_faces_with_vertices_and_normals() {
    let (faces, vertices, normals) = quad_with_normals();
    let geometry = Geometry::from_triangle_faces_with_vertices_and_normals(
        faces.clone(),
        vertices.clone(),
        normals.clone(),
    );
    let geometry_faces = geometry.triangle_faces();

    assert_eq!(vertices.as_slice(), geometry.vertices().as_slice());
    assert_eq!(normals.as_slice(), geometry.normals().as_slice());
    assert_eq!(faces.as_slice(), geometry_faces.as_slice());
}

/// A face referencing a vertex at or past the collection length is
/// rejected: the checked constructor returns nothing.
#[test]
fn test_geometry_try_from_triangle_faces_with_vertices_bounds_check() {
    let (_, vertices) = quad();
    let faces = vec![tf_v(0, 1, 2), tf_v(2, 3, 4)];

    assert!(Geometry::try_from_triangle_faces_with_vertices(faces, vertices).is_none());
}

/// A face referencing a normal at or past the collection length is
/// rejected too, and so is a face with no normal indices at all.
#[test]
fn test_geometry_try_from_triangle_faces_with_vertices_and_normals_bounds_check() {
    let (_, vertices, normals) = quad_with_normals();
    let faces = vec![tf_vn(0, 1, 2), tf_vn(2, 3, 4)];

    assert!(Geometry::try_from_triangle_faces_with_vertices_and_normals(
        faces,
        vertices.clone(),
        normals.clone()
    )
    .is_none());

    let bare = vec![tf_v(0, 1, 2)];
    assert!(Geometry::try_from_triangle_faces_with_vertices_and_normals(bare, vertices, normals)
        .is_none());
}

/// Well-formed input passes the checked constructor.
#[test]
fn test_geometry_try_from_accepts_valid_input() {
    let (faces, vertices) = quad();
    let geometry = Geometry::try_from_triangle_faces_with_vertices(faces, vertices);
    assert!(geometry.is_some());
    assert_eq!(geometry.unwrap().triangle_faces_len(), 2);
}

#[test]
fn test_builders_have_expected_counts() {
    let s: i64 = 1000000;
    let pos = [0i64, 0, 0];

    let plane_a = plane_same_len(pos, s);
    assert_eq!(plane_a.vertices().len(), 6);
    assert_eq!(plane_a.normals().len(), 6);
    assert_eq!(plane_a.faces().len(), 2);

    let plane_b = plane_var_len(pos, s);
    assert_eq!(plane_b.vertices().len(), 6);
    assert_eq!(plane_b.normals().len(), 1);
    assert_eq!(plane_b.faces().len(), 2);

    let cube_a = cube_same_len(pos, s);
    assert_eq!(cube_a.vertices().len(), 8);
    assert_eq!(cube_a.normals().len(), 8);
    assert_eq!(cube_a.faces().len(), 12);

    let cube_b = uv_cube_same_len(pos, s);
    assert_eq!(cube_b.vertices().len(), 24);
    assert_eq!(cube_b.normals().len(), 24);
    assert_eq!(cube_b.faces().len(), 12);

    let cube_c = uv_cube_var_len(pos, s);
    assert_eq!(cube_c.vertices().len(), 8);
    assert_eq!(cube_c.normals().len(), 6);
    assert_eq!(cube_c.faces().len(), 12);
}

#[test]
fn test_builder_positions_are_scaled_and_translated() {
    let s: i64 = 500;
    let pos = [10i64, 20, 30];
    let plane = plane_same_len(pos, s);
    assert_eq!(plane.vertices()[0], p(-500 + 10, -500 + 20, 30));
    assert_eq!(plane.vertices()[2], p(500 + 10, 500 + 20, 30));
}

#[test]
fn test_face_helpers() {
    let a = tf_vn(1, 2, 3);
    assert_eq!(a.vertices, (1, 2, 3));
    assert_eq!(a.normals, Some((1, 2, 3)));

    let b = tf_vn_separate(1, 2, 3, 4, 5, 6);
    assert_eq!(b.vertices, (1, 2, 3));
    assert_eq!(b.normals, Some((4, 5, 6)));

    let r = b.to_reverted();
    assert_eq!(r.vertices, (3, 2, 1));
    assert_eq!(r.normals, Some((6, 5, 4)));
    assert!(b.is_reverted(r));
}

#[test]
fn test_compute_centroid_is_the_truncated_mean() {
    let vertices = vec![p(0, 0, 0), p(2, 4, 7), p(5, 5, 5)];
    let faces = vec![tf_v(0, 1, 2)];
    let geometry = Geometry::from_triangle_faces_with_vertices(faces, vertices);
    let centroid = compute_centroid(&vec![geometry]);
    // (0 + 2 + 5) / 3 = 2, (0 + 4 + 5) / 3 = 3, (0 + 7 + 5) / 3 = 4.
    assert_eq!(centroid, p(2, 3, 4));
}

#[test]
fn test_compute_bounding_sphere_encloses_all_vertices() {
    let vertices = vec![p(0, 0, 0), p(6, 8, 0), p(0, 0, 0)];
    let faces = vec![tf_v(0, 1, 2)];
    let geometry = Geometry::from_triangle_faces_with_vertices(faces, vertices);
    let (centroid, radius) = compute_bounding_sphere(&vec![geometry]);
    assert_eq!(centroid, p(2, 2, 0));
    // The farthest vertex sits at squared distance 52; its distance
    // rounds down to 7.
    assert_eq!(radius, 7);
}
