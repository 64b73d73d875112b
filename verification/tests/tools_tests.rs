//! Winding synchronization, face reversion, welding, component
//! separation and joining, on fixture meshes on the integer grid (one
//! unit is a millionth of the original unit).

use mesh_kernel::geometry;
use mesh_kernel::geometry::{Face, Geometry, Point, TriangleFace, Vector};
use mesh_kernel::mesh_analysis;
use mesh_kernel::mesh_tools::{
    join_meshes, revert_mesh_faces, separate_isolated_meshes, synchronize_mesh_winding, weld,
};
use mesh_kernel::mesh_topology_analysis;

const S: i64 = 1000000;

fn v(x: i64, y: i64, z: i64) -> Point {
    Point { x: x * S, y: y * S, z: z * S }
}

fn n(x: i64, y: i64, z: i64) -> Vector {
    Vector { x: x * S, y: y * S, z: z * S }
}

fn tessellated_triangle_geometry_after_welding() -> Geometry {
    let vertices = vec![
        v(-2, -2, 0),
        v(0, -2, 0),
        v(2, -2, 0),
        v(-1, 0, 0),
        v(1, 0, 0),
        v(0, 2, 0),
    ];

    let vertex_normals = vec![
        n(0, 0, 1),
        n(0, 0, 1),
        n(0, 0, 1),
        n(0, 0, 1),
        n(0, 0, 1),
        n(0, 0, 1),
    ];

    let faces = vec![
        TriangleFace::new_separate(0, 1, 3, 0, 1, 3),
        TriangleFace::new_separate(1, 4, 3, 1, 4, 3),
        TriangleFace::new_separate(1, 2, 4, 1, 2, 4),
        TriangleFace::new_separate(3, 4, 5, 3, 4, 5),
    ];

    Geometry::from_triangle_faces_with_vertices_and_normals(faces, vertices, vertex_normals)
}

fn tessellated_triangle_geometry_for_welding() -> Geometry {
    let vertices = vec![
        v(-2, -2, 0),
        v(0, -2, 0),
        v(-1, 0, 0),
        v(0, -2, 0),
        v(2, -2, 0),
        v(1, 0, 0),
        v(1, 0, 0),
        v(-1, 0, 0),
        v(0, -2, 0),
        v(-1, 0, 0),
        v(1, 0, 0),
        v(0, 2, 0),
    ];

    let vertex_normals = vec![n(0, 0, 1)];

    let faces = vec![
        TriangleFace::new_separate(0, 1, 2, 0, 0, 0),
        TriangleFace::new_separate(3, 4, 5, 0, 0, 0),
        TriangleFace::new_separate(6, 7, 8, 0, 0, 0),
        TriangleFace::new_separate(9, 10, 11, 0, 0, 0),
    ];

    Geometry::from_triangle_faces_with_vertices_and_normals(faces, vertices, vertex_normals)
}

fn tessellated_triangle_geometry() -> Geometry {
    let vertices = vec![
        v(-2, -2, 0),
        v(0, -2, 0),
        v(2, -2, 0),
        v(-1, 0, 0),
        v(1, 0, 0),
        v(0, 2, 0),
    ];

    let vertex_normals = vec![n(0, 0, 1)];

    let faces = vec![
        TriangleFace::new_separate(0, 3, 1, 0, 0, 0),
        TriangleFace::new_separate(1, 3, 4, 0, 0, 0),
        TriangleFace::new_separate(1, 4, 2, 0, 0, 0),
        TriangleFace::new_separate(3, 5, 4, 0, 0, 0),
    ];

    Geometry::from_triangle_faces_with_vertices_and_normals(faces, vertices, vertex_normals)
}

fn empty_geometry() -> Geometry {
    Geometry::from_triangle_faces_with_vertices_and_normals(vec![], vec![], vec![])
}

fn tessellated_triangle_with_island_geometry() -> Geometry {
    let vertices = vec![
        v(-2, -2, 0),
        v(0, -2, 0),
        v(2, -2, 0),
        v(-1, 0, 0),
        v(1, 0, 0),
        v(0, 2, 0),
        v(-1, 0, 1),
        v(1, 0, 1),
        v(0, 2, 1),
    ];

    let vertex_normals = vec![n(0, 0, 1), n(0, 0, 1)];

    let faces = vec![
        TriangleFace::new_separate(0, 3, 1, 0, 0, 0),
        TriangleFace::new_separate(1, 3, 4, 0, 0, 0),
        TriangleFace::new_separate(1, 4, 2, 0, 0, 0),
        TriangleFace::new_separate(3, 5, 4, 0, 0, 0),
        TriangleFace::new_separate(6, 7, 8, 1, 1, 1),
    ];

    Geometry::from_triangle_faces_with_vertices_and_normals(faces, vertices, vertex_normals)
}

fn tessellated_triangle_with_island_geometry_with_flipped_face() -> Geometry {
    let vertices = vec![
        v(-2, -2, 0),
        v(0, -2, 0),
        v(2, -2, 0),
        v(-1, 0, 0),
        v(1, 0, 0),
        v(0, 2, 0),
        v(-1, 0, 1),
        v(1, 0, 1),
        v(0, 2, 1),
    ];

    let vertex_normals = vec![n(0, 0, 1), n(0, 0, 1)];

    let faces = vec![
        TriangleFace::new_separate(0, 3, 1, 0, 0, 0),
        TriangleFace::new_separate(1, 3, 4, 0, 0, 0),
        TriangleFace::new_separate(2, 4, 1, 0, 0, 0),
        TriangleFace::new_separate(3, 5, 4, 0, 0, 0),
        TriangleFace::new_separate(6, 7, 8, 1, 1, 1),
    ];

    Geometry::from_triangle_faces_with_vertices_and_normals(faces, vertices, vertex_normals)
}

fn triangular_island_geometry() -> Geometry {
    let vertices = vec![v(-1, 0, 1), v(1, 0, 1), v(0, 2, 1)];

    let vertex_normals = vec![n(0, 0, 1)];

    let faces = vec![TriangleFace::new_separate(0, 1, 2, 0, 0, 0)];

    Geometry::from_triangle_faces_with_vertices_and_normals(faces, vertices, vertex_normals)
}

fn cube_sharp_same_len() -> Geometry {
    let vertex_positions = vec![
        v(-1, 1, -1),
        v(-1, 1, 1),
        v(1, 1, 1),
        v(1, 1, -1),
        v(-1, -1, -1),
        v(1, -1, -1),
        v(1, -1, 1),
        v(-1, -1, 1),
        v(-1, 1, 1),
        v(-1, -1, 1),
        v(1, -1, 1),
        v(1, 1, 1),
        v(-1, 1, -1),
        v(1, 1, -1),
        v(1, -1, -1),
        v(-1, -1, -1),
        v(1, 1, -1),
        v(1, 1, 1),
        v(1, -1, 1),
        v(1, -1, -1),
        v(-1, 1, -1),
        v(-1, -1, -1),
        v(-1, -1, 1),
        v(-1, 1, 1),
    ];

    let vertex_normals = vec![
        n(0, 1, 0),
        n(0, 1, 0),
        n(0, 1, 0),
        n(0, 1, 0),
        n(0, -1, 0),
        n(0, -1, 0),
        n(0, -1, 0),
        n(0, -1, 0),
        n(0, 0, 1),
        n(0, 0, 1),
        n(0, 0, 1),
        n(0, 0, 1),
        n(0, 0, -1),
        n(0, 0, -1),
        n(0, 0, -1),
        n(0, 0, -1),
        n(1, 0, 0),
        n(1, 0, 0),
        n(1, 0, 0),
        n(1, 0, 0),
        n(-1, 0, 0),
        n(-1, 0, 0),
        n(-1, 0, 0),
        n(-1, 0, 0),
    ];

    let faces = vec![
        TriangleFace::new(0, 1, 2),
        TriangleFace::new(2, 3, 0),
        TriangleFace::new(4, 5, 6),
        TriangleFace::new(6, 7, 4),
        TriangleFace::new(8, 9, 10),
        TriangleFace::new(10, 11, 8),
        TriangleFace::new(12, 13, 14),
        TriangleFace::new(14, 15, 12),
        TriangleFace::new(16, 17, 18),
        TriangleFace::new(18, 19, 16),
        TriangleFace::new(20, 21, 22),
        TriangleFace::new(22, 23, 20),
    ];

    Geometry::from_triangle_faces_with_vertices_and_normals(faces, vertex_positions, vertex_normals)
}

fn cube_smooth_var_len_like_after_welding() -> Geometry {
    let vertex_positions = vec![
        v(-1, 1, -1),
        v(-1, 1, 1),
        v(1, 1, 1),
        v(1, 1, -1),
        v(-1, -1, -1),
        v(1, -1, -1),
        v(1, -1, 1),
        v(-1, -1, 1),
    ];

    // The mean of three unit axis normals, truncated towards zero on
    // the grid: a third of the scale.
    let t: i64 = S / 3;
    let vertex_normals = vec![
        Vector { x: -t, y: t, z: -t },
        Vector { x: -t, y: t, z: t },
        Vector { x: t, y: t, z: t },
        Vector { x: t, y: t, z: -t },
        Vector { x: -t, y: -t, z: -t },
        Vector { x: t, y: -t, z: -t },
        Vector { x: t, y: -t, z: t },
        Vector { x: -t, y: -t, z: t },
    ];

    let faces = vec![
        TriangleFace::new(0, 1, 2),
        TriangleFace::new(2, 3, 0),
        TriangleFace::new(4, 5, 6),
        TriangleFace::new(6, 7, 4),
        TriangleFace::new(7, 6, 1),
        TriangleFace::new(2, 1, 6),
        TriangleFace::new(5, 0, 3),
        TriangleFace::new(0, 5, 4),
        TriangleFace::new(6, 3, 2),
        TriangleFace::new(3, 6, 5),
        TriangleFace::new(4, 7, 0),
        TriangleFace::new(1, 0, 7),
    ];

    Geometry::from_triangle_faces_with_vertices_and_normals(faces, vertex_positions, vertex_normals)
}

#[test]
fn test_separate_isolated_meshes_returns_similar_for_tessellated_triangle() {
    let geometry = tessellated_triangle_geometry();

    let calculated_geometries = separate_isolated_meshes(&geometry);

    assert_eq!(calculated_geometries.len(), 1);
    assert!(mesh_analysis::are_similar(&calculated_geometries[0], &geometry));
}

#[test]
fn test_separate_isolated_meshes_returns_similar_for_cube() {
    let geometry = geometry::uv_cube_var_len([0, 0, 0], S);

    let calculated_geometries = separate_isolated_meshes(&geometry);

    assert_eq!(calculated_geometries.len(), 1);
    assert!(mesh_analysis::are_similar(&geometry, &calculated_geometries[0]));
}

#[test]
fn test_separate_isolated_meshes_returns_similar_for_tessellated_triangle_with_island() {
    let geometry = tessellated_triangle_with_island_geometry();
    let geometry_triangle_correct = tessellated_triangle_geometry();
    let geometry_island_correct = triangular_island_geometry();

    let calculated_geometries = separate_isolated_meshes(&geometry);

    assert_eq!(calculated_geometries.len(), 2);

    if mesh_analysis::are_similar(&calculated_geometries[0], &geometry_triangle_correct) {
        assert!(mesh_analysis::are_similar(
            &calculated_geometries[1],
            &geometry_island_correct
        ));
    } else {
        assert!(mesh_analysis::are_similar(
            &calculated_geometries[1],
            &geometry_triangle_correct
        ));
        assert!(mesh_analysis::are_similar(
            &calculated_geometries[0],
            &geometry_island_correct
        ));
    }
}

#[test]
fn test_mesh_tools_revert_mesh_faces() {
    let test_geometry = geometry::uv_cube_var_len([0, 0, 0], S);

    let calculated_geometry = revert_mesh_faces(&test_geometry);

    assert_eq!(test_geometry.faces().len(), calculated_geometry.faces().len());

    assert!(calculated_geometry.faces().iter().all(|face| match face {
        Face::Triangle(f) => test_geometry
            .faces()
            .iter()
            .any(|other_face| match other_face {
                Face::Triangle(o_f) => o_f.is_reverted(*f),
            }),
    }));
}

#[test]
fn test_mesh_tools_synchronize_mesh_winding() {
    let test_geometry = tessellated_triangle_with_island_geometry_with_flipped_face();
    let test_geometry_correct = tessellated_triangle_with_island_geometry();

    let unoriented_edges = test_geometry.unoriented_edges();
    let edge_to_face =
        mesh_topology_analysis::edge_to_face_topology(&test_geometry, &unoriented_edges);

    let calculated_geometry =
        synchronize_mesh_winding(&test_geometry, &unoriented_edges, &edge_to_face);

    assert_eq!(test_geometry_correct, calculated_geometry);
}

#[test]
fn test_weld_tesselated_triangle() {
    let geometry = tessellated_triangle_geometry_for_welding();
    let geometry_after_welding_correct = tessellated_triangle_geometry_after_welding();

    // One tenth of the original unit.
    let geometry_after_welding = weld(&geometry, S / 10);

    assert!(mesh_analysis::are_similar(
        &geometry_after_welding_correct,
        &geometry_after_welding
    ));
}

#[test]
fn test_weld_cube_sharp_same_len() {
    let geometry = cube_sharp_same_len();
    let geometry_after_welding_correct = cube_smooth_var_len_like_after_welding();

    let geometry_after_welding = weld(&geometry, S / 10);

    assert!(mesh_analysis::are_similar(
        &geometry_after_welding_correct,
        &geometry_after_welding
    ));
}

/// A geometry with no two vertices within tolerance welds to itself:
/// same counts, same positions.
#[test]
fn test_weld_is_idempotent_on_welded_geometry() {
    let geometry = tessellated_triangle_geometry_after_welding();
    let rewelded = weld(&geometry, S / 10);

    assert_eq!(rewelded.vertices().len(), geometry.vertices().len());
    assert_eq!(rewelded.faces().len(), geometry.faces().len());
    assert_eq!(rewelded.normals().len(), geometry.normals().len());
    for p in rewelded.vertices() {
        assert!(geometry.vertices().contains(p));
    }
    assert!(mesh_analysis::are_similar(&rewelded, &geometry));
}

#[test]
fn test_join_meshes_tessellated_triangle_and_empty() {
    let tessellated_triangle_geometry = tessellated_triangle_geometry();
    let empty_geometry = empty_geometry();

    let calculated_geometry = join_meshes(&tessellated_triangle_geometry, &empty_geometry);

    assert_eq!(&tessellated_triangle_geometry, &calculated_geometry);
}

#[test]
fn test_join_meshes_tessellated_empty_and_triangle() {
    let empty_geometry = empty_geometry();
    let tessellated_triangle_geometry = tessellated_triangle_geometry();

    let calculated_geometry = join_meshes(&empty_geometry, &tessellated_triangle_geometry);

    assert_eq!(&tessellated_triangle_geometry, &calculated_geometry);
}

#[test]
fn test_join_meshes_returns_tessellated_triangle_with_island() {
    let tessellated_triangle = tessellated_triangle_geometry();
    let triangular_island = triangular_island_geometry();

    let geometry_correct = tessellated_triangle_with_island_geometry();

    let calculated_geometry = join_meshes(&tessellated_triangle, &triangular_island);

    assert_eq!(&geometry_correct, &calculated_geometry);
}

/// Every face of a two-patch mesh lands in exactly one of the two
/// returned geometries.
#[test]
fn test_separate_isolated_meshes_counts_every_face_once() {
    let geometry = tessellated_triangle_with_island_geometry();
    let patches = separate_isolated_meshes(&geometry);

    let total: usize = patches.iter().map(|p| p.faces().len()).sum();
    assert_eq!(total, geometry.faces().len());
}

/// After synchronization, every undirected edge two faces share is
/// walked by them in opposite directions.
#[test]
fn test_synchronize_mesh_winding_makes_shared_edges_opposite() {
    let test_geometry = tessellated_triangle_with_island_geometry_with_flipped_face();
    let unoriented_edges = test_geometry.unoriented_edges();
    let edge_to_face =
        mesh_topology_analysis::edge_to_face_topology(&test_geometry, &unoriented_edges);
    let synchronized =
        synchronize_mesh_winding(&test_geometry, &unoriented_edges, &edge_to_face);

    let faces = synchronized.triangle_faces();
    for i in 0..faces.len() {
        for j in 0..faces.len() {
            if i == j {
                continue;
            }
            for a in faces[i].to_oriented_edges() {
                for b in faces[j].to_oriented_edges() {
                    let same_undirected = (a.vertices.0 == b.vertices.0
                        && a.vertices.1 == b.vertices.1)
                        || (a.vertices.0 == b.vertices.1 && a.vertices.1 == b.vertices.0);
                    if same_undirected {
                        assert_eq!(b, a.to_reverted());
                    }
                }
            }
        }
    }
}
