//! Laplacian smoothing behaviour, on fixture meshes transcribed onto
//! the integer grid (one unit is a millionth of the original unit).

use mesh_kernel::edge_analysis;
use mesh_kernel::geometry::{Geometry, Point, TriangleFace};
use mesh_kernel::mesh_analysis;
use mesh_kernel::mesh_smoothing::laplacian_smoothing;
use mesh_kernel::mesh_topology_analysis;

fn p(x: i64, y: i64, z: i64) -> Point {
    Point { x, y, z }
}

fn tf(a: u32, b: u32, c: u32) -> TriangleFace {
    TriangleFace { vertices: (a, b, c), normals: None }
}

fn geometry_of(faces: Vec<TriangleFace>, vertices: Vec<Point>) -> Geometry {
    Geometry::from_triangle_faces_with_vertices(faces, vertices)
}

/// Componentwise distance check: within `tol` grid units.
fn close(a: &Point, b: &Point, tol: i64) -> bool {
    (a.x - b.x).abs() <= tol && (a.y - b.y).abs() <= tol && (a.z - b.z).abs() <= tol
}

/// The original comparison allowed a relative slack of one thousandth.
fn rel_close(a: &Point, b: &Point) -> bool {
    let slack = |u: i64, v: i64| {
        let m = u.abs().max(v.abs());
        (u - v).abs() <= 1000.max(m / 1000)
    };
    slack(a.x, b.x) && slack(a.y, b.y) && slack(a.z, b.z)
}


fn torus() -> (Vec<TriangleFace>, Vec<Point>) {
    let vertices = vec![
        p(566987, 0, 250000),
        p(-716506, 1241025, 250000),
        p(-283494, 491025, 250000),
        p(-716506, -1241025, 250000),
        p(-283494, -491025, 250000),
        p(1000000, 0, -500000),
        p(1433013, 0, 250000),
        p(-500000, 866025, -500000),
        p(-500000, -866025, -500000),
    ];
    let faces = vec![
        tf(4, 3, 6),
        tf(0, 6, 2),
        tf(2, 1, 3),
        tf(8, 4, 0),
        tf(3, 8, 6),
        tf(5, 0, 7),
        tf(6, 5, 7),
        tf(7, 2, 4),
        tf(1, 7, 8),
        tf(4, 6, 0),
        tf(6, 1, 2),
        tf(2, 3, 4),
        tf(8, 0, 5),
        tf(8, 5, 6),
        tf(0, 2, 7),
        tf(6, 7, 1),
        tf(7, 4, 8),
        tf(1, 8, 3),
    ];
    (faces, vertices)
}

fn triple_torus() -> (Vec<TriangleFace>, Vec<Point>) {
    let vertices = vec![
        p(15566987, 0, 250000),
        p(14283494, 1241025, 250000),
        p(14716506, 491025, 250000),
        p(14283494, -1241025, 250000),
        p(14716506, -491025, 250000),
        p(16000000, 750000, 250000),
        p(15149519, 1241025, 250000),
        p(16000000, 1732051, 250000),
        p(16108253, 187500, -500000),
        p(16433012, 0, 250000),
        p(14716506, 1991025, 250000),
        p(15566987, 2482051, 250000),
        p(14283494, 3723076, 250000),
        p(14716506, 2973076, 250000),
        p(14554127, 1334775, -500000),
        p(14500000, -866025, -500000),
        p(14500000, 3348076, -500000),
        p(16108253, 2294551, -500000),
        p(16433012, 2482051, 250000),
    ];
    let faces = vec![
        tf(4, 3, 0),
        tf(0, 9, 1),
        tf(2, 1, 3),
        tf(7, 5, 9),
        tf(5, 6, 9),
        tf(6, 7, 18),
        tf(15, 4, 0),
        tf(3, 15, 9),
        tf(10, 1, 11),
        tf(11, 18, 12),
        tf(13, 12, 1),
        tf(14, 2, 15),
        tf(1, 14, 15),
        tf(8, 0, 2),
        tf(8, 14, 6),
        tf(16, 13, 10),
        tf(12, 16, 1),
        tf(17, 8, 7),
        tf(18, 9, 8),
        tf(14, 17, 6),
        tf(17, 11, 16),
        tf(18, 17, 16),
        tf(14, 10, 17),
        tf(3, 9, 0),
        tf(0, 1, 2),
        tf(2, 3, 4),
        tf(7, 9, 18),
        tf(6, 1, 9),
        tf(6, 18, 1),
        tf(15, 0, 8),
        tf(15, 8, 9),
        tf(1, 18, 11),
        tf(11, 12, 13),
        tf(13, 1, 10),
        tf(2, 4, 15),
        tf(1, 15, 3),
        tf(8, 2, 14),
        tf(8, 6, 5),
        tf(16, 10, 14),
        tf(16, 14, 1),
        tf(8, 5, 7),
        tf(18, 8, 17),
        tf(17, 7, 6),
        tf(11, 13, 16),
        tf(18, 16, 12),
        tf(10, 11, 17),
    ];
    (faces, vertices)
}

fn triple_torus_laplacian_1_iteration() -> (Vec<TriangleFace>, Vec<Point>) {
    let vertices = vec![
        p(15005895, -96932, 35714),
        p(15032319, 1381472, 76923),
        p(14858980, 23604, -71429),
        p(15036084, 62500, 125000),
        p(14766747, -404006, 62500),
        p(15922696, 790144, 62500),
        p(15740019, 1252744, -31250),
        p(16038675, 1159188, 0),
        p(15546142, 945945, 25000),
        p(15369418, 614067, 83333),
        p(14954895, 2278926, -125000),
        p(15005895, 2578983, 35714),
        p(15100000, 2505256, 100000),
        p(14670096, 2557051, 100000),
        p(15010316, 1241025, -125000),
        p(15082797, 190284, 62500),
        p(15082797, 2315204, 62500),
        p(15378551, 1849819, -31250),
        p(15381446, 1805484, 0),
    ];
    let faces = vec![
        tf(4, 3, 0),
        tf(0, 9, 1),
        tf(2, 1, 3),
        tf(7, 5, 9),
        tf(5, 6, 9),
        tf(6, 7, 18),
        tf(15, 4, 0),
        tf(3, 15, 9),
        tf(10, 1, 11),
        tf(11, 18, 12),
        tf(13, 12, 1),
        tf(14, 2, 15),
        tf(1, 14, 15),
        tf(8, 0, 2),
        tf(8, 14, 6),
        tf(16, 13, 10),
        tf(12, 16, 1),
        tf(17, 8, 7),
        tf(18, 9, 8),
        tf(14, 17, 6),
        tf(17, 11, 16),
        tf(18, 17, 16),
        tf(14, 10, 17),
        tf(3, 9, 0),
        tf(0, 1, 2),
        tf(2, 3, 4),
        tf(7, 9, 18),
        tf(6, 1, 9),
        tf(6, 18, 1),
        tf(15, 0, 8),
        tf(15, 8, 9),
        tf(1, 18, 11),
        tf(11, 12, 13),
        tf(13, 1, 10),
        tf(2, 4, 15),
        tf(1, 15, 3),
        tf(8, 2, 14),
        tf(8, 6, 5),
        tf(16, 10, 14),
        tf(16, 14, 1),
        tf(8, 5, 7),
        tf(18, 8, 17),
        tf(17, 7, 6),
        tf(11, 13, 16),
        tf(18, 16, 12),
        tf(10, 11, 17),
    ];
    (faces, vertices)
}

fn triple_torus_laplacian_3_iterations() -> (Vec<TriangleFace>, Vec<Point>) {
    let vertices = vec![
        p(15151657, 617585, 28723),
        p(15151801, 1310818, 28865),
        p(15125829, 671169, 24560),
        p(15127048, 592897, 35489),
        p(15066285, 408004, 39398),
        p(15453969, 1037088, 16901),
        p(15381245, 1231292, 13342),
        p(15440678, 1208557, 14121),
        p(15327691, 1020512, 21627),
        p(15303463, 935796, 24711),
        p(15140347, 1774271, 9292),
        p(15139611, 1857752, 20585),
        p(15130695, 1858242, 23035),
        p(15063364, 1914324, 24865),
        p(15190910, 1261720, 12169),
        p(15161481, 691733, 27817),
        p(15150735, 1794786, 20292),
        p(15269145, 1541168, 13697),
        p(15271970, 1492211, 16929),
    ];
    let faces = vec![
        tf(4, 3, 0),
        tf(0, 9, 1),
        tf(2, 1, 3),
        tf(7, 5, 9),
        tf(5, 6, 9),
        tf(6, 7, 18),
        tf(15, 4, 0),
        tf(3, 15, 9),
        tf(10, 1, 11),
        tf(11, 18, 12),
        tf(13, 12, 1),
        tf(14, 2, 15),
        tf(1, 14, 15),
        tf(8, 0, 2),
        tf(8, 14, 6),
        tf(16, 13, 10),
        tf(12, 16, 1),
        tf(17, 8, 7),
        tf(18, 9, 8),
        tf(14, 17, 6),
        tf(17, 11, 16),
        tf(18, 17, 16),
        tf(14, 10, 17),
        tf(3, 9, 0),
        tf(0, 1, 2),
        tf(2, 3, 4),
        tf(7, 9, 18),
        tf(6, 1, 9),
        tf(6, 18, 1),
        tf(15, 0, 8),
        tf(15, 8, 9),
        tf(1, 18, 11),
        tf(11, 12, 13),
        tf(13, 1, 10),
        tf(2, 4, 15),
        tf(1, 15, 3),
        tf(8, 2, 14),
        tf(8, 6, 5),
        tf(16, 10, 14),
        tf(16, 14, 1),
        tf(8, 5, 7),
        tf(18, 8, 17),
        tf(17, 7, 6),
        tf(11, 13, 16),
        tf(18, 16, 12),
        tf(10, 11, 17),
    ];
    (faces, vertices)
}

fn shape_for_smoothing_with_anchors() -> (Vec<TriangleFace>, Vec<Point>) {
    let vertices = vec![
        p(30217960, -6119943, 0),
        p(32031532, 1328689, 0),
        p(33875141, -3522298, 3718605),
        p(34571838, -2071111, 2778350),
        p(34778172, -5285372, 3718605),
        p(36243252, -3801940, 3718605),
        p(36741604, -10146505, 0),
        p(39676025, 1905633, 0),
        p(42587009, -5186427, 0),
    ];
    let faces = vec![
        tf(4, 8, 5),
        tf(4, 6, 8),
        tf(5, 8, 7),
        tf(3, 5, 7),
        tf(0, 2, 1),
        tf(1, 2, 3),
        tf(0, 4, 2),
        tf(1, 3, 7),
        tf(0, 6, 4),
        tf(2, 4, 5),
        tf(2, 5, 3),
    ];
    (faces, vertices)
}

fn shape_for_smoothing_with_anchors_50_iterations() -> (Vec<TriangleFace>, Vec<Point>) {
    let vertices = vec![
        p(30217960, -6119943, 0),
        p(32031532, 1328689, 0),
        p(34491065, -2551039, 0),
        p(36006320, -404003, 0),
        p(36372859, -5260642, 0),
        p(37826656, -2299296, 0),
        p(36741604, -10146505, 0),
        p(39676025, 1905633, 0),
        p(42587009, -5186427, 0),
    ];
    let faces = vec![
        tf(4, 8, 5),
        tf(4, 6, 8),
        tf(5, 8, 7),
        tf(3, 5, 7),
        tf(0, 2, 1),
        tf(1, 2, 3),
        tf(0, 4, 2),
        tf(1, 3, 7),
        tf(0, 6, 4),
        tf(2, 4, 5),
        tf(2, 5, 3),
    ];
    (faces, vertices)
}


#[test]
fn test_laplacian_smoothing_preserves_face_vertex_normal_count() {
    let (faces, vertices) = torus();
    let geometry = geometry_of(faces, vertices);

    let vertex_to_vertex_topology =
        mesh_topology_analysis::vertex_to_vertex_topology(&geometry);
    let empty: Vec<u32> = vec![];
    let (relaxed_geometry_0, _, _) =
        laplacian_smoothing(&geometry, &vertex_to_vertex_topology, 0, &empty, false);
    let (relaxed_geometry_1, _, _) =
        laplacian_smoothing(&geometry, &vertex_to_vertex_topology, 1, &empty, false);
    let (relaxed_geometry_10, _, _) =
        laplacian_smoothing(&geometry, &vertex_to_vertex_topology, 10, &empty, false);

    assert_eq!(relaxed_geometry_0.faces().len(), geometry.faces().len());
    assert_eq!(relaxed_geometry_1.faces().len(), geometry.faces().len());
    assert_eq!(relaxed_geometry_10.faces().len(), geometry.faces().len());
    assert_eq!(relaxed_geometry_0.vertices().len(), geometry.vertices().len());
    assert_eq!(relaxed_geometry_1.vertices().len(), geometry.vertices().len());
    assert_eq!(relaxed_geometry_10.vertices().len(), geometry.vertices().len());
    assert_eq!(relaxed_geometry_0.normals().len(), geometry.normals().len());
    assert_eq!(relaxed_geometry_1.normals().len(), geometry.normals().len());
    assert_eq!(relaxed_geometry_10.normals().len(), geometry.normals().len());
}

#[test]
fn test_laplacian_smoothing() {
    let (faces, vertices) = triple_torus();
    let geometry = geometry_of(faces, vertices);

    let (faces_1_i, vertices_1_i) = triple_torus_laplacian_1_iteration();
    let test_geometry_1_i = geometry_of(faces_1_i, vertices_1_i);

    let (faces_3_i, vertices_3_i) = triple_torus_laplacian_3_iterations();
    let test_geometry_3_i = geometry_of(faces_3_i, vertices_3_i);

    let vertex_to_vertex_topology =
        mesh_topology_analysis::vertex_to_vertex_topology(&geometry);
    let empty: Vec<u32> = vec![];
    let (relaxed_geometry_0_i, _, _) =
        laplacian_smoothing(&geometry, &vertex_to_vertex_topology, 0, &empty, false);
    let (relaxed_geometry_1_i, _, _) =
        laplacian_smoothing(&geometry, &vertex_to_vertex_topology, 1, &empty, false);
    let (relaxed_geometry_3_i, _, _) =
        laplacian_smoothing(&geometry, &vertex_to_vertex_topology, 3, &empty, false);

    assert_eq!(relaxed_geometry_0_i.faces(), geometry.faces());
    assert_eq!(relaxed_geometry_1_i.faces(), test_geometry_1_i.faces());
    assert_eq!(relaxed_geometry_3_i.faces(), test_geometry_3_i.faces());

    // One hundredth of the original unit.
    let tolerance: i64 = 10000;
    for i in 0..geometry.vertices().len() {
        assert!(close(&relaxed_geometry_0_i.vertices()[i], &geometry.vertices()[i], tolerance));
        assert!(close(
            &relaxed_geometry_1_i.vertices()[i],
            &test_geometry_1_i.vertices()[i],
            tolerance
        ));
        assert!(close(
            &relaxed_geometry_3_i.vertices()[i],
            &test_geometry_3_i.vertices()[i],
            tolerance
        ));
    }
}

#[test]
fn test_laplacian_smoothing_with_anchors() {
    let (faces, vertices) = shape_for_smoothing_with_anchors();
    let geometry = geometry_of(faces, vertices);

    let fixed_vertex_indices: Vec<u32> = vec![0, 1, 7, 8, 6];

    let (faces_correct, vertices_correct) = shape_for_smoothing_with_anchors_50_iterations();
    let test_geometry_correct = geometry_of(faces_correct, vertices_correct);

    let vertex_to_vertex_topology =
        mesh_topology_analysis::vertex_to_vertex_topology(&geometry);
    let (relaxed_geometry, _, _) = laplacian_smoothing(
        &geometry,
        &vertex_to_vertex_topology,
        50,
        &fixed_vertex_indices,
        false,
    );

    assert_eq!(relaxed_geometry.faces(), test_geometry_correct.faces());

    let tolerance: i64 = 10000;
    for i in 0..test_geometry_correct.vertices().len() {
        assert!(close(
            &relaxed_geometry.vertices()[i],
            &test_geometry_correct.vertices()[i],
            tolerance
        ));
    }
}

#[test]
fn test_laplacian_smoothing_with_anchors_find_border_vertices() {
    let (faces, vertices) = shape_for_smoothing_with_anchors();
    let geometry = geometry_of(faces, vertices);

    let oriented_edges = geometry.oriented_edges();
    let edge_sharing_map = edge_analysis::edge_sharing(&oriented_edges);
    let fixed_vertex_indices = mesh_analysis::border_vertex_indices(&edge_sharing_map);

    let (faces_correct, vertices_correct) = shape_for_smoothing_with_anchors_50_iterations();
    let test_geometry_correct = geometry_of(faces_correct, vertices_correct);

    let vertex_to_vertex_topology =
        mesh_topology_analysis::vertex_to_vertex_topology(&geometry);
    let (relaxed_geometry, _, _) = laplacian_smoothing(
        &geometry,
        &vertex_to_vertex_topology,
        50,
        &fixed_vertex_indices,
        false,
    );

    assert_eq!(relaxed_geometry.faces(), test_geometry_correct.faces());

    for i in 0..test_geometry_correct.vertices().len() {
        assert!(rel_close(
            &relaxed_geometry.vertices()[i],
            &test_geometry_correct.vertices()[i]
        ));
    }
}

#[test]
fn test_laplacian_smoothing_with_anchors_stop_when_stable_find_border_vertices() {
    let (faces, vertices) = shape_for_smoothing_with_anchors();
    let geometry = geometry_of(faces, vertices);

    let oriented_edges = geometry.oriented_edges();
    let edge_sharing_map = edge_analysis::edge_sharing(&oriented_edges);
    let fixed_vertex_indices = mesh_analysis::border_vertex_indices(&edge_sharing_map);

    let (faces_correct, vertices_correct) = shape_for_smoothing_with_anchors_50_iterations();
    let test_geometry_correct = geometry_of(faces_correct, vertices_correct);

    let vertex_to_vertex_topology =
        mesh_topology_analysis::vertex_to_vertex_topology(&geometry);
    let (relaxed_geometry, _, _) = laplacian_smoothing(
        &geometry,
        &vertex_to_vertex_topology,
        255,
        &fixed_vertex_indices,
        true,
    );

    assert_eq!(relaxed_geometry.faces(), test_geometry_correct.faces());

    for i in 0..test_geometry_correct.vertices().len() {
        assert!(rel_close(
            &relaxed_geometry.vertices()[i],
            &test_geometry_correct.vertices()[i]
        ));
    }
}

/// A flat quad smoothed once: vertex 0 averages its three neighbours,
/// vertex 1 its two, and so on, exactly as the averaging rule says.
#[test]
fn test_laplacian_smoothing_flat_quad_one_iteration() {
    let s: i64 = 1000000;
    let vertices = vec![p(-s, -s, 0), p(s, -s, 0), p(s, s, 0), p(-s, s, 0)];
    let faces = vec![tf(0, 1, 2), tf(2, 3, 0)];
    let geometry = geometry_of(faces, vertices);

    let v2v = mesh_topology_analysis::vertex_to_vertex_topology(&geometry);
    let empty: Vec<u32> = vec![];
    let (relaxed, iterations, stable) = laplacian_smoothing(&geometry, &v2v, 1, &empty, false);

    assert_eq!(iterations, 1);
    assert!(!stable);
    // Vertex 0 and 2 have three neighbours each (the diagonal 0-2 is a
    // shared edge); vertices 1 and 3 have two.
    assert_eq!(relaxed.vertices()[0], p(333333, 333333, 0));
    assert_eq!(relaxed.vertices()[1], p(0, 0, 0));
    assert_eq!(relaxed.vertices()[2], p(-333333, -333333, 0));
    assert_eq!(relaxed.vertices()[3], p(0, 0, 0));
}

/// Anchorless smoothing on a closed mesh moves the vertices less with
/// every pass: the per-iteration displacement never grows.
#[test]
fn test_laplacian_smoothing_displacement_never_grows() {
    let (faces, vertices) = torus();
    let geometry = geometry_of(faces, vertices);
    let v2v = mesh_topology_analysis::vertex_to_vertex_topology(&geometry);
    let empty: Vec<u32> = vec![];

    let mut max_moves: Vec<i64> = vec![];
    let mut previous = geometry.vertices().clone();
    for k in 1..8u32 {
        let (relaxed, _, _) = laplacian_smoothing(&geometry, &v2v, k, &empty, false);
        let current = relaxed.vertices().clone();
        let mut max_move: i64 = 0;
        for i in 0..current.len() {
            max_move = max_move
                .max((current[i].x - previous[i].x).abs())
                .max((current[i].y - previous[i].y).abs())
                .max((current[i].z - previous[i].z).abs());
        }
        max_moves.push(max_move);
        previous = current;
    }
    for w in max_moves.windows(2) {
        assert!(w[1] <= w[0]);
    }
}
