//! Adjacency maps derived from a geometry's faces: vertex-to-vertex,
//! face-to-face and edge-to-face. All maps are plain vectors indexed by
//! the element's own index; they are recomputed from scratch on demand and
//! never updated incrementally.

use crate::geometry::{
    face_triangle, same_edge, Face, Geometry, OrientedEdge, TriangleFace, UnorientedEdge,
};
use vstd::prelude::*;

verus! {

/// Whether vertices `a` and `b` are the two endpoints of one of the
/// triangle's three edges, in either order.
pub open spec fn face_has_edge_between(t: TriangleFace, a: int, b: int) -> bool {
    ||| (t.vertices.0 == a && t.vertices.1 == b) || (t.vertices.0 == b && t.vertices.1 == a)
    ||| (t.vertices.1 == a && t.vertices.2 == b) || (t.vertices.1 == b && t.vertices.2 == a)
    ||| (t.vertices.2 == a && t.vertices.0 == b) || (t.vertices.2 == b && t.vertices.0 == a)
}

/// Whether some of the first `k` faces joins vertices `a` and `b` by an
/// edge.
pub open spec fn vertices_adjacent_upto(faces: Seq<Face>, k: int, a: int, b: int) -> bool {
    exists|i: int| 0 <= i < k && face_has_edge_between(face_triangle(#[trigger] faces[i]), a, b)
}

/// Whether some face joins vertices `a` and `b` by an edge.
pub open spec fn vertices_adjacent(faces: Seq<Face>, a: int, b: int) -> bool {
    vertices_adjacent_upto(faces, faces.len() as int, a, b)
}

/// Whether the two triangles share at least one undirected edge.
pub open spec fn tris_share_edge(a: TriangleFace, b: TriangleFace) -> bool {
    exists|i: int|
        0 <= i < 3 && b.spec_contains_unoriented_edge(
            UnorientedEdge(#[trigger] a.spec_oriented_edges()[i]),
        )
}

/// Whether faces `i` and `j` are distinct and share an undirected edge.
pub open spec fn faces_adjacent(faces: Seq<Face>, i: int, j: int) -> bool {
    i != j && tris_share_edge(face_triangle(faces[i]), face_triangle(faces[j]))
}

/// A row has no repeated entries.
pub open spec fn row_distinct(row: Seq<u32>) -> bool {
    forall|k1: int, k2: int| 0 <= k1 < k2 < row.len() ==> row[k1] != row[k2]
}

/// Whether the two triangles share an undirected edge.
pub fn tri_share_edge(a: &TriangleFace, b: &TriangleFace) -> (r: bool)
    ensures
        r == tris_share_edge(*a, *b),
{
    let edges = a.to_unoriented_edges();
    let found = b.contains_unoriented_edge(edges[0]) || b.contains_unoriented_edge(edges[1])
        || b.contains_unoriented_edge(edges[2]);
    proof {
        if found {
            if b.spec_contains_unoriented_edge(edges@[0]) {
                assert(b.spec_contains_unoriented_edge(
                    UnorientedEdge(a.spec_oriented_edges()[0]),
                ));
            } else if b.spec_contains_unoriented_edge(edges@[1]) {
                assert(b.spec_contains_unoriented_edge(
                    UnorientedEdge(a.spec_oriented_edges()[1]),
                ));
            } else {
                assert(b.spec_contains_unoriented_edge(
                    UnorientedEdge(a.spec_oriented_edges()[2]),
                ));
            }
        }
        if tris_share_edge(*a, *b) {
            let i = choose|i: int|
                0 <= i < 3 && b.spec_contains_unoriented_edge(
                    UnorientedEdge(#[trigger] a.spec_oriented_edges()[i]),
                );
            assert(edges@[i].0 == a.spec_oriented_edges()[i]);
        }
    }
    found
}

/// Whether the vector holds the value.
pub fn u32_vec_contains(row: &Vec<u32>, v: u32) -> (r: bool)
    ensures
        r == row@.contains(v),
{
    let mut i: usize = 0;
    while i < row.len()
        invariant
            0 <= i <= row@.len(),
            forall|j: int| 0 <= j < i ==> row@[j] != v,
        decreases row@.len() - i,
    {
        if row[i] == v {
            proof {
                assert(row@[i as int] == v);
            }
            return true;
        }
        i = i + 1;
    }
    false
}

/// Appends both directions of the vertex pair `a`-`b` to the adjacency
/// rows, skipping entries already present.
#[verifier::loop_isolation(false)]
fn add_adjacent(adj: &mut Vec<Vec<u32>>, a: u32, b: u32)
    requires
        (a as int) < old(adj)@.len(),
        (b as int) < old(adj)@.len(),
        forall|x: int| 0 <= x < old(adj)@.len() ==> row_distinct((#[trigger] old(adj)@[x])@),
    ensures
        final(adj)@.len() == old(adj)@.len(),
        forall|x: int| 0 <= x < final(adj)@.len() ==> row_distinct((#[trigger] final(adj)@[x])@),
        forall|x: int, y: u32|
            0 <= x < final(adj)@.len() ==> ((#[trigger] adj_mem(final(adj)@, x, y)) <==> (
            adj_mem(old(adj)@, x, y) || (x == a && y == b) || (x == b && y == a))),
{
    let ghost pre = adj@;
    let has_b = u32_vec_contains(&adj[a as usize], b);
    if !has_b {
        adj[a as usize].push(b);
        proof {
            assert(adj@[a as int]@ =~= pre[a as int]@.push(b));
        }
    }
    let ghost mid = adj@;
    proof {
        assert forall|x: int| 0 <= x < mid.len() implies row_distinct((#[trigger] mid[x])@) by {
            if x == a as int && !has_b {
                assert forall|k1: int, k2: int|
                    0 <= k1 < k2 < mid[x]@.len() implies mid[x]@[k1] != mid[x]@[k2] by {
                    if k2 == mid[x]@.len() - 1 {
                        assert(pre[x]@[k1] != b);
                    }
                }
            }
        }
    }
    let has_a = u32_vec_contains(&adj[b as usize], a);
    if !has_a {
        adj[b as usize].push(a);
        proof {
            assert(adj@[b as int]@ =~= mid[b as int]@.push(a));
        }
    }
    proof {
        assert forall|x: int| 0 <= x < adj@.len() implies row_distinct((#[trigger] adj@[x])@) by {
            if x == b as int && !has_a {
                assert forall|k1: int, k2: int|
                    0 <= k1 < k2 < adj@[x]@.len() implies adj@[x]@[k1] != adj@[x]@[k2] by {
                    if k2 == adj@[x]@.len() - 1 {
                        assert(mid[x]@[k1] != a);
                    }
                }
            }
        }
        assert forall|x: int, y: u32| 0 <= x < adj@.len() implies ((#[trigger] adj_mem(
            adj@,
            x,
            y,
        )) <==> (adj_mem(pre, x, y) || (x == a && y == b) || (x == b && y == a))) by {
            if adj_mem(adj@, x, y) {
                let k = choose|k: int| 0 <= k < (adj@[x])@.len() && (adj@[x])@[k] == y;
                if k < pre[x]@.len() {
                    assert(pre[x]@[k] == y);
                    assert(adj_mem(pre, x, y));
                }
            }
            if adj_mem(pre, x, y) {
                let k = choose|k: int| 0 <= k < (pre[x])@.len() && (pre[x])@[k] == y;
                assert((adj@[x])@[k] == y);
                assert((adj@[x])@.contains(y));
            }
            if x == a && y == b {
                if has_b {
                    let k = choose|k: int| 0 <= k < (pre[x])@.len() && (pre[x])@[k] == y;
                    assert((adj@[x])@[k] == y);
                } else {
                    assert(mid[x]@[mid[x]@.len() - 1] == b);
                    assert((adj@[x])@[mid[x]@.len() - 1] == b);
                }
                assert((adj@[x])@.contains(y));
            }
            if x == b && y == a {
                if has_a {
                    let k = choose|k: int| 0 <= k < (mid[x])@.len() && (mid[x])@[k] == y;
                    assert((adj@[x])@[k] == y);
                } else {
                    assert((adj@[x])@[adj@[x]@.len() - 1] == a);
                }
                assert((adj@[x])@.contains(y));
            }
        }
    }
}

/// Membership of `y` in row `x` of an adjacency table.
pub open spec fn adj_mem(adj: Seq<Vec<u32>>, x: int, y: u32) -> bool {
    adj[x]@.contains(y)
}

/// For each vertex index, the distinct vertex indices connected to it by
/// at least one face edge.
pub fn vertex_to_vertex_topology(geometry: &Geometry) -> (r: Vec<Vec<u32>>)
    ensures
        r@.len() == geometry@.vertices.len(),
        forall|x: int, y: u32|
            0 <= x < r@.len() ==> ((#[trigger] adj_mem(r@, x, y)) <==> (vertices_adjacent(
                geometry@.faces,
                x,
                y as int,
            ) && y < geometry@.vertices.len())),
        forall|x: int| 0 <= x < r@.len() ==> row_distinct((#[trigger] r@[x])@),
{
    let faces = geometry.faces();
    let nv = geometry.vertices().len();
    let mut adj: Vec<Vec<u32>> = Vec::new();
    let mut i: usize = 0;
    while i < nv
        invariant
            adj@.len() == i <= nv,
            forall|x: int| 0 <= x < i ==> (#[trigger] adj@[x])@ == Seq::<u32>::empty(),
        decreases nv - i,
    {
        adj.push(Vec::new());
        i = i + 1;
    }
    let mut k: usize = 0;
    while k < faces.len()
        invariant
            0 <= k <= geometry@.faces.len(),
            faces@ == geometry@.faces,
            geometry@.wf(),
            nv == geometry@.vertices.len(),
            adj@.len() == nv,
            forall|x: int| 0 <= x < nv ==> row_distinct((#[trigger] adj@[x])@),
            forall|x: int, y: u32|
                0 <= x < nv ==> ((#[trigger] adj_mem(adj@, x, y)) <==> (vertices_adjacent_upto(
                    geometry@.faces,
                    k as int,
                    x,
                    y as int,
                ) && y < nv)),
        decreases faces@.len() - k,
    {
        let t = match faces[k] {
            Face::Triangle(t) => t,
        };
        let ghost before = adj@;
        add_adjacent(&mut adj, t.vertices.0, t.vertices.1);
        let ghost after1 = adj@;
        add_adjacent(&mut adj, t.vertices.1, t.vertices.2);
        let ghost after2 = adj@;
        add_adjacent(&mut adj, t.vertices.2, t.vertices.0);
        proof {
            assert forall|x: int, y: u32| 0 <= x < nv implies ((#[trigger] adj_mem(adj@, x, y))
                <==> (vertices_adjacent_upto(geometry@.faces, k + 1, x, y as int) && y < nv)) by {
                assert(adj_mem(adj@, x, y) <==> (adj_mem(after2, x, y) || (x == t.vertices.2 && y
                    == t.vertices.0) || (x == t.vertices.0 && y == t.vertices.2)));
                assert(adj_mem(after2, x, y) <==> (adj_mem(after1, x, y) || (x == t.vertices.1 && y
                    == t.vertices.2) || (x == t.vertices.2 && y == t.vertices.1)));
                assert(adj_mem(after1, x, y) <==> (adj_mem(before, x, y) || (x == t.vertices.0 && y
                    == t.vertices.1) || (x == t.vertices.1 && y == t.vertices.0)));
                if adj_mem(adj@, x, y) {
                    if adj_mem(before, x, y) {
                        let i0 = choose|i0: int|
                            0 <= i0 < k && face_has_edge_between(
                                face_triangle(#[trigger] geometry@.faces[i0]),
                                x,
                                y as int,
                            );
                        assert(face_has_edge_between(
                            face_triangle(geometry@.faces[i0]),
                            x,
                            y as int,
                        ));
                    } else {
                        assert(face_has_edge_between(
                            face_triangle(geometry@.faces[k as int]),
                            x,
                            y as int,
                        ));
                    }
                }
                if vertices_adjacent_upto(geometry@.faces, k + 1, x, y as int) && y < nv {
                    let i0 = choose|i0: int|
                        0 <= i0 < k + 1 && face_has_edge_between(
                            face_triangle(#[trigger] geometry@.faces[i0]),
                            x,
                            y as int,
                        );
                    if i0 < k {
                        assert(vertices_adjacent_upto(geometry@.faces, k as int, x, y as int));
                    } else {
                        assert(face_has_edge_between(
                            face_triangle(geometry@.faces[k as int]),
                            x,
                            y as int,
                        ));
                    }
                }
            }
        }
        k = k + 1;
    }
    adj
}

/// For each face index, the distinct indices of the other faces sharing
/// at least one undirected edge with it, in increasing order.
pub fn face_to_face_topology(geometry: &Geometry) -> (r: Vec<Vec<u32>>)
    ensures
        r@.len() == geometry@.faces.len(),
        forall|x: int, y: u32|
            0 <= x < r@.len() ==> ((#[trigger] adj_mem(r@, x, y)) <==> (faces_adjacent(
                geometry@.faces,
                x,
                y as int,
            ) && y < geometry@.faces.len())),
        forall|x: int| 0 <= x < r@.len() ==> row_distinct((#[trigger] r@[x])@),
{
    let faces = geometry.faces();
    let nf = faces.len();
    let mut adj: Vec<Vec<u32>> = Vec::new();
    let mut i: usize = 0;
    while i < nf
        invariant
            0 <= i <= nf,
            nf == geometry@.faces.len() <= u32::MAX,
            faces@ == geometry@.faces,
            adj@.len() == i,
            forall|x: int| 0 <= x < i ==> row_distinct((#[trigger] adj@[x])@),
            forall|x: int, y: u32|
                0 <= x < i ==> ((#[trigger] adj_mem(adj@, x, y)) <==> (faces_adjacent(
                    geometry@.faces,
                    x,
                    y as int,
                ) && y < nf)),
        decreases nf - i,
    {
        let ti = match faces[i] {
            Face::Triangle(t) => t,
        };
        let mut row: Vec<u32> = Vec::new();
        let mut j: usize = 0;
        while j < nf
            invariant
                0 <= j <= nf,
                0 <= i < nf,
                nf == geometry@.faces.len() <= u32::MAX,
                faces@ == geometry@.faces,
                ti == face_triangle(geometry@.faces[i as int]),
                row_distinct(row@),
                forall|y: u32|
                    (#[trigger] row@.contains(y)) <==> (faces_adjacent(
                        geometry@.faces,
                        i as int,
                        y as int,
                    ) && y < j),
            decreases nf - j,
        {
            if j != i {
                let tj = match faces[j] {
                    Face::Triangle(t) => t,
                };
                let ghost prev = row@;
                if tri_share_edge(&ti, &tj) {
                    row.push(j as u32);
                    proof {
                        assert forall|y: u32| (#[trigger] row@.contains(y)) implies (faces_adjacent(
                            geometry@.faces,
                            i as int,
                            y as int,
                        ) && y < j + 1) by {
                            if prev.contains(y) {
                            } else {
                                assert(row@[row@.len() - 1] == j as u32);
                                let k0 = choose|k0: int|
                                    0 <= k0 < row@.len() && row@[k0] == y;
                                if k0 < row@.len() - 1 {
                                    assert(prev.contains(y));
                                } else {
                                    assert(y == j as u32);
                                }
                            }
                        }
                        assert forall|y: u32|
                            (faces_adjacent(geometry@.faces, i as int, y as int) && y < j
                                + 1) implies #[trigger] row@.contains(y) by {
                            if y < j {
                                assert(prev.contains(y));
                                let k0 = choose|k0: int|
                                    0 <= k0 < prev.len() && prev[k0] == y;
                                assert(row@[k0] == y);
                                assert(row@.contains(y));
                            } else {
                                assert(row@[row@.len() - 1] == y);
                            }
                        }
                        assert forall|k1: int, k2: int|
                            0 <= k1 < k2 < row@.len() implies row@[k1] != row@[k2] by {
                            if k2 == row@.len() - 1 {
                                if row@[k1] == j as u32 {
                                    assert(prev.contains(j as u32));
                                }
                            }
                        }
                    }
                }
            }
            j = j + 1;
        }
        let ghost prevadj = adj@;
        adj.push(row);
        proof {
            assert(adj@[i as int] == row);
            assert forall|x: int, y: u32| 0 <= x < i + 1 implies ((#[trigger] adj_mem(adj@, x, y))
                <==> (faces_adjacent(geometry@.faces, x, y as int) && y < nf)) by {
                if x < i {
                    assert(adj@[x] == prevadj[x]);
                    assert(adj_mem(adj@, x, y) == adj_mem(prevadj, x, y));
                } else {
                    assert(adj_mem(adj@, x, y) == row@.contains(y));
                }
            }
        }
        i = i + 1;
    }
    adj
}

/// For each position in the caller-supplied edge list, the indices of the
/// faces containing that edge in either orientation, in increasing order.
pub fn edge_to_face_topology(geometry: &Geometry, unoriented_edges: &Vec<UnorientedEdge>) -> (r:
    Vec<Vec<u32>>)
    ensures
        r@.len() == unoriented_edges@.len(),
        forall|x: int, y: u32|
            0 <= x < r@.len() ==> ((#[trigger] adj_mem(r@, x, y)) <==> (y < geometry@.faces.len()
                && face_triangle(geometry@.faces[y as int]).spec_contains_unoriented_edge(
                unoriented_edges@[x],
            ))),
        forall|x: int| 0 <= x < r@.len() ==> row_distinct((#[trigger] r@[x])@),
{
    let faces = geometry.faces();
    let nf = faces.len();
    let ne = unoriented_edges.len();
    let mut adj: Vec<Vec<u32>> = Vec::new();
    let mut e: usize = 0;
    while e < ne
        invariant
            0 <= e <= ne,
            ne == unoriented_edges@.len(),
            nf == geometry@.faces.len() <= u32::MAX,
            faces@ == geometry@.faces,
            adj@.len() == e,
            forall|x: int| 0 <= x < e ==> row_distinct((#[trigger] adj@[x])@),
            forall|x: int, y: u32|
                0 <= x < e ==> ((#[trigger] adj_mem(adj@, x, y)) <==> (y < nf && face_triangle(
                    geometry@.faces[y as int],
                ).spec_contains_unoriented_edge(unoriented_edges@[x]))),
        decreases ne - e,
    {
        let edge = unoriented_edges[e];
        let mut row: Vec<u32> = Vec::new();
        let mut f: usize = 0;
        while f < nf
            invariant
                0 <= f <= nf,
                0 <= e < ne,
                ne == unoriented_edges@.len(),
                nf == geometry@.faces.len() <= u32::MAX,
                faces@ == geometry@.faces,
                edge == unoriented_edges@[e as int],
                row_distinct(row@),
                forall|y: u32|
                    (#[trigger] row@.contains(y)) <==> (y < f && face_triangle(
                        geometry@.faces[y as int],
                    ).spec_contains_unoriented_edge(unoriented_edges@[e as int])),
            decreases nf - f,
        {
            let tf = match faces[f] {
                Face::Triangle(t) => t,
            };
            let ghost prev = row@;
            if tf.contains_unoriented_edge(edge) {
                row.push(f as u32);
                proof {
                    assert forall|y: u32| (#[trigger] row@.contains(y)) implies (y < f + 1
                        && face_triangle(geometry@.faces[y as int]).spec_contains_unoriented_edge(
                        unoriented_edges@[e as int],
                    )) by {
                        let k0 = choose|k0: int| 0 <= k0 < row@.len() && row@[k0] == y;
                        if k0 < row@.len() - 1 {
                            assert(prev.contains(y));
                        } else {
                            assert(y == f as u32);
                        }
                    }
                    assert forall|y: u32|
                        (y < f + 1 && face_triangle(
                            geometry@.faces[y as int],
                        ).spec_contains_unoriented_edge(
                            unoriented_edges@[e as int],
                        )) implies #[trigger] row@.contains(y) by {
                        if y < f {
                            assert(prev.contains(y));
                            let k0 = choose|k0: int| 0 <= k0 < prev.len() && prev[k0] == y;
                            assert(row@[k0] == y);
                            assert(row@.contains(y));
                        } else {
                            assert(row@[row@.len() - 1] == y);
                        }
                    }
                    assert forall|k1: int, k2: int|
                        0 <= k1 < k2 < row@.len() implies row@[k1] != row@[k2] by {
                        if k2 == row@.len() - 1 {
                            if row@[k1] == f as u32 {
                                assert(prev.contains(f as u32));
                            }
                        }
                    }
                }
            }
            f = f + 1;
        }
        let ghost prevadj = adj@;
        adj.push(row);
        proof {
            assert(adj@[e as int] == row);
            assert forall|x: int, y: u32| 0 <= x < e + 1 implies ((#[trigger] adj_mem(adj@, x, y))
                <==> (y < nf && face_triangle(geometry@.faces[y as int]).spec_contains_unoriented_edge(
                unoriented_edges@[x],
            ))) by {
                if x < e {
                    assert(adj@[x] == prevadj[x]);
                    assert(adj_mem(adj@, x, y) == adj_mem(prevadj, x, y));
                } else {
                    assert(adj_mem(adj@, x, y) == row@.contains(y));
                }
            }
        }
        e = e + 1;
    }
    adj
}

} // verus!
