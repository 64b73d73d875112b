//! Whole-mesh repair and assembly tools: winding synchronization, face
//! reversion, tolerance welding, connected-component separation and
//! concatenation of two geometries.

use crate::geometry::{
    copy_vec, face_triangle, face_uses_normal, face_uses_vertex, normal_rank, normal_referenced,
    remap_face, resolved_face, same_edge, tri_normals_in_bounds, tri_vertices_in_bounds,
    vertex_rank, vertex_referenced, Face, Geometry, GeometryView, OrientedEdge, Point,
    TriangleFace, UnorientedEdge, Vector, COORD_LIMIT,
};
use crate::mesh_topology_analysis;
use crate::mesh_topology_analysis::{adj_mem, faces_adjacent};
use vstd::prelude::*;

verus! {

/// Reverts vertex and normal winding of every face, keeping vertices and
/// normals as they are.
pub fn revert_mesh_faces(geometry: &Geometry) -> (r: Geometry)
    ensures
        r@.vertices == geometry@.vertices,
        r@.normals == geometry@.normals,
        r@.faces.len() == geometry@.faces.len(),
        forall|i: int|
            0 <= i < geometry@.faces.len() ==> #[trigger] r@.faces[i] == Face::Triangle(
                face_triangle(geometry@.faces[i]).spec_reverted(),
            ),
        r@.wf(),
{
    let faces = geometry.faces();
    let mut reverted: Vec<Face> = Vec::new();
    let mut i: usize = 0;
    while i < faces.len()
        invariant
            0 <= i <= geometry@.faces.len(),
            faces@ == geometry@.faces,
            reverted@.len() == i,
            forall|j: int|
                0 <= j < i ==> #[trigger] reverted@[j] == Face::Triangle(
                    face_triangle(geometry@.faces[j]).spec_reverted(),
                ),
        decreases faces@.len() - i,
    {
        let t = match faces[i] {
            Face::Triangle(t) => t,
        };
        reverted.push(Face::Triangle(t.to_reverted()));
        i = i + 1;
    }
    proof {
        use_type_invariant(geometry);
    }
    let vertices = copy_vec(geometry.vertices());
    let normals = copy_vec(geometry.normals());
    Geometry::from_faces_with_vertices_and_normals(reverted, vertices, normals)
}

/// How many entries of the sequence are true.
pub open spec fn count_true(s: Seq<bool>) -> nat
    decreases s.len(),
{
    if s.len() == 0 {
        0
    } else {
        count_true(s.drop_last()) + if s.last() {
            1nat
        } else {
            0nat
        }
    }
}

proof fn lemma_count_true_set(s: Seq<bool>, i: int)
    requires
        0 <= i < s.len(),
        !s[i],
    ensures
        count_true(s.update(i, true)) == count_true(s) + 1,
    decreases s.len(),
{
    if i == s.len() - 1 {
        assert(s.update(i, true).drop_last() =~= s.drop_last());
    } else {
        assert(s.update(i, true).drop_last() =~= s.drop_last().update(i, true));
        lemma_count_true_set(s.drop_last(), i);
    }
}

proof fn lemma_count_true_full(s: Seq<bool>)
    requires
        forall|i: int| 0 <= i < s.len() ==> s[i],
    ensures
        count_true(s) == s.len(),
    decreases s.len(),
{
    if s.len() > 0 {
        lemma_count_true_full(s.drop_last());
    }
}

/// A sequence of `n` distinct indices, each below `n`: the order in which
/// the traversal emitted the faces.
pub open spec fn is_reordering(perm: Seq<int>, n: int) -> bool {
    &&& perm.len() == n
    &&& forall|i: int| 0 <= i < n ==> 0 <= #[trigger] perm[i] < n
    &&& forall|i: int, j: int| 0 <= i < j < n ==> perm[i] != perm[j]
}

/// The face is the original, or the original with its winding reverted.
pub open spec fn kept_or_reverted(out: Face, orig: Face) -> bool {
    out == orig || out == Face::Triangle(face_triangle(orig).spec_reverted())
}

/// Finds a position of an edge equal (as undirected edge) to `e` in the
/// caller-supplied edge list.
fn edge_index_of(edges: &Vec<UnorientedEdge>, e: UnorientedEdge) -> (r: usize)
    requires
        exists|k: int| 0 <= k < edges@.len() && same_edge(edges@[k], e),
    ensures
        r < edges@.len(),
        same_edge(edges@[r as int], e),
{
    let mut i: usize = 0;
    while i < edges.len()
        invariant
            0 <= i <= edges@.len(),
            forall|j: int| 0 <= j < i ==> !same_edge(edges@[j], e),
        decreases edges@.len() - i,
    {
        if edges[i].eq_edge(&e) {
            return i;
        }
        i = i + 1;
    }
    proof {
        let k = choose|k: int| 0 <= k < edges@.len() && same_edge(edges@[k], e);
        assert(false);
    }
    0
}

/// Face `b` walks every undirected edge it shares with face `a` in the
/// opposite direction: the faces are consistently wound across their
/// shared edges.
pub open spec fn opposite_over_shared(a: TriangleFace, b: TriangleFace) -> bool {
    forall|p: int, q: int|
        0 <= p < 3 && 0 <= q < 3 && same_edge(
            UnorientedEdge(#[trigger] a.spec_oriented_edges()[p]),
            UnorientedEdge(#[trigger] b.spec_oriented_edges()[q]),
        ) ==> b.spec_oriented_edges()[q] == a.spec_oriented_edges()[p].spec_reverted()
}

/// Every pair of distinct faces is consistently wound: each undirected
/// edge two faces share is traversed by them in opposite directions.
/// Faces that share no edge satisfy this vacuously, so the condition is
/// global and needs no talk of components.
pub open spec fn faces_consistently_wound(faces: Seq<Face>) -> bool {
    forall|i: int, j: int|
        0 <= i < faces.len() && 0 <= j < faces.len() && i != j ==> opposite_over_shared(
            face_triangle(#[trigger] faces[i]),
            face_triangle(#[trigger] faces[j]),
        )
}

/// The triangle of the face, reverted when the flag says so.
pub open spec fn oriented_as(f: Face, flip: bool) -> TriangleFace {
    if flip {
        face_triangle(f).spec_reverted()
    } else {
        face_triangle(f)
    }
}

/// The faces with a per-face flip assignment applied.
pub open spec fn apply_flips(faces: Seq<Face>, flips: Seq<bool>) -> Seq<Face> {
    Seq::new(faces.len(), |i: int| Face::Triangle(oriented_as(faces[i], flips[i])))
}

/// The mesh admits a consistent winding: some per-face flip assignment
/// makes every shared edge oppositely traversed. (A three-way shared
/// edge or a cross-cap never admits one.)
pub open spec fn orientable(faces: Seq<Face>) -> bool {
    exists|flips: Seq<bool>|
        flips.len() == faces.len() && #[trigger] faces_consistently_wound(
            apply_flips(faces, flips),
        )
}

/// Each face's three vertex indices are pairwise distinct.
pub open spec fn faces_nondegenerate(faces: Seq<Face>) -> bool {
    forall|i: int|
        0 <= i < faces.len() ==> {
            let t = face_triangle(#[trigger] faces[i]);
            t.vertices.0 != t.vertices.1 && t.vertices.0 != t.vertices.2 && t.vertices.1
                != t.vertices.2
        }
}

/// A triangle with three distinct corners never contains an oriented
/// edge both ways: it cannot agree with its own reversal on any edge.
proof fn lemma_nondegenerate_not_both(t: TriangleFace, o: OrientedEdge)
    requires
        t.vertices.0 != t.vertices.1,
        t.vertices.0 != t.vertices.2,
        t.vertices.1 != t.vertices.2,
        t.spec_contains_oriented_edge(o),
    ensures
        !t.spec_reverted().spec_contains_oriented_edge(o),
{
    if t.spec_reverted().spec_contains_oriented_edge(o) {
        let p = choose|p: int| 0 <= p < 3 && t.spec_oriented_edges()[p] == o;
        let q = choose|q: int| 0 <= q < 3 && t.spec_reverted().spec_oriented_edges()[q] == o;
        assert(false);
    }
}

/// Reverting a face keeps which undirected edges it has.
proof fn lemma_reverted_keeps_unoriented(t: TriangleFace, e: UnorientedEdge)
    requires
        t.spec_contains_unoriented_edge(e),
    ensures
        t.spec_reverted().spec_contains_unoriented_edge(e),
{
    let p = choose|p: int|
        0 <= p < 3 && same_edge(UnorientedEdge(#[trigger] t.spec_oriented_edges()[p]), e);
    let q: int = if p == 0 {
        1
    } else if p == 1 {
        0
    } else {
        2
    };
    assert(same_edge(UnorientedEdge(t.spec_reverted().spec_oriented_edges()[q]), e));
}

/// Reverting both faces keeps them consistently wound.
proof fn lemma_opposite_of_reverted(a: TriangleFace, b: TriangleFace)
    requires
        opposite_over_shared(a, b),
    ensures
        opposite_over_shared(a.spec_reverted(), b.spec_reverted()),
{
    let ar = a.spec_reverted();
    let br = b.spec_reverted();
    assert forall|p: int, q: int|
        0 <= p < 3 && 0 <= q < 3 && same_edge(
            UnorientedEdge(#[trigger] ar.spec_oriented_edges()[p]),
            UnorientedEdge(#[trigger] br.spec_oriented_edges()[q]),
        ) implies br.spec_oriented_edges()[q] == ar.spec_oriented_edges()[p].spec_reverted() by {
        let p0: int = if p == 0 {
            1
        } else if p == 1 {
            0
        } else {
            2
        };
        let q0: int = if q == 0 {
            1
        } else if q == 1 {
            0
        } else {
            2
        };
        assert(ar.spec_oriented_edges()[p] == a.spec_oriented_edges()[p0].spec_reverted());
        assert(br.spec_oriented_edges()[q] == b.spec_oriented_edges()[q0].spec_reverted());
        assert(same_edge(
            UnorientedEdge(a.spec_oriented_edges()[p0]),
            UnorientedEdge(b.spec_oriented_edges()[q0]),
        ));
    }
}

/// Faces that share no undirected edge are consistently wound whatever
/// winding either takes.
proof fn lemma_unshared_opposite(a: TriangleFace, b: TriangleFace, a2: TriangleFace, b2: TriangleFace)
    requires
        !mesh_topology_analysis::tris_share_edge(a, b),
        a2 == a || a2 == a.spec_reverted(),
        b2 == b || b2 == b.spec_reverted(),
    ensures
        opposite_over_shared(a2, b2),
{
    assert forall|p: int, q: int|
        0 <= p < 3 && 0 <= q < 3 && same_edge(
            UnorientedEdge(#[trigger] a2.spec_oriented_edges()[p]),
            UnorientedEdge(#[trigger] b2.spec_oriented_edges()[q]),
        ) implies b2.spec_oriented_edges()[q] == a2.spec_oriented_edges()[p].spec_reverted() by {
        let p0: int = if a2 == a {
            p
        } else if p == 0 {
            1
        } else if p == 1 {
            0
        } else {
            2
        };
        let q0: int = if b2 == b {
            q
        } else if q == 0 {
            1
        } else if q == 1 {
            0
        } else {
            2
        };
        assert(same_edge(
            UnorientedEdge(a.spec_oriented_edges()[p0]),
            UnorientedEdge(b.spec_oriented_edges()[q0]),
        ));
        assert(b.spec_contains_unoriented_edge(UnorientedEdge(a.spec_oriented_edges()[p0])));
        assert(mesh_topology_analysis::tris_share_edge(a, b));
        assert(false);
    }
}

/// Consistent winding is symmetric in the two faces.
proof fn lemma_opposite_symm(a: TriangleFace, b: TriangleFace)
    requires
        opposite_over_shared(a, b),
    ensures
        opposite_over_shared(b, a),
{
    assert forall|p: int, q: int|
        0 <= p < 3 && 0 <= q < 3 && same_edge(
            UnorientedEdge(#[trigger] b.spec_oriented_edges()[p]),
            UnorientedEdge(#[trigger] a.spec_oriented_edges()[q]),
        ) implies a.spec_oriented_edges()[q] == b.spec_oriented_edges()[p].spec_reverted() by {
        assert(same_edge(
            UnorientedEdge(a.spec_oriented_edges()[q]),
            UnorientedEdge(b.spec_oriented_edges()[p]),
        ));
        assert(b.spec_oriented_edges()[p] == a.spec_oriented_edges()[q].spec_reverted());
    }
}

/// A pairwise consistent orientation assignment, one triangle per face.
pub open spec fn tris_consistent(ts: Seq<TriangleFace>) -> bool {
    forall|i: int, j: int|
        0 <= i < ts.len() && 0 <= j < ts.len() && i != j ==> #[trigger] opposite_over_shared(
            ts[i],
            ts[j],
        )
}

/// Whether the pending stack holds an entry for face `f`.
pub open spec fn stack_has(st: Seq<(OrientedEdge, u32)>, f: int) -> bool {
    exists|k: int| 0 <= k < st.len() && (#[trigger] st[k]).1 as int == f
}

/// Every edge of every face of the geometry occurs, as an undirected
/// edge, in the caller-supplied edge list.
pub open spec fn edge_list_covers(gv: GeometryView, edges: Seq<UnorientedEdge>) -> bool {
    forall|i: int, j: int|
        0 <= i < gv.faces.len() && 0 <= j < 3 ==> exists|k: int|
            0 <= k < edges.len() && same_edge(
                edges[k],
                UnorientedEdge(#[trigger] face_triangle(gv.faces[i]).spec_oriented_edges()[j]),
            )
}

/// Makes every face's winding consistent with its traversal neighbours.
///
/// Crawls the face graph through the edge-to-face map: a face reached
/// across an edge keeps its winding when it walks that edge opposite to
/// its neighbour, and is reverted otherwise. Each connected component is
/// seeded at its lowest-numbered untreated face, whose winding the rest
/// of the component then follows; two components bear no relation to one
/// another. Normals are never flipped.
///
/// The result holds exactly the input faces, each kept or reverted, in
/// traversal order over the unchanged vertex and normal collections.
/// For a mesh of nondegenerate faces that admits a consistent winding
/// at all, the result is consistently wound: every undirected edge two
/// faces share is walked by them in opposite directions. On a mesh that
/// admits none (a three-way shared edge, a cross-cap) no algorithm
/// could deliver that, and the contract promises only the face
/// preservation above.
#[verifier::loop_isolation(false)]
#[verifier::rlimit(100)]
pub fn synchronize_mesh_winding(
    geometry: &Geometry,
    unoriented_edges: &Vec<UnorientedEdge>,
    edge_to_face_topology: &Vec<Vec<u32>>,
) -> (r: Geometry)
    requires
        edge_list_covers(geometry@, unoriented_edges@),
        edge_to_face_topology@.len() == unoriented_edges@.len(),
        forall|x: int, y: u32|
            0 <= x < edge_to_face_topology@.len() ==> ((#[trigger] adj_mem(
                edge_to_face_topology@,
                x,
                y,
            )) <==> ((y as int) < geometry@.faces.len() && face_triangle(
                geometry@.faces[y as int],
            ).spec_contains_unoriented_edge(unoriented_edges@[x]))),
    ensures
        r@.vertices == geometry@.vertices,
        r@.normals == geometry@.normals,
        r@.faces.len() == geometry@.faces.len(),
        exists|perm: Seq<int>|
            #[trigger] is_reordering(perm, geometry@.faces.len() as int) && forall|i: int|
                0 <= i < geometry@.faces.len() ==> kept_or_reverted(
                    r@.faces[i],
                    geometry@.faces[perm[i]],
                ),
        geometry@.faces.len() > 0 ==> r@.faces[0] == geometry@.faces[0],
        faces_nondegenerate(geometry@.faces) && orientable(geometry@.faces)
            ==> faces_consistently_wound(r@.faces),
        r@.wf(),
{
    proof {
        use_type_invariant(geometry);
    }
    let original_triangle_faces = geometry.triangle_faces();
    let n = original_triangle_faces.len();
    let ghost gfaces = geometry@.faces;
    let ghost oc = faces_nondegenerate(gfaces) && orientable(gfaces);
    let ghost flips: Seq<bool> = if oc {
        choose|flips: Seq<bool>|
            flips.len() == gfaces.len() && #[trigger] faces_consistently_wound(
                apply_flips(gfaces, flips),
            )
    } else {
        Seq::empty()
    };
    let ghost wtri: Seq<TriangleFace> = Seq::new(
        gfaces.len(),
        |i: int| oriented_as(gfaces[i], flips[i]),
    );
    proof {
        if oc {
            assert forall|i: int, j: int|
                0 <= i < wtri.len() && 0 <= j < wtri.len() && i != j implies
                #[trigger] opposite_over_shared(wtri[i], wtri[j]) by {
                assert(face_triangle(apply_flips(gfaces, flips)[i]) == wtri[i]);
                assert(face_triangle(apply_flips(gfaces, flips)[j]) == wtri[j]);
            }
            assert(tris_consistent(wtri));
        }
    }

    let mut face_treatment_pattern: Vec<bool> = Vec::new();
    let mut i: usize = 0;
    while i < n
        invariant
            face_treatment_pattern@.len() == i <= n,
            forall|j: int| 0 <= j < i ==> !(#[trigger] face_treatment_pattern@[j]),
        decreases n - i,
    {
        face_treatment_pattern.push(false);
        i = i + 1;
    }
    proof {
        assert(count_true(face_treatment_pattern@) == 0) by {
            lemma_count_zero(face_treatment_pattern@);
        }
    }

    let mut edge_face_stack: Vec<(OrientedEdge, u32)> = Vec::new();
    let mut synchronized_triangle_faces: Vec<TriangleFace> = Vec::new();
    let ghost mut src: Seq<int> = Seq::empty();

    while synchronized_triangle_faces.len() < n
        invariant
            original_triangle_faces@.len() == n == gfaces.len(),
            forall|j: int|
                0 <= j < n ==> #[trigger] original_triangle_faces@[j] == face_triangle(gfaces[j]),
            face_treatment_pattern@.len() == n,
            edge_face_stack@.len() == 0,
            src.len() == synchronized_triangle_faces@.len() <= n,
            src.len() > 0 ==> synchronized_triangle_faces@[0] == face_triangle(gfaces[0]),
            forall|k: int| 0 <= k < src.len() ==> 0 <= #[trigger] src[k] < n,
            forall|k1: int, k2: int| 0 <= k1 < k2 < src.len() ==> src[k1] != src[k2],
            forall|k: int|
                0 <= k < src.len() ==> kept_or_reverted(
                    Face::Triangle(#[trigger] synchronized_triangle_faces@[k]),
                    gfaces[src[k]],
                ),
            forall|f: int|
                0 <= f < n ==> (#[trigger] face_treatment_pattern@[f] <==> src.contains(f)),
            count_true(face_treatment_pattern@) == src.len(),
            oc ==> forall|k1: int, k2: int|
                0 <= k1 < k2 < src.len() ==> opposite_over_shared(
                    #[trigger] synchronized_triangle_faces@[k1],
                    #[trigger] synchronized_triangle_faces@[k2],
                ),
            oc ==> forall|f: int, j: int|
                0 <= f < n && face_treatment_pattern@[f] && 0 <= j < n
                    && #[trigger] faces_adjacent(gfaces, f, j) ==> face_treatment_pattern@[j],
        decreases n - synchronized_triangle_faces@.len(),
    {
        // Find the first untreated face: it seeds a new component.
        let mut current_face_index: usize = 0;
        proof {
            if forall|f: int| 0 <= f < n ==> #[trigger] face_treatment_pattern@[f] {
                lemma_count_true_full(face_treatment_pattern@);
            }
        }
        while current_face_index < n && face_treatment_pattern[current_face_index]
            invariant
                0 <= current_face_index <= n,
                forall|j: int| 0 <= j < current_face_index ==> #[trigger] face_treatment_pattern@[j],
                exists|f: int| 0 <= f < n && !(#[trigger] face_treatment_pattern@[f]),
            decreases n - current_face_index,
        {
            current_face_index = current_face_index + 1;
        }
        proof {
            if current_face_index == n {
                let f0 = choose|f: int| 0 <= f < n && !(#[trigger] face_treatment_pattern@[f]);
                assert(false);
            }
            if src.len() == 0 {
                if current_face_index > 0 {
                    assert(face_treatment_pattern@[0]);
                    assert(src.contains(0));
                    assert(false);
                }
            }
        }

        let ghost pre_treat = face_treatment_pattern@;
        let ghost pre_len = synchronized_triangle_faces@.len();
        let ghost src0 = src;
        let ghost comp_flip: bool = wtri[current_face_index as int] != face_triangle(
            gfaces[current_face_index as int],
        );
        let ghost rtri: Seq<TriangleFace> = Seq::new(
            gfaces.len(),
            |i: int|
                if comp_flip {
                    wtri[i].spec_reverted()
                } else {
                    wtri[i]
                },
        );
        proof {
            if oc {
                let cfi = current_face_index as int;
                let t = face_triangle(gfaces[cfi]);
                assert(t.spec_reverted().spec_reverted() == t);
                assert(rtri[cfi] == t);
                assert forall|i: int, j: int|
                    0 <= i < rtri.len() && 0 <= j < rtri.len() && i != j implies
                    #[trigger] opposite_over_shared(rtri[i], rtri[j]) by {
                    assert(opposite_over_shared(wtri[i], wtri[j]));
                    if comp_flip {
                        lemma_opposite_of_reverted(wtri[i], wtri[j]);
                    }
                }
                assert(tris_consistent(rtri));
            }
        }
        face_treatment_pattern[current_face_index] = true;
        proof {
            lemma_count_true_set(pre_treat, current_face_index as int);
        }
        let seed_edges = original_triangle_faces[current_face_index].to_oriented_edges();
        let current_test_edge: OrientedEdge = seed_edges[0];
        edge_face_stack.push((current_test_edge, current_face_index as u32));
        proof {
            assert forall|f: int| 0 <= f < n implies (#[trigger] face_treatment_pattern@[f] <==> (
            src.contains(f) || exists|k: int|
                0 <= k < edge_face_stack@.len() && (#[trigger] edge_face_stack@[k].1 as int)
                    == f)) by {
                if f == current_face_index as int {
                    assert(edge_face_stack@[0].1 as int == f);
                } else {
                    assert(face_treatment_pattern@[f] == pre_treat[f]);
                    if exists|k: int|
                        0 <= k < edge_face_stack@.len() && (#[trigger] edge_face_stack@[k].1
                            as int) == f {
                        let k0 = choose|k0: int|
                            0 <= k0 < edge_face_stack@.len() && (edge_face_stack@[k0].1 as int)
                                == f;
                        assert(k0 == 0);
                        assert(false);
                    }
                }
            }
            if oc {
                let cfi = current_face_index as int;
                assert(src0.len() == pre_len);
                assert(src0 =~= src.take(pre_len as int));
                assert(rtri[cfi].spec_contains_oriented_edge(edge_face_stack@[0].0)) by {
                    assert(rtri[cfi].spec_oriented_edges()[0] == edge_face_stack@[0].0);
                }
                assert forall|f: int, j: int|
                    0 <= f < n && face_treatment_pattern@[f] && !stack_has(edge_face_stack@, f)
                        && 0 <= j < n && #[trigger] faces_adjacent(gfaces, f, j) implies
                    face_treatment_pattern@[j] by {
                    if f == cfi {
                        assert(edge_face_stack@[0].1 as int == f);
                        assert(stack_has(edge_face_stack@, f));
                        assert(false);
                    } else {
                        assert(pre_treat[f]);
                        assert(pre_treat[j]);
                    }
                }
            }
        }

        while edge_face_stack.len() > 0
            invariant
                src.len() + edge_face_stack@.len() > pre_len,
                src.len() == 0 ==> (edge_face_stack@.len() == 1 && edge_face_stack@[0].1 == 0
                    && edge_face_stack@[0].0 == face_triangle(
                    gfaces[0],
                ).spec_oriented_edges()[0] && n > 0),
                src.len() > 0 ==> synchronized_triangle_faces@[0] == face_triangle(gfaces[0]),
                original_triangle_faces@.len() == n == gfaces.len(),
                forall|j: int|
                    0 <= j < n ==> #[trigger] original_triangle_faces@[j] == face_triangle(
                        gfaces[j],
                    ),
                face_treatment_pattern@.len() == n,
                src.len() == synchronized_triangle_faces@.len(),
                forall|k: int| 0 <= k < src.len() ==> 0 <= #[trigger] src[k] < n,
                forall|k1: int, k2: int| 0 <= k1 < k2 < src.len() ==> src[k1] != src[k2],
                forall|k: int|
                    0 <= k < src.len() ==> kept_or_reverted(
                        Face::Triangle(#[trigger] synchronized_triangle_faces@[k]),
                        gfaces[src[k]],
                    ),
                forall|k: int|
                    0 <= k < edge_face_stack@.len() ==> (#[trigger] edge_face_stack@[k].1 as int)
                        < n,
                forall|k: int|
                    0 <= k < edge_face_stack@.len() ==> !src.contains(
                        (#[trigger] edge_face_stack@[k].1) as int,
                    ),
                forall|k1: int, k2: int|
                    0 <= k1 < k2 < edge_face_stack@.len() ==> edge_face_stack@[k1].1
                        != edge_face_stack@[k2].1,
                forall|f: int|
                    0 <= f < n ==> (#[trigger] face_treatment_pattern@[f] <==> (src.contains(f)
                        || exists|k: int|
                        0 <= k < edge_face_stack@.len() && (#[trigger] edge_face_stack@[k].1 as int)
                            == f)),
                count_true(face_treatment_pattern@) == src.len() + edge_face_stack@.len(),
                oc ==> forall|k1: int, k2: int|
                    0 <= k1 < k2 < src.len() ==> opposite_over_shared(
                        #[trigger] synchronized_triangle_faces@[k1],
                        #[trigger] synchronized_triangle_faces@[k2],
                    ),
                oc ==> forall|k: int|
                    pre_len <= k < src.len() ==> #[trigger] synchronized_triangle_faces@[k]
                        == rtri[src[k]],
                oc ==> forall|k: int|
                    pre_len <= k < src.len() ==> !pre_treat[#[trigger] src[k]],
                oc ==> (src0.len() == pre_len && pre_len <= src.len() && src0 == src.take(
                    pre_len as int,
                )),
                oc ==> forall|k: int|
                    0 <= k < edge_face_stack@.len() ==> !pre_treat[(
                    #[trigger] edge_face_stack@[k]).1 as int],
                oc ==> forall|k: int|
                    0 <= k < edge_face_stack@.len() ==> rtri[(#[trigger] edge_face_stack@[k]).1
                        as int].spec_contains_oriented_edge(edge_face_stack@[k].0),
                oc ==> forall|f: int, j: int|
                    0 <= f < n && face_treatment_pattern@[f] && !stack_has(edge_face_stack@, f)
                        && 0 <= j < n && #[trigger] faces_adjacent(gfaces, f, j)
                        ==> face_treatment_pattern@[j],
            decreases
                    n - count_true(face_treatment_pattern@),
                    edge_face_stack@.len(),
        {
            let ghost pre_stack = edge_face_stack@;
            let popped = edge_face_stack.pop();
            let (current_test_edge, current_face_u32) = match popped {
                Some(p) => p,
                None => {
                    proof {
                        assert(false);
                    }
                    (OrientedEdge { vertices: (0, 0) }, 0u32)
                },
            };
            let current_face_index = current_face_u32 as usize;
            let current_face = original_triangle_faces[current_face_index];
            let proper_current_face = if current_face.contains_oriented_edge(current_test_edge) {
                current_face
            } else {
                current_face.to_reverted()
            };
            let ghost pre_src = src;
            synchronized_triangle_faces.push(proper_current_face);
            proof {
                if oc {
                    let cfi = current_face_index as int;
                    let t = face_triangle(gfaces[cfi]);
                    assert(pre_stack[pre_stack.len() - 1]
                        == (current_test_edge, current_face_u32));
                    assert(rtri[cfi].spec_contains_oriented_edge(current_test_edge));
                    assert(!pre_treat[cfi]);
                    assert(t.spec_reverted().spec_reverted() == t);
                    assert(rtri[cfi] == t || rtri[cfi] == t.spec_reverted());
                    if rtri[cfi] == t {
                        assert(proper_current_face == rtri[cfi]);
                    } else {
                        if t.spec_contains_oriented_edge(current_test_edge) {
                            lemma_nondegenerate_not_both(t, current_test_edge);
                            assert(false);
                        }
                        assert(proper_current_face == rtri[cfi]);
                    }
                }
                if pre_src.len() == 0 {
                    assert(current_face_index as int == 0);
                    assert(current_face.spec_contains_oriented_edge(current_test_edge)) by {
                        assert(current_face.spec_oriented_edges()[0] == current_test_edge);
                    }
                    assert(synchronized_triangle_faces@[0] == face_triangle(gfaces[0]));
                }
                lemma_count_true_le(face_treatment_pattern@);
                src = src.push(current_face_index as int);
                assert forall|f: int| 0 <= f < n implies (#[trigger] face_treatment_pattern@[f]
                    <==> (src.contains(f) || exists|k: int|
                    0 <= k < edge_face_stack@.len() && (#[trigger] edge_face_stack@[k].1 as int)
                        == f)) by {
                    if face_treatment_pattern@[f] {
                        if pre_src.contains(f) {
                            let k0 = choose|k0: int|
                                0 <= k0 < pre_src.len() && pre_src[k0] == f;
                            assert(src[k0] == f);
                            assert(src.contains(f));
                        } else {
                            let k0 = choose|k0: int|
                                0 <= k0 < pre_stack.len() && (#[trigger] pre_stack[k0].1 as int)
                                    == f;
                            if k0 < pre_stack.len() - 1 {
                                assert(edge_face_stack@[k0].1 as int == f);
                            } else {
                                assert(src[src.len() - 1] == f);
                                assert(src.contains(f));
                            }
                        }
                    } else {
                        assert(!pre_src.contains(f));
                        if src.contains(f) {
                            let k0 = choose|k0: int| 0 <= k0 < src.len() && src[k0] == f;
                            if k0 < src.len() - 1 {
                                assert(pre_src[k0] == f);
                                assert(pre_src.contains(f));
                            } else {
                                assert(pre_stack[pre_stack.len() - 1].1 as int == f);
                            }
                            assert(false);
                        }
                        if exists|k: int|
                            0 <= k < edge_face_stack@.len() && (#[trigger] edge_face_stack@[k].1
                                as int) == f {
                            let k0 = choose|k0: int|
                                0 <= k0 < edge_face_stack@.len() && (edge_face_stack@[k0].1 as int)
                                    == f;
                            assert(pre_stack[k0].1 as int == f);
                            assert(false);
                        }
                    }
                }
                if oc {
                    let cfi = current_face_index as int;
                    let t = face_triangle(gfaces[cfi]);
                    assert(src0 == src.take(pre_len as int)) by {
                        assert(src0.len() == pre_len);
                        assert(pre_src.take(pre_len as int).len() == pre_len);
                        assert(pre_len <= pre_src.len());
                        assert forall|idx: int| 0 <= idx < pre_len implies #[trigger] src.take(
                            pre_len as int,
                        )[idx] == pre_src.take(pre_len as int)[idx] by {
                            assert(src[idx] == pre_src[idx]);
                        }
                        assert(pre_src.take(pre_len as int) =~= src.take(pre_len as int));
                    }
                    assert forall|k: int|
                        pre_len <= k < src.len() implies #[trigger] synchronized_triangle_faces@[k]
                            == rtri[src[k]] by {
                        if k < src.len() - 1 {
                            assert(pre_src[k] == src[k]);
                        }
                    }
                    assert forall|k1: int, k2: int|
                        0 <= k1 < k2 < src.len() implies opposite_over_shared(
                            #[trigger] synchronized_triangle_faces@[k1],
                            #[trigger] synchronized_triangle_faces@[k2],
                        ) by {
                        if k2 == src.len() - 1 {
                            if k1 >= pre_len {
                                assert(synchronized_triangle_faces@[k1] == rtri[src[k1]]);
                                assert(src[k1] != cfi);
                                assert(opposite_over_shared(rtri[src[k1]], rtri[cfi]));
                            } else {
                                let f_old = src[k1];
                                assert(src0[k1] == f_old);
                                assert(src0.contains(f_old));
                                assert(pre_treat[f_old]);
                                if faces_adjacent(gfaces, f_old, cfi) {
                                    assert(pre_treat[cfi]);
                                    assert(false);
                                }
                                assert(f_old != cfi);
                                assert(!mesh_topology_analysis::tris_share_edge(
                                    face_triangle(gfaces[f_old]),
                                    t,
                                ));
                                assert(kept_or_reverted(
                                    Face::Triangle(synchronized_triangle_faces@[k1]),
                                    gfaces[f_old],
                                ));
                                lemma_unshared_opposite(
                                    face_triangle(gfaces[f_old]),
                                    t,
                                    synchronized_triangle_faces@[k1],
                                    proper_current_face,
                                );
                            }
                        }
                    }
                    // The popped face is out of the stack but not yet
                    // settled: its neighbours get treated edge by edge.
                    assert forall|f: int, j: int|
                        0 <= f < n && face_treatment_pattern@[f] && f != cfi && !stack_has(
                            edge_face_stack@,
                            f,
                        ) && 0 <= j < n && #[trigger] faces_adjacent(gfaces, f, j) implies
                        face_treatment_pattern@[j] by {
                        if stack_has(pre_stack, f) {
                            let k0 = choose|k0: int|
                                0 <= k0 < pre_stack.len() && (#[trigger] pre_stack[k0]).1 as int
                                    == f;
                            assert(k0 < pre_stack.len() - 1);
                            assert(edge_face_stack@[k0].1 as int == f);
                            assert(stack_has(edge_face_stack@, f));
                            assert(false);
                        }
                    }
                }
            }

            // Push the untreated neighbours across each of the face's
            // three edges, expecting the reverted orientation there.
            let face_oriented_edges = proper_current_face.to_oriented_edges();
            let mut ei: usize = 0;
            while ei < 3
                invariant
                    src.len() + edge_face_stack@.len() > pre_len,
                    src.len() > 0 ==> synchronized_triangle_faces@[0] == face_triangle(gfaces[0]),
                    edge_face_stack@.len() >= pre_stack.len() - 1,
                    0 <= ei <= 3,
                    original_triangle_faces@.len() == n == gfaces.len(),
                    forall|j: int|
                        0 <= j < n ==> #[trigger] original_triangle_faces@[j] == face_triangle(
                            gfaces[j],
                        ),
                    face_treatment_pattern@.len() == n,
                    src.len() == synchronized_triangle_faces@.len(),
                    forall|k: int| 0 <= k < src.len() ==> 0 <= #[trigger] src[k] < n,
                    forall|k1: int, k2: int| 0 <= k1 < k2 < src.len() ==> src[k1] != src[k2],
                    forall|k: int|
                        0 <= k < src.len() ==> kept_or_reverted(
                            Face::Triangle(#[trigger] synchronized_triangle_faces@[k]),
                            gfaces[src[k]],
                        ),
                    forall|k: int|
                        0 <= k < edge_face_stack@.len() ==> (#[trigger] edge_face_stack@[k].1
                            as int) < n,
                    forall|k: int|
                        0 <= k < edge_face_stack@.len() ==> !src.contains(
                            (#[trigger] edge_face_stack@[k].1) as int,
                        ),
                    forall|k1: int, k2: int|
                        0 <= k1 < k2 < edge_face_stack@.len() ==> edge_face_stack@[k1].1
                            != edge_face_stack@[k2].1,
                    forall|f: int|
                        0 <= f < n ==> (#[trigger] face_treatment_pattern@[f] <==> (src.contains(f)
                            || exists|k: int|
                            0 <= k < edge_face_stack@.len() && (#[trigger] edge_face_stack@[k].1
                                as int) == f)),
                    count_true(face_treatment_pattern@) == src.len() + edge_face_stack@.len(),
                    count_true(face_treatment_pattern@) <= n,
                    oc ==> forall|k: int|
                        0 <= k < edge_face_stack@.len() ==> !pre_treat[(
                        #[trigger] edge_face_stack@[k]).1 as int],
                    oc ==> forall|k: int|
                        0 <= k < edge_face_stack@.len() ==> rtri[(#[trigger] edge_face_stack@[k]).1
                            as int].spec_contains_oriented_edge(edge_face_stack@[k].0),
                    oc ==> forall|f: int, j: int|
                        0 <= f < n && face_treatment_pattern@[f] && f != current_face_index as int
                            && !stack_has(edge_face_stack@, f) && 0 <= j < n
                            && #[trigger] faces_adjacent(gfaces, f, j)
                            ==> face_treatment_pattern@[j],
                    oc ==> forall|j: int, e0: int|
                        0 <= j < n && 0 <= e0 < ei && #[trigger] face_triangle(
                            gfaces[j],
                        ).spec_contains_unoriented_edge(
                            UnorientedEdge(proper_current_face.spec_oriented_edges()[e0]),
                        ) ==> face_treatment_pattern@[j],
                decreases 3 - ei,
            {
                let face_oriented_edge = face_oriented_edges[ei];
                let face_unoriented_edge = UnorientedEdge(face_oriented_edge);
                proof {
                    lemma_proper_edges_covered(
                        geometry@,
                        unoriented_edges@,
                        current_face_index as int,
                        proper_current_face,
                        ei as int,
                    );
                }
                let edge_index = edge_index_of(unoriented_edges, face_unoriented_edge);
                let edge_in_faces = &edge_to_face_topology[edge_index];
                let mut fi: usize = 0;
                while fi < edge_in_faces.len()
                    invariant
                        src.len() + edge_face_stack@.len() > pre_len,
                        src.len() > 0 ==> synchronized_triangle_faces@[0] == face_triangle(
                            gfaces[0],
                        ),
                        edge_face_stack@.len() >= pre_stack.len() - 1,
                        0 <= fi <= edge_in_faces@.len(),
                        edge_in_faces@ == edge_to_face_topology@[edge_index as int]@,
                        0 <= edge_index < edge_to_face_topology@.len(),
                        original_triangle_faces@.len() == n == gfaces.len(),
                        face_treatment_pattern@.len() == n,
                        src.len() == synchronized_triangle_faces@.len(),
                        forall|k: int| 0 <= k < src.len() ==> 0 <= #[trigger] src[k] < n,
                        forall|k1: int, k2: int| 0 <= k1 < k2 < src.len() ==> src[k1] != src[k2],
                        forall|k: int|
                            0 <= k < edge_face_stack@.len() ==> (#[trigger] edge_face_stack@[k].1
                                as int) < n,
                        forall|k: int|
                            0 <= k < edge_face_stack@.len() ==> !src.contains(
                                (#[trigger] edge_face_stack@[k].1) as int,
                            ),
                        forall|k1: int, k2: int|
                            0 <= k1 < k2 < edge_face_stack@.len() ==> edge_face_stack@[k1].1
                                != edge_face_stack@[k2].1,
                        forall|f: int|
                            0 <= f < n ==> (#[trigger] face_treatment_pattern@[f] <==> (
                            src.contains(f) || exists|k: int|
                                0 <= k < edge_face_stack@.len() && (
                                #[trigger] edge_face_stack@[k].1 as int) == f)),
                        count_true(face_treatment_pattern@) == src.len() + edge_face_stack@.len(),
                        count_true(face_treatment_pattern@) <= n,
                        oc ==> forall|k: int|
                            0 <= k < edge_face_stack@.len() ==> !pre_treat[(
                            #[trigger] edge_face_stack@[k]).1 as int],
                        oc ==> forall|k: int|
                            0 <= k < edge_face_stack@.len() ==> rtri[(
                            #[trigger] edge_face_stack@[k]).1 as int].spec_contains_oriented_edge(
                                edge_face_stack@[k].0,
                            ),
                        oc ==> forall|f: int, j: int|
                            0 <= f < n && face_treatment_pattern@[f] && f != current_face_index
                                as int && !stack_has(edge_face_stack@, f) && 0 <= j < n
                                && #[trigger] faces_adjacent(gfaces, f, j)
                                ==> face_treatment_pattern@[j],
                        oc ==> forall|j: int, e0: int|
                            0 <= j < n && 0 <= e0 < ei && #[trigger] face_triangle(
                                gfaces[j],
                            ).spec_contains_unoriented_edge(
                                UnorientedEdge(proper_current_face.spec_oriented_edges()[e0]),
                            ) ==> face_treatment_pattern@[j],
                        oc ==> forall|k: int|
                            0 <= k < fi ==> (((#[trigger] edge_in_faces@[k]) as int) < n
                                && face_treatment_pattern@[(edge_in_faces@[k]) as int]),
                    decreases edge_in_faces@.len() - fi,
                {
                    let face_index = edge_in_faces[fi];
                    proof {
                        assert(adj_mem(edge_to_face_topology@, edge_index as int, face_index));
                    }
                    if !face_treatment_pattern[face_index as usize] {
                        let ghost pre_treat2 = face_treatment_pattern@;
                        let ghost pre_stack2 = edge_face_stack@;
                        edge_face_stack.push((face_oriented_edge.to_reverted(), face_index));
                        face_treatment_pattern[face_index as usize] = true;
                        proof {
                            lemma_count_true_set(pre_treat2, face_index as int);
                            lemma_count_true_le(face_treatment_pattern@);
                            assert forall|f: int| 0 <= f < n implies (
                            #[trigger] face_treatment_pattern@[f] <==> (src.contains(f) || exists|
                                k: int,
                            |
                                0 <= k < edge_face_stack@.len() && (
                                #[trigger] edge_face_stack@[k].1 as int) == f)) by {
                                if f == face_index as int {
                                    assert(edge_face_stack@[edge_face_stack@.len() - 1].1 as int
                                        == f);
                                } else {
                                    if pre_treat2[f] {
                                        if !src.contains(f) {
                                            let k0 = choose|k0: int|
                                                0 <= k0 < pre_stack2.len() && (
                                                #[trigger] pre_stack2[k0].1 as int) == f;
                                            assert(edge_face_stack@[k0].1 as int == f);
                                        }
                                    } else {
                                        if exists|k: int|
                                            0 <= k < edge_face_stack@.len() && (
                                            #[trigger] edge_face_stack@[k].1 as int) == f {
                                            let k0 = choose|k0: int|
                                                0 <= k0 < edge_face_stack@.len() && (
                                                edge_face_stack@[k0].1 as int) == f;
                                            assert(pre_stack2[k0].1 as int == f);
                                        }
                                    }
                                }
                            }
                            if oc {
                                let cfi = current_face_index as int;
                                let g = face_index as int;
                                let t_g = face_triangle(gfaces[g]);
                                // The face was untreated, so it was untreated
                                // when the component started.
                                assert(!pre_treat[g]) by {
                                    if pre_treat[g] {
                                        assert(src0.contains(g));
                                        let k0 = choose|k0: int|
                                            0 <= k0 < src0.len() && src0[k0] == g;
                                        assert(src.take(pre_len as int)[k0] == g);
                                        assert(src[k0] == g);
                                        assert(src.contains(g));
                                        assert(pre_treat2[g]);
                                        assert(false);
                                    }
                                }
                                // It contains the undirected edge being walked.
                                assert(t_g.spec_contains_unoriented_edge(
                                    unoriented_edges@[edge_index as int],
                                ));
                                let sl = choose|sl: int|
                                    0 <= sl < 3 && same_edge(
                                        UnorientedEdge(#[trigger] t_g.spec_oriented_edges()[sl]),
                                        unoriented_edges@[edge_index as int],
                                    );
                                assert(same_edge(
                                    UnorientedEdge(t_g.spec_oriented_edges()[sl]),
                                    face_unoriented_edge,
                                ));
                                assert(t_g.spec_contains_unoriented_edge(face_unoriented_edge));
                                assert(t_g.spec_reverted().spec_reverted() == t_g);
                                assert(rtri[g] == t_g || rtri[g] == t_g.spec_reverted());
                                if rtri[g] == t_g.spec_reverted() {
                                    lemma_reverted_keeps_unoriented(t_g, face_unoriented_edge);
                                }
                                assert(rtri[g].spec_contains_unoriented_edge(face_unoriented_edge));
                                let q = choose|q: int|
                                    0 <= q < 3 && same_edge(
                                        UnorientedEdge(
                                            #[trigger] rtri[g].spec_oriented_edges()[q],
                                        ),
                                        face_unoriented_edge,
                                    );
                                // The reference orientations of the emitting
                                // face and the pushed face disagree on the
                                // shared edge, so the expected edge is the
                                // reference one.
                                assert(g != cfi) by {
                                    assert(src[src.len() - 1] == cfi);
                                    assert(src.contains(cfi));
                                    assert(pre_treat2[cfi]);
                                }
                                assert(opposite_over_shared(rtri[cfi], rtri[g]));
                                assert(rtri[cfi].spec_oriented_edges()[ei as int]
                                    == face_oriented_edge);
                                assert(same_edge(
                                    UnorientedEdge(rtri[cfi].spec_oriented_edges()[ei as int]),
                                    UnorientedEdge(rtri[g].spec_oriented_edges()[q]),
                                ));
                                assert(rtri[g].spec_oriented_edges()[q]
                                    == face_oriented_edge.spec_reverted());
                                assert(rtri[g].spec_contains_oriented_edge(
                                    face_oriented_edge.spec_reverted(),
                                ));
                                assert forall|k: int|
                                    0 <= k < edge_face_stack@.len() implies rtri[(
                                #[trigger] edge_face_stack@[k]).1 as int].spec_contains_oriented_edge(
                                    edge_face_stack@[k].0,
                                ) by {
                                    if k < edge_face_stack@.len() - 1 {
                                        assert(edge_face_stack@[k] == pre_stack2[k]);
                                    } else {
                                        assert(edge_face_stack@[k] == (
                                            face_oriented_edge.spec_reverted(),
                                            face_index,
                                        ));
                                    }
                                }
                                assert forall|k: int|
                                    0 <= k < edge_face_stack@.len() implies !pre_treat[(
                                #[trigger] edge_face_stack@[k]).1 as int] by {
                                    if k < edge_face_stack@.len() - 1 {
                                        assert(edge_face_stack@[k] == pre_stack2[k]);
                                    }
                                }
                            }
                        }
                    }
                    proof {
                        assert(((edge_in_faces@[fi as int]) as int) < n);
                        assert(face_treatment_pattern@[(edge_in_faces@[fi as int]) as int]);
                    }
                    fi = fi + 1;
                }
                proof {
                    if oc {
                        // The whole row is treated now, and the row lists
                        // every face on this undirected edge: edge `ei` of
                        // the emitted face is settled.
                        assert forall|j: int|
                            0 <= j < n && #[trigger] face_triangle(
                                gfaces[j],
                            ).spec_contains_unoriented_edge(
                                UnorientedEdge(
                                    proper_current_face.spec_oriented_edges()[ei as int],
                                ),
                            ) implies face_treatment_pattern@[j] by {
                            let t_j = face_triangle(gfaces[j]);
                            let sl = choose|sl: int|
                                0 <= sl < 3 && same_edge(
                                    UnorientedEdge(#[trigger] t_j.spec_oriented_edges()[sl]),
                                    face_unoriented_edge,
                                );
                            assert(same_edge(
                                UnorientedEdge(t_j.spec_oriented_edges()[sl]),
                                unoriented_edges@[edge_index as int],
                            ));
                            assert(t_j.spec_contains_unoriented_edge(
                                unoriented_edges@[edge_index as int],
                            ));
                            assert(adj_mem(edge_to_face_topology@, edge_index as int, j as u32));
                            let k0 = choose|k0: int|
                                0 <= k0 < edge_in_faces@.len() && (#[trigger] edge_in_faces@[k0])
                                    == j as u32;
                            assert(face_treatment_pattern@[(edge_in_faces@[k0]) as int]);
                        }
                    }
                }
                ei = ei + 1;
            }
            proof {
                if oc {
                    // All three edges of the emitted face are settled: it
                    // rejoins the closure.
                    let cfi = current_face_index as int;
                    let t = face_triangle(gfaces[cfi]);
                    assert forall|f: int, j: int|
                        0 <= f < n && face_treatment_pattern@[f] && !stack_has(edge_face_stack@, f)
                            && 0 <= j < n && #[trigger] faces_adjacent(gfaces, f, j) implies
                        face_treatment_pattern@[j] by {
                        if f == cfi {
                            let t_j = face_triangle(gfaces[j]);
                            let p = choose|p: int|
                                0 <= p < 3 && t_j.spec_contains_unoriented_edge(
                                    UnorientedEdge(#[trigger] t.spec_oriented_edges()[p]),
                                );
                            let p2: int = if proper_current_face == t {
                                p
                            } else if p == 0 {
                                1
                            } else if p == 1 {
                                0
                            } else {
                                2
                            };
                            assert(same_edge(
                                UnorientedEdge(proper_current_face.spec_oriented_edges()[p2]),
                                UnorientedEdge(t.spec_oriented_edges()[p]),
                            ));
                            let sl = choose|sl: int|
                                0 <= sl < 3 && same_edge(
                                    UnorientedEdge(#[trigger] t_j.spec_oriented_edges()[sl]),
                                    UnorientedEdge(t.spec_oriented_edges()[p]),
                                );
                            assert(same_edge(
                                UnorientedEdge(t_j.spec_oriented_edges()[sl]),
                                UnorientedEdge(proper_current_face.spec_oriented_edges()[p2]),
                            ));
                            assert(t_j.spec_contains_unoriented_edge(
                                UnorientedEdge(proper_current_face.spec_oriented_edges()[p2]),
                            ));
                        }
                    }
                }
            }
        }
        proof {
            lemma_count_true_le(face_treatment_pattern@);
        }
    }

    proof {
        assert(is_reordering(src, n as int));
    }
    let vertices = copy_vec(geometry.vertices());
    let normals = copy_vec(geometry.normals());
    let ghost final_src = src;
    let mut wrapped: Vec<Face> = Vec::new();
    let mut i: usize = 0;
    while i < synchronized_triangle_faces.len()
        invariant
            0 <= i <= synchronized_triangle_faces@.len(),
            wrapped@.len() == i,
            forall|j: int|
                0 <= j < i ==> #[trigger] wrapped@[j] == Face::Triangle(
                    synchronized_triangle_faces@[j],
                ),
        decreases synchronized_triangle_faces@.len() - i,
    {
        wrapped.push(Face::Triangle(synchronized_triangle_faces[i]));
        i = i + 1;
    }
    proof {
        assert forall|j: int| 0 <= j < wrapped@.len() implies tri_vertices_in_bounds(
            face_triangle(#[trigger] wrapped@[j]),
            geometry@.vertices.len(),
        ) && tri_normals_in_bounds(face_triangle(wrapped@[j]), geometry@.normals.len()) by {
            assert(kept_or_reverted(Face::Triangle(synchronized_triangle_faces@[j]), gfaces[src[j]]));
        }
    }
    let r = Geometry::from_faces_with_vertices_and_normals(wrapped, vertices, normals);
    proof {
        if gfaces.len() > 0 {
            assert(r@.faces[0] == Face::Triangle(synchronized_triangle_faces@[0]));
            assert(r@.faces[0] == gfaces[0]);
        }
        if oc {
            assert forall|i0: int, j0: int|
                0 <= i0 < r@.faces.len() && 0 <= j0 < r@.faces.len() && i0 != j0 implies
                opposite_over_shared(
                    face_triangle(#[trigger] r@.faces[i0]),
                    face_triangle(#[trigger] r@.faces[j0]),
                ) by {
                assert(face_triangle(r@.faces[i0]) == synchronized_triangle_faces@[i0]);
                assert(face_triangle(r@.faces[j0]) == synchronized_triangle_faces@[j0]);
                if i0 < j0 {
                    assert(opposite_over_shared(
                        synchronized_triangle_faces@[i0],
                        synchronized_triangle_faces@[j0],
                    ));
                } else {
                    assert(opposite_over_shared(
                        synchronized_triangle_faces@[j0],
                        synchronized_triangle_faces@[i0],
                    ));
                    lemma_opposite_symm(
                        synchronized_triangle_faces@[j0],
                        synchronized_triangle_faces@[i0],
                    );
                }
            }
            assert(faces_consistently_wound(r@.faces));
        }
        assert forall|i0: int| 0 <= i0 < gfaces.len() implies kept_or_reverted(
            r@.faces[i0],
            gfaces[final_src[i0]],
        ) by {
            assert(kept_or_reverted(
                Face::Triangle(synchronized_triangle_faces@[i0]),
                gfaces[src[i0]],
            ));
        }
    }
    r
}

proof fn lemma_count_true_le(s: Seq<bool>)
    ensures
        count_true(s) <= s.len(),
    decreases s.len(),
{
    if s.len() > 0 {
        lemma_count_true_le(s.drop_last());
    }
}

/// The count of trues in an all-false sequence is zero.
proof fn lemma_count_zero(s: Seq<bool>)
    requires
        forall|i: int| 0 <= i < s.len() ==> !(#[trigger] s[i]),
    ensures
        count_true(s) == 0,
    decreases s.len(),
{
    if s.len() > 0 {
        lemma_count_zero(s.drop_last());
    }
}

/// The edges of a kept-or-reverted face are covered by the edge list
/// whenever the original face's edges are.
proof fn lemma_proper_edges_covered(
    gv: GeometryView,
    edges: Seq<UnorientedEdge>,
    face_index: int,
    proper: TriangleFace,
    j: int,
)
    requires
        edge_list_covers(gv, edges),
        0 <= face_index < gv.faces.len(),
        0 <= j < 3,
        proper == face_triangle(gv.faces[face_index]) || proper == face_triangle(
            gv.faces[face_index],
        ).spec_reverted(),
    ensures
        exists|k: int|
            0 <= k < edges.len() && same_edge(
                edges[k],
                UnorientedEdge(proper.spec_oriented_edges()[j]),
            ),
{
    let t = face_triangle(gv.faces[face_index]);
    if proper == t {
        let k = choose|k: int|
            0 <= k < edges.len() && same_edge(
                edges[k],
                UnorientedEdge(t.spec_oriented_edges()[j]),
            );
        assert(same_edge(edges[k], UnorientedEdge(proper.spec_oriented_edges()[j])));
    } else {
        // Edge j of the reverted face is the reversal of an edge of the
        // original (edges 0 and 1 swap, edge 2 stays): the same undirected
        // edge either way.
        let j0: int = if j == 0 {
            1
        } else if j == 1 {
            0
        } else {
            2
        };
        let k = choose|k: int|
            0 <= k < edges.len() && same_edge(
                edges[k],
                UnorientedEdge(t.spec_oriented_edges()[j0]),
            );
        assert(same_edge(edges[k], UnorientedEdge(proper.spec_oriented_edges()[j])));
    }
}

/// Whether the component holds face index `f`.
pub open spec fn comp_contains(r: Seq<u32>, f: int) -> bool {
    exists|k: int| 0 <= k < r.len() && (#[trigger] r[k]) as int == f
}

/// A walk across shared undirected edges: a nonempty list of face
/// indices in which consecutive entries are adjacent.
pub open spec fn is_face_path(faces: Seq<Face>, p: Seq<u32>) -> bool {
    &&& p.len() > 0
    &&& forall|k: int| 0 <= k < p.len() ==> ((#[trigger] p[k]) as int) < faces.len()
    &&& forall|k: int|
        0 < k < p.len() ==> faces_adjacent(faces, p[k - 1] as int, (#[trigger] p[k]) as int)
}

/// Whether the two faces lie in one edge-connected patch: some walk
/// leads from `a` to `b`.
#[verifier::opaque]
pub open spec fn connected(faces: Seq<Face>, a: int, b: int) -> bool {
    exists|p: Seq<u32>|
        #[trigger] is_face_path(faces, p) && p.first() as int == a && p.last() as int == b
}

/// Every face is connected to itself.
proof fn lemma_connected_refl(faces: Seq<Face>, a: int)
    requires
        0 <= a < faces.len(),
        a <= u32::MAX,
    ensures
        connected(faces, a, a),
{
    reveal(connected);
    let p = seq![a as u32];
    assert(is_face_path(faces, p));
    assert(p.first() as int == a && p.last() as int == a);
}

/// A walk can be extended by one adjacency step.
proof fn lemma_connected_step(faces: Seq<Face>, a: int, b: int, c: int)
    requires
        connected(faces, a, b),
        0 <= c < faces.len(),
        c <= u32::MAX,
        faces_adjacent(faces, b, c),
    ensures
        connected(faces, a, c),
{
    reveal(connected);
    let p = choose|p: Seq<u32>|
        #[trigger] is_face_path(faces, p) && p.first() as int == a && p.last() as int == b;
    let q = p.push(c as u32);
    assert forall|k: int| 0 < k < q.len() implies faces_adjacent(
        faces,
        q[k - 1] as int,
        (#[trigger] q[k]) as int,
    ) by {
        if k < q.len() - 1 {
            assert(q[k - 1] == p[k - 1] && q[k] == p[k]);
        } else {
            assert(q[k - 1] == p[p.len() - 1] && q[k] == c as u32);
        }
    }
    assert(is_face_path(faces, q));
    assert(q.first() as int == a && q.last() as int == c);
}

/// Sharing an edge is symmetric.
proof fn lemma_faces_adjacent_symm(faces: Seq<Face>, a: int, b: int)
    requires
        0 <= a < faces.len(),
        0 <= b < faces.len(),
        faces_adjacent(faces, a, b),
    ensures
        faces_adjacent(faces, b, a),
{
    let ta = face_triangle(faces[a]);
    let tb = face_triangle(faces[b]);
    let i = choose|i: int|
        0 <= i < 3 && tb.spec_contains_unoriented_edge(
            UnorientedEdge(#[trigger] ta.spec_oriented_edges()[i]),
        );
    let j = choose|j: int|
        0 <= j < 3 && same_edge(
            UnorientedEdge(#[trigger] tb.spec_oriented_edges()[j]),
            UnorientedEdge(ta.spec_oriented_edges()[i]),
        );
    assert(same_edge(
        UnorientedEdge(ta.spec_oriented_edges()[i]),
        UnorientedEdge(tb.spec_oriented_edges()[j]),
    ));
    assert(ta.spec_contains_unoriented_edge(UnorientedEdge(tb.spec_oriented_edges()[j])));
    assert(mesh_topology_analysis::tris_share_edge(tb, ta));
}

/// Connectivity is symmetric: a walk can be reversed.
proof fn lemma_connected_symm(faces: Seq<Face>, a: int, b: int)
    requires
        connected(faces, a, b),
    ensures
        connected(faces, b, a),
{
    reveal(connected);
    let p = choose|p: Seq<u32>|
        #[trigger] is_face_path(faces, p) && p.first() as int == a && p.last() as int == b;
    let q = Seq::new(p.len(), |k: int| p[p.len() - 1 - k]);
    assert forall|k: int| 0 < k < q.len() implies faces_adjacent(
        faces,
        q[k - 1] as int,
        (#[trigger] q[k]) as int,
    ) by {
        let k0 = p.len() - k;
        assert(q[k - 1] == p[k0] && q[k] == p[k0 - 1]);
        assert(faces_adjacent(faces, p[k0 - 1] as int, p[k0] as int));
        lemma_faces_adjacent_symm(faces, p[k0 - 1] as int, p[k0] as int);
    }
    assert(is_face_path(faces, q));
    assert(q.first() as int == b && q.last() as int == a);
}

/// Every face on a walk that starts inside a closed component stays
/// inside it.
proof fn lemma_closed_along_path(faces: Seq<Face>, part: Seq<u32>, p: Seq<u32>, k: int)
    requires
        part_closed(faces, part),
        is_face_path(faces, p),
        comp_contains(part, p.first() as int),
        0 <= k < p.len(),
    ensures
        comp_contains(part, p[k] as int),
    decreases k,
{
    if k > 0 {
        lemma_closed_along_path(faces, part, p, k - 1);
        if p[k] != p[k - 1] {
            let k2 = choose|k2: int|
                0 <= k2 < part.len() && (#[trigger] part[k2]) as int == p[k - 1] as int;
            assert(faces_adjacent(faces, part[k2] as int, p[k] as int));
        }
    }
}

/// A component closed under adjacency contains everything connected to
/// any of its members.
proof fn lemma_closed_reaches(faces: Seq<Face>, part: Seq<u32>, h: int, y: int)
    requires
        part_closed(faces, part),
        comp_contains(part, h),
        connected(faces, h, y),
    ensures
        comp_contains(part, y),
{
    reveal(connected);
    let p = choose|p: Seq<u32>|
        #[trigger] is_face_path(faces, p) && p.first() as int == h && p.last() as int == y;
    lemma_closed_along_path(faces, part, p, p.len() - 1);
}

/// Every neighbour of a member of the component is itself a member.
pub open spec fn part_closed(faces: Seq<Face>, part: Seq<u32>) -> bool {
    forall|k: int, j: int|
        0 <= k < part.len() && 0 <= j < faces.len() && #[trigger] faces_adjacent(
            faces,
            part[k] as int,
            j,
        ) ==> comp_contains(part, j)
}

/// The hub face is connected to every member of the component.
pub open spec fn hub_connects(faces: Seq<Face>, part: Seq<u32>, h: int) -> bool {
    forall|k: int| 0 <= k < part.len() ==> #[trigger] connected(faces, h, part[k] as int)
}

/// Some hub face is connected to every member of the component.
pub open spec fn part_connected(faces: Seq<Face>, part: Seq<u32>) -> bool {
    exists|h: int| 0 <= h < faces.len() && #[trigger] hub_connects(faces, part, h)
}

/// Some part holds face index `f`.
pub open spec fn covered_by(parts: Seq<Seq<u32>>, f: int) -> bool {
    exists|p: int| 0 <= p < parts.len() && #[trigger] comp_contains(parts[p], f)
}

/// The parts are nonempty, strictly increasing lists of face indices
/// below `n`, pairwise disjoint, and together cover every face exactly
/// once.
pub open spec fn is_face_partition(parts: Seq<Seq<u32>>, n: int) -> bool {
    &&& forall|p: int| 0 <= p < parts.len() ==> (#[trigger] parts[p]).len() > 0
    &&& forall|p: int, k: int|
        0 <= p < parts.len() && 0 <= k < parts[p].len() ==> ((#[trigger] parts[p][k]) as int) < n
    &&& forall|p: int, k1: int, k2: int|
        0 <= p < parts.len() && 0 <= k1 < k2 < parts[p].len() ==> #[trigger] parts[p][k1]
            < #[trigger] parts[p][k2]
    &&& forall|p1: int, p2: int, f: int|
        0 <= p1 < p2 < parts.len() ==> !(#[trigger] comp_contains(parts[p1], f)
            && #[trigger] comp_contains(parts[p2], f))
    &&& forall|f: int| 0 <= f < n ==> #[trigger] covered_by(parts, f)
}

/// In a strictly increasing sequence each entry is at least its index.
proof fn lemma_ascending_bound(comp: Seq<u32>, k: int)
    requires
        forall|k1: int, k2: int| 0 <= k1 < k2 < comp.len() ==> comp[k1] < comp[k2],
        0 <= k < comp.len(),
    ensures
        comp[k] >= k,
    decreases k,
{
    if k > 0 {
        lemma_ascending_bound(comp, k - 1);
    }
}

/// In a strictly increasing integer sequence each entry is at least its
/// index.
proof fn lemma_ascending_bound_int(s: Seq<int>, k: int)
    requires
        forall|k1: int, k2: int| 0 <= k1 < k2 < s.len() ==> s[k1] < s[k2],
        forall|k1: int| 0 <= k1 < s.len() ==> #[trigger] s[k1] >= 0,
        0 <= k < s.len(),
    ensures
        s[k] >= k,
    decreases k,
{
    if k > 0 {
        lemma_ascending_bound_int(s, k - 1);
        assert(s[k - 1] < s[k]);
    }
}

/// The faces a part selects from the input, in part order.
pub open spec fn part_faces(gv: GeometryView, part: Seq<u32>) -> Seq<Face> {
    Seq::new(part.len(), |k: int| gv.faces[part[k] as int])
}

/// The patch is exactly the orphan-free geometry over the part's faces:
/// each face re-indexed by the orphan-removal ranks, the vertex and
/// normal lists compacted to the referenced entries (values preserved,
/// input order kept), nothing unreferenced left, everything in bounds,
/// and each face resolving to the same positions and normals as in the
/// input.
pub open spec fn patch_matches(gv: GeometryView, part: Seq<u32>, patch: Geometry) -> bool {
    let sel = part_faces(gv, part);
    &&& patch@.faces.len() == part.len()
    &&& forall|k: int|
        0 <= k < part.len() ==> #[trigger] patch@.faces[k] == Face::Triangle(
            remap_face(sel, face_triangle(sel[k])),
        )
    &&& patch@.vertices.len() == crate::geometry::vertex_rank(sel, gv.vertices.len() as int)
    &&& forall|v: int|
        0 <= v < gv.vertices.len() && vertex_referenced(sel, v)
            ==> #[trigger] patch@.vertices[crate::geometry::vertex_rank(sel, v) as int]
            == gv.vertices[v]
    &&& patch@.normals.len() == crate::geometry::normal_rank(sel, gv.normals.len() as int)
    &&& forall|n: int|
        0 <= n < gv.normals.len() && normal_referenced(sel, n)
            ==> #[trigger] patch@.normals[crate::geometry::normal_rank(sel, n) as int]
            == gv.normals[n]
    &&& forall|p: int| 0 <= p < patch@.vertices.len() ==> vertex_referenced(patch@.faces, p)
    &&& forall|p: int| 0 <= p < patch@.normals.len() ==> normal_referenced(patch@.faces, p)
    &&& patch@.wf()
    &&& forall|k: int|
        0 <= k < part.len() ==> #[trigger] resolved_face(patch@, k) == resolved_face(
            gv,
            part[k] as int,
        )
}

/// What separation returns: one geometry per edge-connected patch. The
/// parts partition the input faces; each part is closed under adjacency
/// and connected; each output geometry carries exactly its part's faces,
/// resolved to the input's positions and normals.
pub open spec fn valid_separation(gv: GeometryView, parts: Seq<Seq<u32>>, out: Seq<Geometry>) -> bool {
    &&& out.len() == parts.len()
    &&& is_face_partition(parts, gv.faces.len() as int)
    &&& forall|p: int| 0 <= p < parts.len() ==> part_closed(gv.faces, #[trigger] parts[p])
    &&& forall|p: int| 0 <= p < parts.len() ==> part_connected(gv.faces, #[trigger] parts[p])
    &&& forall|p: int| 0 <= p < parts.len() ==> patch_matches(gv, #[trigger] parts[p], out[p])
}

/// Flood-fills the faces reachable from the start face across shared
/// edges, returning the component's face indices in increasing order.
#[verifier::loop_isolation(false)]
/// Marks every face reachable from the start face across shared edges.
#[verifier::loop_isolation(false)]
#[verifier::rlimit(60)]
fn flood_visit(face_to_face: &Vec<Vec<u32>>, start_face_index: u32, gfaces: Ghost<Seq<Face>>) -> (
    visited: Vec<bool>)
    requires
        face_to_face@.len() == gfaces@.len(),
        (start_face_index as int) < gfaces@.len(),
        gfaces@.len() <= u32::MAX,
        forall|x: int, y: u32|
            0 <= x < face_to_face@.len() ==> ((#[trigger] adj_mem(face_to_face@, x, y)) <==> (
            faces_adjacent(gfaces@, x, y as int) && (y as int) < gfaces@.len())),
    ensures
        visited@.len() == gfaces@.len(),
        visited@[start_face_index as int],
        forall|f: int|
            0 <= f < gfaces@.len() && #[trigger] visited@[f] ==> connected(
                gfaces@,
                start_face_index as int,
                f,
            ),
        forall|f: int, j: int|
            0 <= f < gfaces@.len() && visited@[f] && 0 <= j < gfaces@.len()
                && #[trigger] faces_adjacent(gfaces@, f, j) ==> visited@[j],
{
    let n = face_to_face.len();
    let mut visited: Vec<bool> = Vec::new();
    let mut i: usize = 0;
    while i < n
        invariant
            visited@.len() == i <= n,
            forall|j: int| 0 <= j < i ==> !(#[trigger] visited@[j]),
        decreases n - i,
    {
        visited.push(false);
        i = i + 1;
    }
    proof {
        lemma_count_zero(visited@);
        lemma_connected_refl(gfaces@, start_face_index as int);
    }
    let ghost pre0 = visited@;
    visited[start_face_index as usize] = true;
    proof {
        lemma_count_true_set(pre0, start_face_index as int);
    }
    let mut index_stack: Vec<u32> = Vec::new();
    index_stack.push(start_face_index);
    proof {
        assert(comp_contains(index_stack@, start_face_index as int)) by {
            assert(index_stack@[0] == start_face_index);
        }
        lemma_count_true_le(visited@);
    }

    while index_stack.len() > 0
        invariant
            visited@.len() == n,
            visited@[start_face_index as int],
            forall|k: int| 0 <= k < index_stack@.len() ==> ((#[trigger] index_stack@[k]) as int) < n,
            forall|k: int|
                0 <= k < index_stack@.len() ==> visited@[(#[trigger] index_stack@[k]) as int],
            forall|f: int|
                0 <= f < n && #[trigger] visited@[f] ==> connected(
                    gfaces@,
                    start_face_index as int,
                    f,
                ),
            forall|f: int, j: int|
                0 <= f < n && visited@[f] && !comp_contains(index_stack@, f) && 0 <= j < n
                    && #[trigger] faces_adjacent(gfaces@, f, j) ==> visited@[j],
            count_true(visited@) <= n,
        decreases n - count_true(visited@), index_stack@.len(),
    {
        let ghost pre_stack = index_stack@;
        let popped = index_stack.pop();
        let y = match popped {
            Some(v) => v,
            None => {
                proof {
                    assert(false);
                }
                0u32
            },
        };
        let ghost pre_count = count_true(visited@);
        proof {
            assert forall|f: int, j: int|
                0 <= f < n && visited@[f] && f != y as int && !comp_contains(index_stack@, f) && 0
                    <= j < n && #[trigger] faces_adjacent(gfaces@, f, j) implies visited@[j] by {
                if comp_contains(pre_stack, f) {
                    let k0 = choose|k0: int|
                        0 <= k0 < pre_stack.len() && (#[trigger] pre_stack[k0]) as int == f;
                    assert(k0 < pre_stack.len() - 1);
                    assert(index_stack@[k0] as int == f);
                    assert(comp_contains(index_stack@, f));
                    assert(false);
                }
            }
        }
        visit_neighbors(face_to_face, &mut visited, &mut index_stack, y, Ghost(start_face_index as int), gfaces);
        proof {
            lemma_count_true_le(visited@);
        }
    }
    visited
}

/// Pushes every untreated neighbour of face `y` and marks it visited.
#[verifier::loop_isolation(false)]
#[verifier::rlimit(100)]
fn visit_neighbors(
    face_to_face: &Vec<Vec<u32>>,
    visited: &mut Vec<bool>,
    index_stack: &mut Vec<u32>,
    y: u32,
    start: Ghost<int>,
    gfaces: Ghost<Seq<Face>>,
)
    requires
        face_to_face@.len() == gfaces@.len(),
        gfaces@.len() <= u32::MAX,
        (y as int) < gfaces@.len(),
        old(visited)@.len() == gfaces@.len(),
        old(visited)@[y as int],
        0 <= start@ < gfaces@.len(),
        forall|x: int, z: u32|
            0 <= x < face_to_face@.len() ==> ((#[trigger] adj_mem(face_to_face@, x, z)) <==> (
            faces_adjacent(gfaces@, x, z as int) && (z as int) < gfaces@.len())),
        forall|k: int|
            0 <= k < old(index_stack)@.len() ==> ((#[trigger] old(index_stack)@[k]) as int)
                < gfaces@.len(),
        forall|k: int|
            0 <= k < old(index_stack)@.len() ==> old(visited)@[(#[trigger] old(index_stack)@[k])
                as int],
        forall|f: int|
            0 <= f < gfaces@.len() && #[trigger] old(visited)@[f] ==> connected(gfaces@, start@, f),
        forall|f: int, j: int|
            0 <= f < gfaces@.len() && old(visited)@[f] && f != y as int && !comp_contains(
                old(index_stack)@,
                f,
            ) && 0 <= j < gfaces@.len() && #[trigger] faces_adjacent(gfaces@, f, j) ==> old(visited)@[j],
    ensures
        final(visited)@.len() == gfaces@.len(),
        forall|f: int| 0 <= f < gfaces@.len() && old(visited)@[f] ==> #[trigger] final(visited)@[f],
        final(index_stack)@.len() >= old(index_stack)@.len(),
        count_true(final(visited)@) == count_true(old(visited)@) + (final(index_stack)@.len() - old(
            index_stack,
        )@.len()),
        forall|k: int|
            0 <= k < final(index_stack)@.len() ==> ((#[trigger] final(index_stack)@[k]) as int)
                < gfaces@.len(),
        forall|k: int|
            0 <= k < final(index_stack)@.len() ==> final(visited)@[(
            #[trigger] final(index_stack)@[k]) as int],
        forall|f: int|
            0 <= f < gfaces@.len() && #[trigger] final(visited)@[f] ==> connected(
                gfaces@,
                start@,
                f,
            ),
        forall|f: int, j: int|
            0 <= f < gfaces@.len() && final(visited)@[f] && !comp_contains(final(index_stack)@, f)
                && 0 <= j < gfaces@.len() && #[trigger] faces_adjacent(gfaces@, f, j)
                ==> final(visited)@[j],
{
    let n = face_to_face.len();
    let ghost pre_stack = index_stack@;
    let ghost pre_count = count_true(visited@);
    let row = &face_to_face[y as usize];
    let mut fi: usize = 0;
    #[verifier::loop_isolation(true)]
    while fi < row.len()
        invariant
            0 <= fi <= row@.len(),
            row@ == face_to_face@[y as int]@,
            (y as int) < n,
            n == face_to_face@.len() == gfaces@.len(),
            gfaces@.len() <= u32::MAX,
            0 <= start@ < n,
            forall|x: int, z: u32|
                0 <= x < face_to_face@.len() ==> ((#[trigger] adj_mem(face_to_face@, x, z)) <==> (
                faces_adjacent(gfaces@, x, z as int) && (z as int) < gfaces@.len())),
            visited@.len() == n,
            visited@[y as int],
            forall|f: int| 0 <= f < n && old(visited)@[f] ==> #[trigger] visited@[f],
            index_stack@.len() >= pre_stack.len(),
            count_true(visited@) == pre_count + (index_stack@.len() - pre_stack.len()),
            forall|k: int|
                0 <= k < pre_stack.len() ==> #[trigger] index_stack@[k] == pre_stack[k],
            forall|k: int|
                0 <= k < index_stack@.len() ==> ((#[trigger] index_stack@[k]) as int) < n,
            forall|k: int|
                0 <= k < index_stack@.len() ==> visited@[(#[trigger] index_stack@[k]) as int],
            forall|f: int|
                0 <= f < n && #[trigger] visited@[f] ==> connected(gfaces@, start@, f),
            forall|f: int, j: int|
                0 <= f < n && visited@[f] && f != y as int && !comp_contains(index_stack@, f) && 0
                    <= j < n && #[trigger] faces_adjacent(gfaces@, f, j) ==> visited@[j],
            forall|j: int| 0 <= j < fi ==> visited@[(#[trigger] row@[j]) as int],
        decreases row@.len() - fi,
    {
        proof {
            assert(forall|j: int| 0 <= j < fi ==> visited@[(#[trigger] row@[j]) as int]);
        }
        let z = row[fi];
        proof {
            assert(adj_mem(face_to_face@, y as int, z));
        }
        if !visited[z as usize] {
            let ghost pre_visited = visited@;
            let ghost stack0 = index_stack@;
            visited[z as usize] = true;
            index_stack.push(z);
            proof {
                lemma_count_true_set(pre_visited, z as int);
                lemma_connected_step(gfaces@, start@, y as int, z as int);
                assert(visited@ =~= pre_visited.update(z as int, true));
                assert(forall|idx: int|
                    0 <= idx < pre_visited.len() && pre_visited[idx] ==> #[trigger] visited@[idx]);
                assert(index_stack@ =~= stack0.push(z));
                assert forall|k: int| 0 <= k < index_stack@.len() implies visited@[(
                #[trigger] index_stack@[k]) as int] by {
                    if k < index_stack@.len() - 1 {
                        assert(index_stack@[k] == stack0[k]);
                        assert(pre_visited[(index_stack@[k]) as int]);
                    }
                }
                assert forall|f: int, j: int|
                    0 <= f < n && visited@[f] && f != y as int && !comp_contains(index_stack@, f)
                        && 0 <= j < n && #[trigger] faces_adjacent(gfaces@, f, j) implies visited@[j] by {
                    if f != z as int {
                        assert(pre_visited[f]);
                        if comp_contains(stack0, f) {
                            let k0 = choose|k0: int|
                                0 <= k0 < stack0.len() && (#[trigger] stack0[k0]) as int == f;
                            assert(index_stack@[k0] as int == f);
                            assert(comp_contains(index_stack@, f));
                            assert(false);
                        }
                        assert(pre_visited[j]);
                    } else {
                        assert(comp_contains(index_stack@, z as int)) by {
                            assert(index_stack@[index_stack@.len() - 1] == z);
                        }
                        assert(false);
                    }
                }
            }
        }
        proof {
            assert forall|j: int| 0 <= j < fi + 1 implies visited@[(#[trigger] row@[j]) as int] by {
                if j == fi as int {
                    assert(adj_mem(face_to_face@, y as int, row@[j]));
                    assert(visited@[row@[fi as int] as int]);
                } else {
                    assert(0 <= j < fi);
                    assert(adj_mem(face_to_face@, y as int, row@[j]));
                    assert(((row@[j]) as int) < n);
                    assert(visited@[(row@[j]) as int]);
                }
            }
        }
        fi = fi + 1;
    }
    proof {
        // The face y is now settled: every neighbour sits in its row, and
        // the whole row has been visited.
        assert forall|f: int, j: int|
            0 <= f < n && visited@[f] && !comp_contains(index_stack@, f) && 0 <= j < n
                && #[trigger] faces_adjacent(gfaces@, f, j) implies visited@[j] by {
            if f == y as int {
                assert(adj_mem(face_to_face@, y as int, j as u32));
                let k0 = choose|k0: int| 0 <= k0 < row@.len() && (#[trigger] row@[k0]) == j as u32;
                assert(visited@[row@[k0] as int]);
            }
        }
    }
}

/// Lists the indices of the visited faces in increasing order.
#[verifier::loop_isolation(false)]
fn collect_visited(visited: &Vec<bool>) -> (comp: Vec<u32>)
    requires
        visited@.len() <= u32::MAX,
    ensures
        forall|k1: int, k2: int| 0 <= k1 < k2 < comp@.len() ==> comp@[k1] < comp@[k2],
        forall|k: int| 0 <= k < comp@.len() ==> ((#[trigger] comp@[k]) as int) < visited@.len(),
        forall|y: int| #[trigger] comp_contains(comp@, y) <==> (0 <= y < visited@.len() && visited@[y]),
{
    let n = visited.len();
    let mut comp: Vec<u32> = Vec::new();
    let mut f: usize = 0;
    while f < n
        invariant
            0 <= f <= n,
            forall|k1: int, k2: int| 0 <= k1 < k2 < comp@.len() ==> comp@[k1] < comp@[k2],
            forall|k: int| 0 <= k < comp@.len() ==> ((#[trigger] comp@[k]) as int) < f,
            forall|y: int| #[trigger] comp_contains(comp@, y) <==> (0 <= y < f && visited@[y]),
        decreases n - f,
    {
        if visited[f] {
            let ghost prev = comp@;
            comp.push(f as u32);
            proof {
                assert forall|y: int| #[trigger] comp_contains(comp@, y) implies (0 <= y < f + 1
                    && visited@[y]) by {
                    let k0 = choose|k0: int|
                        0 <= k0 < comp@.len() && (#[trigger] comp@[k0]) as int == y;
                    if k0 < comp@.len() - 1 {
                        assert(prev[k0] as int == y);
                        assert(comp_contains(prev, y));
                    }
                }
                assert forall|y: int| (0 <= y < f + 1 && visited@[y]) implies
                    #[trigger] comp_contains(comp@, y) by {
                    if y < f {
                        assert(comp_contains(prev, y));
                        let k0 = choose|k0: int|
                            0 <= k0 < prev.len() && (#[trigger] prev[k0]) as int == y;
                        assert(comp@[k0] as int == y);
                    } else {
                        assert(comp@[comp@.len() - 1] as int == y);
                    }
                }
            }
        } else {
            proof {
                assert forall|y: int| #[trigger] comp_contains(comp@, y) implies (0 <= y < f + 1
                    && visited@[y]) by {}
            }
        }
        f = f + 1;
    }
    comp
}

/// Flood-fills the faces reachable from the start face across shared
/// edges, returning the component's face indices in increasing order.
fn crawl_faces(start_face_index: u32, face_to_face: &Vec<Vec<u32>>, gfaces: Ghost<Seq<Face>>) -> (r:
    Vec<u32>)
    requires
        face_to_face@.len() == gfaces@.len(),
        (start_face_index as int) < gfaces@.len(),
        gfaces@.len() <= u32::MAX,
        forall|x: int, y: u32|
            0 <= x < face_to_face@.len() ==> ((#[trigger] adj_mem(face_to_face@, x, y)) <==> (
            faces_adjacent(gfaces@, x, y as int) && (y as int) < gfaces@.len())),
    ensures
        forall|k1: int, k2: int| 0 <= k1 < k2 < r@.len() ==> r@[k1] < r@[k2],
        forall|k: int| 0 <= k < r@.len() ==> ((#[trigger] r@[k]) as int) < gfaces@.len(),
        comp_contains(r@, start_face_index as int),
        part_closed(gfaces@, r@),
        hub_connects(gfaces@, r@, start_face_index as int),
{
    let visited = flood_visit(face_to_face, start_face_index, gfaces);
    let comp = collect_visited(&visited);
    proof {
        assert(comp_contains(comp@, start_face_index as int));
        assert forall|k: int, j: int|
            0 <= k < comp@.len() && 0 <= j < gfaces@.len() && #[trigger] faces_adjacent(
                gfaces@,
                comp@[k] as int,
                j,
            ) implies comp_contains(comp@, j) by {
            assert(comp_contains(comp@, comp@[k] as int)) by {
                assert(0 <= k < comp@.len() && (comp@[k]) as int == comp@[k] as int);
            }
            assert(visited@[comp@[k] as int]);
            assert(visited@[j]);
        }
        assert forall|k: int| 0 <= k < comp@.len() implies #[trigger] connected(
            gfaces@,
            start_face_index as int,
            comp@[k] as int,
        ) by {
            assert(comp_contains(comp@, comp@[k] as int)) by {
                assert(0 <= k < comp@.len() && (comp@[k]) as int == comp@[k] as int);
            }
            assert(visited@[comp@[k] as int]);
        }
        assert(hub_connects(gfaces@, comp@, start_face_index as int));
    }
    comp
}

/// Splits the geometry into its edge-connected patches.
///
/// Repeatedly seeds a flood fill at the lowest-numbered unassigned face
/// and emits an orphan-free geometry holding just that patch's faces (in
/// increasing face-index order), over the vertices and normals they
/// still reference. Every input face lands in exactly one patch.
#[verifier::loop_isolation(false)]
#[verifier::rlimit(100)]
pub fn separate_isolated_meshes(geometry: &Geometry) -> (r: Vec<Geometry>)
    ensures
        exists|parts: Seq<Seq<u32>>| #[trigger] valid_separation(geometry@, parts, r@),
{
    proof {
        use_type_invariant(geometry);
    }
    let face_to_face = mesh_topology_analysis::face_to_face_topology(geometry);
    let faces = geometry.faces();
    let n = faces.len();
    let ghost gv = geometry@;

    let mut global_visited: Vec<bool> = Vec::new();
    let mut i: usize = 0;
    while i < n
        invariant
            global_visited@.len() == i <= n,
            forall|j: int| 0 <= j < i ==> !(#[trigger] global_visited@[j]),
        decreases n - i,
    {
        global_visited.push(false);
        i = i + 1;
    }

    let mut patches: Vec<Geometry> = Vec::new();
    let ghost mut parts: Seq<Seq<u32>> = Seq::empty();
    let mut f0: usize = 0;
    while f0 < n
        invariant
            0 <= f0 <= n,
            global_visited@.len() == n,
            forall|f: int| 0 <= f < f0 ==> #[trigger] global_visited@[f],
            parts.len() == patches@.len(),
            forall|p: int| 0 <= p < parts.len() ==> (#[trigger] parts[p]).len() > 0,
            forall|p: int, k: int|
                0 <= p < parts.len() && 0 <= k < parts[p].len() ==> ((#[trigger] parts[p][k])
                    as int) < n,
            forall|p: int, k1: int, k2: int|
                0 <= p < parts.len() && 0 <= k1 < k2 < parts[p].len() ==> #[trigger] parts[p][k1]
                    < #[trigger] parts[p][k2],
            forall|p1: int, p2: int, f: int|
                0 <= p1 < p2 < parts.len() ==> !(#[trigger] comp_contains(parts[p1], f)
                    && #[trigger] comp_contains(parts[p2], f)),
            forall|p: int| 0 <= p < parts.len() ==> part_closed(gv.faces, #[trigger] parts[p]),
            forall|p: int| 0 <= p < parts.len() ==> part_connected(gv.faces, #[trigger] parts[p]),
            forall|p: int|
                0 <= p < parts.len() ==> patch_matches(gv, #[trigger] parts[p], patches@[p]),
            forall|f: int|
                0 <= f < n ==> (#[trigger] global_visited@[f] <==> covered_by(parts, f)),
        decreases n - f0,
    {
        if !global_visited[f0] {
            let ghost visited_before = global_visited@;
            let ghost parts_before = parts;
            let comp = crawl_faces(f0 as u32, &face_to_face, Ghost(gv.faces));
            proof {
                assert forall|yy: int|
                    #[trigger] comp_contains(comp@, yy) && 0 <= yy < n implies !visited_before[yy] by {
                    if visited_before[yy] {
                        let q = choose|q: int|
                            0 <= q < parts_before.len() && #[trigger] comp_contains(
                                parts_before[q],
                                yy,
                            );
                        let k0 = choose|k0: int|
                            0 <= k0 < comp@.len() && (#[trigger] comp@[k0]) as int == yy;
                        assert(connected(gv.faces, f0 as int, yy));
                        lemma_connected_symm(gv.faces, f0 as int, yy);
                        lemma_closed_reaches(gv.faces, parts_before[q], yy, f0 as int);
                        assert(comp_contains(parts_before[q], f0 as int));
                        assert(covered_by(parts_before, f0 as int));
                        assert(false);
                    }
                }
            }

            // Gather the patch's faces and mark them assigned.
            let mut sel_faces: Vec<Face> = Vec::new();
            let mut k: usize = 0;
            while k < comp.len()
                invariant
                    0 <= k <= comp@.len(),
                    sel_faces@.len() == k,
                    forall|j: int|
                        0 <= j < k ==> #[trigger] sel_faces@[j] == gv.faces[comp@[j] as int],
                    global_visited@.len() == n,
                    forall|f: int|
                        0 <= f < n ==> (#[trigger] global_visited@[f] <==> (covered_by(parts, f)
                            || comp_contains(comp@.take(k as int), f))),
                decreases comp@.len() - k,
            {
                let ghost prev_visited = global_visited@;
                sel_faces.push(faces[comp[k] as usize]);
                global_visited[comp[k] as usize] = true;
                proof {
                    assert forall|f: int| 0 <= f < n implies (#[trigger] global_visited@[f] <==> (
                    covered_by(parts, f) || comp_contains(comp@.take(k + 1), f))) by {
                        if f == comp@[k as int] as int {
                            assert(comp@.take(k + 1)[k as int] as int == f);
                            assert(comp_contains(comp@.take(k + 1), f));
                        } else {
                            assert(global_visited@[f] == prev_visited[f]);
                            if comp_contains(comp@.take(k as int), f) {
                                let j0 = choose|j0: int|
                                    0 <= j0 < comp@.take(k as int).len() && (#[trigger] comp@.take(
                                        k as int,
                                    )[j0]) as int == f;
                                assert(comp@.take(k + 1)[j0] as int == f);
                                assert(comp_contains(comp@.take(k + 1), f));
                            }
                            if comp_contains(comp@.take(k + 1), f) {
                                let j0 = choose|j0: int|
                                    0 <= j0 < comp@.take(k + 1).len() && (#[trigger] comp@.take(
                                        k + 1,
                                    )[j0]) as int == f;
                                if j0 < k {
                                    assert(comp@.take(k as int)[j0] as int == f);
                                    assert(comp_contains(comp@.take(k as int), f));
                                } else {
                                    assert(false);
                                }
                            }
                        }
                    }
                }
                k = k + 1;
            }
            proof {
                assert(comp@.take(comp@.len() as int) =~= comp@);
                assert forall|j: int| 0 <= j < sel_faces@.len() implies tri_vertices_in_bounds(
                    face_triangle(#[trigger] sel_faces@[j]),
                    gv.vertices.len(),
                ) && tri_normals_in_bounds(face_triangle(sel_faces@[j]), gv.normals.len()) by {
                    assert(sel_faces@[j] == gv.faces[comp@[j] as int]);
                }
            }
            proof {
                if comp@.len() > 0 {
                    lemma_ascending_bound(comp@, comp@.len() - 1);
                }
            }
            let ghost sel = sel_faces@;
            let patch = Geometry::from_faces_with_vertices_and_normals_remove_orphans(
                sel_faces,
                copy_vec(geometry.vertices()),
                copy_vec(geometry.normals()),
            );
            proof {
                assert(sel =~= part_faces(gv, comp@));
                assert forall|kk: int| 0 <= kk < comp@.len() implies #[trigger] resolved_face(
                    patch@,
                    kk,
                ) == resolved_face(gv, comp@[kk] as int) by {
                    let t = face_triangle(sel[kk]);
                    assert(patch@.faces[kk] == Face::Triangle(remap_face(sel, t)));
                    crate::geometry::lemma_vertex_rank_le(sel, t.vertices.0 as int);
                    crate::geometry::lemma_vertex_rank_le(sel, t.vertices.1 as int);
                    crate::geometry::lemma_vertex_rank_le(sel, t.vertices.2 as int);
                    assert(face_uses_vertex(t, t.vertices.0 as int));
                    assert(face_uses_vertex(t, t.vertices.1 as int));
                    assert(face_uses_vertex(t, t.vertices.2 as int));
                    assert(vertex_referenced(sel, t.vertices.0 as int)) by {
                        assert(face_uses_vertex(face_triangle(sel[kk]), t.vertices.0 as int));
                    }
                    assert(vertex_referenced(sel, t.vertices.1 as int)) by {
                        assert(face_uses_vertex(face_triangle(sel[kk]), t.vertices.1 as int));
                    }
                    assert(vertex_referenced(sel, t.vertices.2 as int)) by {
                        assert(face_uses_vertex(face_triangle(sel[kk]), t.vertices.2 as int));
                    }
                    assert(patch@.vertices[vertex_rank(sel, t.vertices.0 as int) as int]
                        == gv.vertices[t.vertices.0 as int]);
                    assert(patch@.vertices[vertex_rank(sel, t.vertices.1 as int) as int]
                        == gv.vertices[t.vertices.1 as int]);
                    assert(patch@.vertices[vertex_rank(sel, t.vertices.2 as int) as int]
                        == gv.vertices[t.vertices.2 as int]);
                    match t.normals {
                        Some(ns) => {
                            crate::geometry::lemma_normal_rank_le(sel, ns.0 as int);
                            crate::geometry::lemma_normal_rank_le(sel, ns.1 as int);
                            crate::geometry::lemma_normal_rank_le(sel, ns.2 as int);
                            assert(face_uses_normal(t, ns.0 as int));
                            assert(face_uses_normal(t, ns.1 as int));
                            assert(face_uses_normal(t, ns.2 as int));
                            assert(normal_referenced(sel, ns.0 as int)) by {
                                assert(face_uses_normal(face_triangle(sel[kk]), ns.0 as int));
                            }
                            assert(normal_referenced(sel, ns.1 as int)) by {
                                assert(face_uses_normal(face_triangle(sel[kk]), ns.1 as int));
                            }
                            assert(normal_referenced(sel, ns.2 as int)) by {
                                assert(face_uses_normal(face_triangle(sel[kk]), ns.2 as int));
                            }
                            assert(patch@.normals[normal_rank(sel, ns.0 as int) as int]
                                == gv.normals[ns.0 as int]);
                            assert(patch@.normals[normal_rank(sel, ns.1 as int) as int]
                                == gv.normals[ns.1 as int]);
                            assert(patch@.normals[normal_rank(sel, ns.2 as int) as int]
                                == gv.normals[ns.2 as int]);
                        },
                        None => {},
                    }
                }
                assert(patch_matches(gv, comp@, patch));
            }
            patches.push(patch);
            proof {
                parts = parts.push(comp@);
                assert(comp@.len() > 0) by {
                    let k0 = choose|k0: int|
                        0 <= k0 < comp@.len() && (#[trigger] comp@[k0]) as int == f0 as int;
                }
                assert forall|f: int| 0 <= f < n implies (#[trigger] global_visited@[f] <==>
                    covered_by(parts, f)) by {
                    if global_visited@[f] {
                        if covered_by(parts_before, f) {
                            let q = choose|q: int|
                                0 <= q < parts_before.len() && #[trigger] comp_contains(
                                    parts_before[q],
                                    f,
                                );
                            assert(comp_contains(parts[q], f));
                            assert(covered_by(parts, f));
                        } else {
                            assert(comp_contains(comp@, f));
                            assert(comp_contains(parts[parts.len() - 1], f));
                            assert(covered_by(parts, f));
                        }
                    } else {
                        if covered_by(parts, f) {
                            let q = choose|q: int|
                                0 <= q < parts.len() && #[trigger] comp_contains(parts[q], f);
                            if q < parts.len() - 1 {
                                assert(comp_contains(parts_before[q], f));
                                assert(covered_by(parts_before, f));
                            } else {
                                assert(comp_contains(comp@, f));
                            }
                            assert(false);
                        }
                    }
                }
                assert forall|p1: int, p2: int, f: int|
                    0 <= p1 < p2 < parts.len() implies !(#[trigger] comp_contains(parts[p1], f)
                        && #[trigger] comp_contains(parts[p2], f)) by {
                    if p2 == parts.len() - 1 && comp_contains(parts[p1], f) && comp_contains(
                        parts[p2],
                        f,
                    ) {
                        assert(comp_contains(comp@, f));
                        assert(0 <= f < n) by {
                            let k0 = choose|k0: int|
                                0 <= k0 < comp@.len() && (#[trigger] comp@[k0]) as int == f;
                        }
                        assert(comp_contains(parts_before[p1], f));
                        assert(covered_by(parts_before, f));
                        assert(visited_before[f]);
                        assert(false);
                    }
                    if p2 < parts.len() - 1 && comp_contains(parts[p1], f) && comp_contains(
                        parts[p2],
                        f,
                    ) {
                        assert(comp_contains(parts_before[p1], f));
                        assert(comp_contains(parts_before[p2], f));
                        assert(false);
                    }
                }
            }
            proof {
                assert(global_visited@[f0 as int]) by {
                    assert(comp_contains(comp@, f0 as int));
                    assert(comp_contains(parts[parts.len() - 1], f0 as int));
                    assert(covered_by(parts, f0 as int));
                }
                assert forall|f: int| 0 <= f < f0 implies #[trigger] global_visited@[f] by {
                    assert(visited_before[f]);
                    assert(covered_by(parts_before, f));
                    let q = choose|q: int|
                        0 <= q < parts_before.len() && #[trigger] comp_contains(
                            parts_before[q],
                            f,
                        );
                    assert(comp_contains(parts[q], f));
                    assert(covered_by(parts, f));
                }
            }
        }
        f0 = f0 + 1;
    }
    proof {
        assert forall|f: int| 0 <= f < n implies #[trigger] covered_by(parts, f) by {
            assert(global_visited@[f]);
        }
        assert(is_face_partition(parts, gv.faces.len() as int));
        assert(valid_separation(gv, parts, patches@));
    }
    patches
}

/// Rounded division of a coordinate by the tolerance: half-units round
/// away from zero. This is the grid quantization of welding.
pub open spec fn round_div(a: int, t: int) -> int {
    if a >= 0 {
        (2 * a + t) / (2 * t)
    } else {
        -((2 * (-a) + t) / (2 * t))
    }
}

/// The tolerance-sized grid cell a point falls into.
pub open spec fn cell_of(p: Point, t: int) -> (int, int, int) {
    (round_div(p.x as int, t), round_div(p.y as int, t), round_div(p.z as int, t))
}

/// Rounded division, executable form.
fn round_div_exec(a: i64, t: i64) -> (r: i64)
    requires
        1 <= t,
        -COORD_LIMIT <= a <= COORD_LIMIT,
        t <= COORD_LIMIT,
    ensures
        r == round_div(a as int, t as int),
{
    if a >= 0 {
        let q = (2 * (a as i128) + (t as i128)) as u128 / (2 * (t as i128)) as u128;
        proof {
            vstd::arithmetic::div_mod::lemma_div_is_ordered(
                2 * (a as int) + t as int,
                i128::MAX as int,
                2 * (t as int),
            );
            vstd::arithmetic::div_mod::lemma_div_nonincreasing(i128::MAX as int, 2 * (t as int));
            vstd::arithmetic::div_mod::lemma_div_pos_is_pos(2 * (a as int) + t as int, 2 * (t as int));
        }
        q as i64
    } else {
        let q = (2 * (-(a as i128)) + (t as i128)) as u128 / (2 * (t as i128)) as u128;
        proof {
            vstd::arithmetic::div_mod::lemma_div_is_ordered(
                2 * (-(a as int)) + t as int,
                i128::MAX as int,
                2 * (t as int),
            );
            vstd::arithmetic::div_mod::lemma_div_nonincreasing(i128::MAX as int, 2 * (t as int));
            vstd::arithmetic::div_mod::lemma_div_pos_is_pos(
                2 * (-(a as int)) + t as int,
                2 * (t as int),
            );
        }
        -(q as i64)
    }
}

/// The grid cell of a point, executable form.
fn cell_of_exec(p: &Point, t: i64) -> (r: (i64, i64, i64))
    requires
        1 <= t <= COORD_LIMIT,
        p.bounded(),
    ensures
        (r.0 as int, r.1 as int, r.2 as int) == cell_of(*p, t as int),
{
    (round_div_exec(p.x, t), round_div_exec(p.y, t), round_div_exec(p.z, t))
}

/// The members of cluster `c` among the first `i` vertices, in increasing
/// index order.
pub open spec fn members_upto(cid: Seq<int>, c: int, i: int) -> Seq<u32>
    decreases i,
{
    if i <= 0 {
        Seq::empty()
    } else {
        members_upto(cid, c, i - 1) + if cid[i - 1] == c {
            seq![(i - 1) as u32]
        } else {
            Seq::empty()
        }
    }
}

/// Sum of the x coordinates of the vectors the row points at.
pub open spec fn vsum_x(normals: Seq<Vector>, row: Seq<u32>) -> int
    decreases row.len(),
{
    if row.len() == 0 {
        0
    } else {
        vsum_x(normals, row.drop_last()) + normals[row.last() as int].x
    }
}

/// Sum of the y coordinates of the vectors the row points at.
pub open spec fn vsum_y(normals: Seq<Vector>, row: Seq<u32>) -> int
    decreases row.len(),
{
    if row.len() == 0 {
        0
    } else {
        vsum_y(normals, row.drop_last()) + normals[row.last() as int].y
    }
}

/// Sum of the z coordinates of the vectors the row points at.
pub open spec fn vsum_z(normals: Seq<Vector>, row: Seq<u32>) -> int
    decreases row.len(),
{
    if row.len() == 0 {
        0
    } else {
        vsum_z(normals, row.drop_last()) + normals[row.last() as int].z
    }
}

/// The componentwise mean of the vectors the row points at, truncated
/// towards zero; the zero vector for an empty row.
pub open spec fn mean_vector(normals: Seq<Vector>, row: Seq<u32>) -> Vector {
    if row.len() == 0 {
        Vector { x: 0, y: 0, z: 0 }
    } else {
        Vector {
            x: crate::mesh_smoothing::trunc_div(vsum_x(normals, row), row.len() as int) as i64,
            y: crate::mesh_smoothing::trunc_div(vsum_y(normals, row), row.len() as int) as i64,
            z: crate::mesh_smoothing::trunc_div(vsum_z(normals, row), row.len() as int) as i64,
        }
    }
}

/// The componentwise mean of the vectors a row points at.
#[verifier::loop_isolation(false)]
fn mean_vector_exec(normals: &Vec<Vector>, row: &Vec<u32>) -> (r: Vector)
    requires
        forall|k: int| 0 <= k < row@.len() ==> ((#[trigger] row@[k]) as int) < normals@.len(),
        forall|i: int| 0 <= i < normals@.len() ==> (#[trigger] normals@[i]).bounded(),
    ensures
        r == mean_vector(normals@, row@),
        r.bounded(),
{
    if row.len() == 0 {
        return Vector { x: 0, y: 0, z: 0 };
    }
    let mut sx: i128 = 0;
    let mut sy: i128 = 0;
    let mut sz: i128 = 0;
    let mut k: usize = 0;
    while k < row.len()
        invariant
            0 <= k <= row@.len(),
            sx == vsum_x(normals@, row@.take(k as int)),
            sy == vsum_y(normals@, row@.take(k as int)),
            sz == vsum_z(normals@, row@.take(k as int)),
            -((k as int) * (COORD_LIMIT as int)) <= sx <= (k as int) * (COORD_LIMIT as int),
            -((k as int) * (COORD_LIMIT as int)) <= sy <= (k as int) * (COORD_LIMIT as int),
            -((k as int) * (COORD_LIMIT as int)) <= sz <= (k as int) * (COORD_LIMIT as int),
        decreases row@.len() - k,
    {
        let p = normals[row[k] as usize];
        proof {
            assert(row@.take(k + 1).drop_last() =~= row@.take(k as int));
            assert(row@.take(k + 1).last() == row@[k as int]);
        }
        sx = sx + p.x as i128;
        sy = sy + p.y as i128;
        sz = sz + p.z as i128;
        k = k + 1;
    }
    proof {
        assert(row@.take(row@.len() as int) =~= row@);
    }
    let n = row.len() as i128;
    proof {
        crate::mesh_smoothing::lemma_trunc_div_bound(sx as int, n as int, COORD_LIMIT as int);
        crate::mesh_smoothing::lemma_trunc_div_bound(sy as int, n as int, COORD_LIMIT as int);
        crate::mesh_smoothing::lemma_trunc_div_bound(sz as int, n as int, COORD_LIMIT as int);
    }
    let mx = crate::mesh_smoothing::trunc_div_i128(sx, n);
    let my = crate::mesh_smoothing::trunc_div_i128(sy, n);
    let mz = crate::mesh_smoothing::trunc_div_i128(sz, n);
    Vector { x: mx as i64, y: my as i64, z: mz as i64 }
}

/// Whether some face pairs a vertex of cluster `c` with normal index `n`
/// at one of its corners.
pub open spec fn face_pairs(t: TriangleFace, cid: Seq<int>, c: int, n: int) -> bool {
    match t.normals {
        Some(ns) => (cid[t.vertices.0 as int] == c && ns.0 == n) || (cid[t.vertices.1 as int] == c
            && ns.1 == n) || (cid[t.vertices.2 as int] == c && ns.2 == n),
        None => false,
    }
}

/// Whether any face of the geometry pairs cluster `c` with normal `n`.
pub open spec fn cluster_pairs(gv: GeometryView, cid: Seq<int>, c: int, n: int) -> bool {
    exists|k: int| 0 <= k < gv.faces.len() && face_pairs(face_triangle(#[trigger] gv.faces[k]), cid, c, n)
}

/// The distinct normal indices associated with cluster `c`, in increasing
/// order, considering normal indices below `n`.
pub open spec fn assoc_upto(gv: GeometryView, cid: Seq<int>, c: int, n: int) -> Seq<u32>
    decreases n,
{
    if n <= 0 {
        Seq::empty()
    } else {
        assoc_upto(gv, cid, c, n - 1) + if cluster_pairs(gv, cid, c, n - 1) {
            seq![(n - 1) as u32]
        } else {
            Seq::empty()
        }
    }
}

/// The face with its vertex indices replaced by their cluster numbers;
/// a face that carried normal indices now points at the per-cluster
/// normals, which share the vertex numbering.
pub open spec fn mapped_face(gv: GeometryView, cid: Seq<int>, i: int) -> TriangleFace {
    let t = face_triangle(gv.faces[i]);
    TriangleFace {
        vertices: (
            cid[t.vertices.0 as int] as u32,
            cid[t.vertices.1 as int] as u32,
            cid[t.vertices.2 as int] as u32,
        ),
        normals: match t.normals {
            Some(_) => Some(
                (
                    cid[t.vertices.0 as int] as u32,
                    cid[t.vertices.1 as int] as u32,
                    cid[t.vertices.2 as int] as u32,
                ),
            ),
            None => None,
        },
    }
}

/// Whether the face survives welding: its three cluster numbers are
/// pairwise distinct.
pub open spec fn mapped_nondegenerate(gv: GeometryView, cid: Seq<int>, i: int) -> bool {
    let t = face_triangle(gv.faces[i]);
    cid[t.vertices.0 as int] != cid[t.vertices.1 as int] && cid[t.vertices.0 as int]
        != cid[t.vertices.2 as int] && cid[t.vertices.1 as int] != cid[t.vertices.2 as int]
}

/// Whether a sequence of ints holds the value.
pub open spec fn iseq_contains(s: Seq<int>, v: int) -> bool {
    exists|k: int| 0 <= k < s.len() && #[trigger] s[k] == v
}

/// What welding returns, given the cluster assignment `cid` (old vertex
/// index to new vertex index) and the list `kept` of surviving faces.
pub open spec fn weld_relation(
    gv: GeometryView,
    tol: int,
    cid: Seq<int>,
    kept: Seq<int>,
    rv: GeometryView,
) -> bool {
    &&& cid.len() == gv.vertices.len()
    &&& forall|i: int| 0 <= i < cid.len() ==> 0 <= #[trigger] cid[i] < rv.vertices.len()
    &&& forall|i: int, j: int|
        0 <= i < cid.len() && 0 <= j < cid.len() ==> ((#[trigger] cid[i] == #[trigger] cid[j])
            <==> cell_of(gv.vertices[i], tol) == cell_of(gv.vertices[j], tol))
    &&& forall|c: int|
        0 <= c < rv.vertices.len() ==> #[trigger] rv.vertices[c]
            == crate::mesh_smoothing::smoothed_point(
            gv.vertices,
            members_upto(cid, c, cid.len() as int),
        )
    &&& forall|c: int|
        0 <= c < rv.vertices.len() ==> #[trigger] members_upto(cid, c, cid.len() as int).len() > 0
    &&& kept.len() == rv.faces.len()
    &&& forall|k1: int, k2: int| 0 <= k1 < k2 < kept.len() ==> kept[k1] < kept[k2]
    &&& forall|k: int| 0 <= k < kept.len() ==> 0 <= #[trigger] kept[k] < gv.faces.len()
    &&& forall|i: int|
        0 <= i < gv.faces.len() ==> (iseq_contains(kept, i) <==> #[trigger] mapped_nondegenerate(
            gv,
            cid,
            i,
        ))
    &&& forall|k: int|
        0 <= k < kept.len() ==> #[trigger] rv.faces[k] == Face::Triangle(
            mapped_face(gv, cid, kept[k]),
        )
    &&& gv.normals.len() == 0 ==> rv.normals.len() == 0
    &&& gv.normals.len() > 0 ==> {
        &&& rv.normals.len() == rv.vertices.len()
        &&& forall|c: int|
            0 <= c < rv.normals.len() ==> #[trigger] rv.normals[c] == mean_vector(
                gv.normals,
                assoc_upto(gv, cid, c, gv.normals.len() as int),
            )
    }
}

/// A member of a cluster makes the member list non-empty and lists it.
proof fn lemma_members_contains(cid: Seq<int>, c: int, i: int, n: int)
    requires
        0 <= i < n <= cid.len(),
        n <= u32::MAX,
        cid[i] == c,
    ensures
        members_upto(cid, c, n).contains(i as u32),
    decreases n,
{
    if i == n - 1 {
        assert(members_upto(cid, c, n).last() == i as u32);
    } else {
        lemma_members_contains(cid, c, i, n - 1);
        let m = members_upto(cid, c, n - 1);
        let k = choose|k: int| 0 <= k < m.len() && m[k] == i as u32;
        assert(members_upto(cid, c, n)[k] == i as u32);
    }
}

/// Every member index is a vertex of cluster `c`.
proof fn lemma_members_sound(cid: Seq<int>, c: int, n: int)
    requires
        n <= cid.len(),
        n <= u32::MAX,
    ensures
        forall|k: int|
            0 <= k < members_upto(cid, c, n).len() ==> ((#[trigger] members_upto(cid, c, n)[k])
                as int) < n && cid[members_upto(cid, c, n)[k] as int] == c,
    decreases n,
{
    if n > 0 {
        lemma_members_sound(cid, c, n - 1);
        assert forall|k: int| 0 <= k < members_upto(cid, c, n).len() implies ((
        #[trigger] members_upto(cid, c, n)[k]) as int) < n && cid[members_upto(cid, c, n)[k] as int]
            == c by {
            if k < members_upto(cid, c, n - 1).len() {
                assert(members_upto(cid, c, n)[k] == members_upto(cid, c, n - 1)[k]);
            }
        }
    }
}

/// Some vertex among the first `i` belongs to cluster `c`.
pub open spec fn cluster_inhabited(cid: Seq<u32>, c: int, i: int) -> bool {
    exists|j: int| 0 <= j < i && ((#[trigger] cid[j]) as int) == c
}

/// The integer view of a stored cell key.
pub open spec fn key_int(k: (i64, i64, i64)) -> (int, int, int) {
    (k.0 as int, k.1 as int, k.2 as int)
}

/// Finds a cell key in the list of distinct keys.
fn find_cell(cells: &Vec<(i64, i64, i64)>, cell: (i64, i64, i64)) -> (r: Option<usize>)
    ensures
        r matches Some(k) ==> k < cells@.len() && cells@[k as int] == cell,
        r is None ==> forall|k: int| 0 <= k < cells@.len() ==> cells@[k] != cell,
{
    let mut k: usize = 0;
    while k < cells.len()
        invariant
            0 <= k <= cells@.len(),
            forall|j: int| 0 <= j < k ==> cells@[j] != cell,
        decreases cells@.len() - k,
    {
        let e = cells[k];
        if e.0 == cell.0 && e.1 == cell.1 && e.2 == cell.2 {
            return Some(k);
        }
        k = k + 1;
    }
    None
}

/// Whether any face pairs cluster `c` with normal index `n` at a corner.
#[verifier::loop_isolation(false)]
fn pairs_exec(geometry: &Geometry, cid: &Vec<u32>, c: u32, n: u32, cid_spec: Ghost<Seq<int>>) -> (r:
    bool)
    requires
        cid@.len() == geometry@.vertices.len(),
        cid_spec@ == Seq::new(cid@.len() as nat, |j: int| cid@[j] as int),
    ensures
        r == cluster_pairs(geometry@, cid_spec@, c as int, n as int),
{
    let faces = geometry.faces();
    let mut k: usize = 0;
    while k < faces.len()
        invariant
            0 <= k <= geometry@.faces.len(),
            faces@ == geometry@.faces,
            forall|j: int|
                0 <= j < k ==> !face_pairs(
                    face_triangle(#[trigger] geometry@.faces[j]),
                    cid_spec@,
                    c as int,
                    n as int,
                ),
        decreases faces@.len() - k,
    {
        let t = match faces[k] {
            Face::Triangle(t) => t,
        };
        match t.normals {
            Some(ns) => {
                let hit = (cid[t.vertices.0 as usize] == c && ns.0 == n) || (cid[t.vertices.1
                    as usize] == c && ns.1 == n) || (cid[t.vertices.2 as usize] == c && ns.2 == n);
                if hit {
                    proof {
                        assert(face_pairs(
                            face_triangle(geometry@.faces[k as int]),
                            cid_spec@,
                            c as int,
                            n as int,
                        ));
                    }
                    return true;
                }
                proof {
                    assert(!face_pairs(
                        face_triangle(geometry@.faces[k as int]),
                        cid_spec@,
                        c as int,
                        n as int,
                    ));
                }
            },
            None => {},
        }
        k = k + 1;
    }
    false
}

/// Welds vertices that fall into one tolerance-sized grid cell into a
/// single vertex at their mean position, rewrites the faces through the
/// cluster numbering, drops faces that degenerate, and gives each new
/// vertex the mean of the distinct normals its old vertices carried.
#[verifier::loop_isolation(false)]
#[verifier::rlimit(100)]
pub fn weld(geometry: &Geometry, tolerance: i64) -> (r: Geometry)
    requires
        1 <= tolerance <= COORD_LIMIT,
    ensures
        exists|cid: Seq<int>, kept: Seq<int>|
            #[trigger] weld_relation(geometry@, tolerance as int, cid, kept, r@),
        r@.wf(),
{
    proof {
        use_type_invariant(geometry);
    }
    let vertices = geometry.vertices();
    let nv = vertices.len();
    let ghost gv = geometry@;
    let ghost tol = tolerance as int;

    // Assign each vertex its grid cell's cluster number, numbering the
    // distinct cells in first-occurrence order.
    let mut cells: Vec<(i64, i64, i64)> = Vec::new();
    let mut cid: Vec<u32> = Vec::new();
    let mut i: usize = 0;
    while i < nv
        invariant
            0 <= i <= nv,
            cid@.len() == i,
            cells@.len() <= i,
            forall|a: int, b: int| 0 <= a < b < cells@.len() ==> cells@[a] != cells@[b],
            forall|j: int| 0 <= j < i ==> ((#[trigger] cid@[j]) as int) < cells@.len(),
            forall|j: int|
                0 <= j < i ==> key_int(cells@[(#[trigger] cid@[j]) as int]) == cell_of(
                    gv.vertices[j],
                    tol,
                ),
            forall|c: int|
                0 <= c < cells@.len() ==> #[trigger] cluster_inhabited(cid@, c, i as int),
        decreases nv - i,
    {
        let cell = cell_of_exec(&vertices[i], tolerance);
        let ghost prev_cells = cells@;
        let ghost prev_cid = cid@;
        match find_cell(&cells, cell) {
            Some(k) => {
                cid.push(k as u32);
            },
            None => {
                cid.push(cells.len() as u32);
                cells.push(cell);
            },
        }
        proof {
            assert forall|c: int| 0 <= c < cells@.len() implies #[trigger] cluster_inhabited(
                cid@,
                c,
                i + 1,
            ) by {
                if c < prev_cells.len() {
                    assert(cluster_inhabited(prev_cid, c, i as int));
                    let j0 = choose|j0: int| 0 <= j0 < i && ((#[trigger] prev_cid[j0]) as int) == c;
                    assert((cid@[j0]) as int == c);
                } else {
                    assert((cid@[i as int]) as int == c);
                }
            }
        }
        i = i + 1;
    }
    let nc = cells.len();
    let ghost cid_spec = Seq::new(cid@.len() as nat, |j: int| cid@[j] as int);
    proof {
        assert forall|a: int, b: int| 0 <= a < cid_spec.len() && 0 <= b < cid_spec.len() implies ((
        #[trigger] cid_spec[a] == #[trigger] cid_spec[b]) <==> cell_of(gv.vertices[a], tol)
            == cell_of(gv.vertices[b], tol)) by {
            assert(key_int(cells@[cid@[a] as int]) == cell_of(gv.vertices[a], tol));
            assert(key_int(cells@[cid@[b] as int]) == cell_of(gv.vertices[b], tol));
            if cell_of(gv.vertices[a], tol) == cell_of(gv.vertices[b], tol) {
                if cid@[a] != cid@[b] {
                    assert(cells@[cid@[a] as int] != cells@[cid@[b] as int]);
                    assert(false);
                }
            }
        }
    }

    // One new vertex per cluster: the mean of its members.
    let mut new_vertices: Vec<Point> = Vec::new();
    let mut c: usize = 0;
    while c < nc
        invariant
            0 <= c <= nc,
            new_vertices@.len() == c,
            forall|cc: int|
                0 <= cc < c ==> #[trigger] new_vertices@[cc]
                    == crate::mesh_smoothing::smoothed_point(
                    gv.vertices,
                    members_upto(cid_spec, cc, nv as int),
                ),
            forall|cc: int| 0 <= cc < c ==> (#[trigger] new_vertices@[cc]).bounded(),
        decreases nc - c,
    {
        let mut row: Vec<u32> = Vec::new();
        let mut j: usize = 0;
        while j < nv
            invariant
                0 <= j <= nv,
                0 <= c < nc,
                row@ == members_upto(cid_spec, c as int, j as int),
            decreases nv - j,
        {
            if cid[j] == c as u32 {
                row.push(j as u32);
                proof {
                    assert(row@ =~= members_upto(cid_spec, c as int, j + 1));
                }
            } else {
                proof {
                    assert(row@ =~= members_upto(cid_spec, c as int, j + 1));
                }
            }
            j = j + 1;
        }
        proof {
            assert(cluster_inhabited(cid@, c as int, nv as int));
            let j0 = choose|j0: int| 0 <= j0 < nv && ((#[trigger] cid@[j0]) as int) == c as int;
            lemma_members_contains(cid_spec, c as int, j0, nv as int);
            lemma_members_sound(cid_spec, c as int, nv as int);
        }
        let p = crate::mesh_smoothing::smoothed_point_exec(vertices, &row);
        new_vertices.push(p);
        c = c + 1;
    }

    // Rewrite the faces through the cluster numbering; faces that no
    // longer reference three distinct vertices are dropped.
    let faces = geometry.faces();
    let mut new_faces: Vec<Face> = Vec::new();
    let ghost mut kept: Seq<int> = Seq::empty();
    let mut k: usize = 0;
    while k < faces.len()
        invariant
            0 <= k <= gv.faces.len(),
            faces@ == gv.faces,
            gv.wf(),
            cid@.len() == nv == gv.vertices.len(),
            nc == new_vertices@.len() <= nv,
            cid_spec == Seq::new(cid@.len() as nat, |j: int| cid@[j] as int),
            forall|j: int| 0 <= j < nv ==> ((#[trigger] cid@[j]) as int) < nc,
            kept.len() == new_faces@.len(),
            forall|k1: int, k2: int| 0 <= k1 < k2 < kept.len() ==> kept[k1] < kept[k2],
            forall|kk: int| 0 <= kk < kept.len() ==> 0 <= #[trigger] kept[kk] < k,
            forall|i0: int|
                0 <= i0 < k ==> (iseq_contains(kept, i0) <==> #[trigger] mapped_nondegenerate(
                    gv,
                    cid_spec,
                    i0,
                )),
            forall|kk: int|
                0 <= kk < kept.len() ==> #[trigger] new_faces@[kk] == Face::Triangle(
                    mapped_face(gv, cid_spec, kept[kk]),
                ),
        decreases faces@.len() - k,
    {
        let t = match faces[k] {
            Face::Triangle(t) => t,
        };
        let c0 = cid[t.vertices.0 as usize];
        let c1 = cid[t.vertices.1 as usize];
        let c2 = cid[t.vertices.2 as usize];
        let ghost prev_kept = kept;
        if c0 != c1 && c0 != c2 && c1 != c2 {
            let mapped_normals = match t.normals {
                Some(_) => Some((c0, c1, c2)),
                None => None,
            };
            new_faces.push(
                Face::Triangle(TriangleFace { vertices: (c0, c1, c2), normals: mapped_normals }),
            );
            proof {
                kept = kept.push(k as int);
                assert(new_faces@[new_faces@.len() - 1] == Face::Triangle(
                    mapped_face(gv, cid_spec, k as int),
                ));
            }
        }
        proof {
            assert forall|i0: int| 0 <= i0 < k + 1 implies (iseq_contains(kept, i0)
                <==> #[trigger] mapped_nondegenerate(gv, cid_spec, i0)) by {
                if i0 < k {
                    if iseq_contains(prev_kept, i0) {
                        let kk = choose|kk: int|
                            0 <= kk < prev_kept.len() && #[trigger] prev_kept[kk] == i0;
                        assert(kept[kk] == i0);
                        assert(iseq_contains(kept, i0));
                    }
                    if iseq_contains(kept, i0) {
                        let kk = choose|kk: int| 0 <= kk < kept.len() && #[trigger] kept[kk] == i0;
                        if kk < prev_kept.len() {
                            assert(prev_kept[kk] == i0);
                            assert(iseq_contains(prev_kept, i0));
                        } else {
                            assert(kept[kk] == k as int);
                            assert(false);
                        }
                    }
                } else {
                    if mapped_nondegenerate(gv, cid_spec, i0) {
                        assert(kept[kept.len() - 1] == k as int);
                        assert(iseq_contains(kept, i0));
                    }
                    if iseq_contains(kept, i0) {
                        let kk = choose|kk: int| 0 <= kk < kept.len() && #[trigger] kept[kk] == i0;
                        if kk < prev_kept.len() {
                            assert(prev_kept[kk] == i0);
                            assert(false);
                        } else {
                            assert(mapped_nondegenerate(gv, cid_spec, i0));
                        }
                    }
                }
            }
        }
        k = k + 1;
    }

    // One new normal per cluster: the mean of the distinct normals its
    // old vertices carried across all faces.
    let normals = geometry.normals();
    let nn = normals.len();
    let mut new_normals: Vec<Vector> = Vec::new();
    if nn > 0 {
        let mut c: usize = 0;
        while c < nc
            invariant
                0 <= c <= nc,
                nn == gv.normals.len() <= u32::MAX,
                normals@ == gv.normals,
                gv.wf(),
                cid@.len() == nv == gv.vertices.len(),
                cid_spec == Seq::new(cid@.len() as nat, |j: int| cid@[j] as int),
                new_normals@.len() == c,
                forall|cc: int|
                    0 <= cc < c ==> #[trigger] new_normals@[cc] == mean_vector(
                        gv.normals,
                        assoc_upto(gv, cid_spec, cc, nn as int),
                    ),
                forall|cc: int| 0 <= cc < c ==> (#[trigger] new_normals@[cc]).bounded(),
            decreases nc - c,
        {
            let mut row: Vec<u32> = Vec::new();
            let mut n: usize = 0;
            while n < nn
                invariant
                    0 <= n <= nn,
                    0 <= c < nc,
                    nn == gv.normals.len() <= u32::MAX,
                    normals@ == gv.normals,
                    cid@.len() == nv == gv.vertices.len(),
                    cid_spec == Seq::new(cid@.len() as nat, |j: int| cid@[j] as int),
                    row@ == assoc_upto(gv, cid_spec, c as int, n as int),
                    forall|q: int| 0 <= q < row@.len() ==> ((#[trigger] row@[q]) as int) < nn,
                decreases nn - n,
            {
                if pairs_exec(geometry, &cid, c as u32, n as u32, Ghost(cid_spec)) {
                    row.push(n as u32);
                    proof {
                        assert(row@ =~= assoc_upto(gv, cid_spec, c as int, n + 1));
                    }
                } else {
                    proof {
                        assert(row@ =~= assoc_upto(gv, cid_spec, c as int, n + 1));
                    }
                }
                n = n + 1;
            }
            let v = mean_vector_exec(normals, &row);
            new_normals.push(v);
            c = c + 1;
        }
    }

    proof {
        assert forall|kk: int| 0 <= kk < new_faces@.len() implies tri_vertices_in_bounds(
            face_triangle(#[trigger] new_faces@[kk]),
            new_vertices@.len(),
        ) && tri_normals_in_bounds(face_triangle(new_faces@[kk]), new_normals@.len()) by {
            let t0 = face_triangle(gv.faces[kept[kk]]);
            assert(new_faces@[kk] == Face::Triangle(mapped_face(gv, cid_spec, kept[kk])));
            match t0.normals {
                Some(ns) => {
                    assert(gv.normals.len() > 0) by {
                        assert(tri_normals_in_bounds(t0, gv.normals.len()));
                    }
                },
                None => {},
            }
        }
    }
    let ghost final_cid = cid_spec;
    let ghost final_kept = kept;
    proof {
        if kept.len() > 0 {
            lemma_ascending_bound_int(kept, kept.len() - 1);
        }
    }
    let r = Geometry::from_faces_with_vertices_and_normals(new_faces, new_vertices, new_normals);
    proof {
        assert(weld_relation(gv, tol, final_cid, final_kept, r@)) by {
            assert forall|c0: int| 0 <= c0 < r@.vertices.len() implies #[trigger] members_upto(
                final_cid,
                c0,
                final_cid.len() as int,
            ).len() > 0 by {
                assert(cluster_inhabited(cid@, c0, nv as int));
                let j0 = choose|j0: int| 0 <= j0 < nv && ((#[trigger] cid@[j0]) as int) == c0;
                lemma_members_contains(final_cid, c0, j0, nv as int);
            }
        };
    }
    r
}

/// A triangle with its vertex indices shifted by `vo` and its normal
/// indices, when present, shifted by `no`.
pub open spec fn offset_face(t: TriangleFace, vo: int, no: int) -> TriangleFace {
    TriangleFace {
        vertices: (
            (t.vertices.0 + vo) as u32,
            (t.vertices.1 + vo) as u32,
            (t.vertices.2 + vo) as u32,
        ),
        normals: match t.normals {
            Some(n) => Some(((n.0 + no) as u32, (n.1 + no) as u32, (n.2 + no) as u32)),
            None => None,
        },
    }
}

/// The relation a joined geometry bears to its two inputs: vertex and
/// normal collections concatenated, the first geometry's faces kept
/// verbatim, the second's re-indexed past them.
pub open spec fn joined(a: GeometryView, b: GeometryView, r: GeometryView) -> bool {
    &&& r.vertices == a.vertices + b.vertices
    &&& r.normals == a.normals + b.normals
    &&& r.faces.len() == a.faces.len() + b.faces.len()
    &&& forall|i: int| 0 <= i < a.faces.len() ==> #[trigger] r.faces[i] == a.faces[i]
    &&& forall|i: int|
        a.faces.len() <= i < r.faces.len() ==> #[trigger] r.faces[i] == Face::Triangle(
            offset_face(
                face_triangle(b.faces[i - a.faces.len()]),
                a.vertices.len() as int,
                a.normals.len() as int,
            ),
        )
}

/// Joins two geometries: concatenates vertices and normals, keeps the
/// first geometry's faces verbatim and rebases the second's indices by
/// the first's collection sizes.
#[verifier::loop_isolation(false)]
pub fn join_meshes(first_geometry: &Geometry, second_geometry: &Geometry) -> (r: Geometry)
    requires
        first_geometry@.faces.len() + second_geometry@.faces.len() <= u32::MAX,
        first_geometry@.vertices.len() + second_geometry@.vertices.len() <= u32::MAX,
        first_geometry@.normals.len() + second_geometry@.normals.len() <= u32::MAX,
    ensures
        joined(first_geometry@, second_geometry@, r@),
        r@.wf(),
{
    proof {
        use_type_invariant(first_geometry);
        use_type_invariant(second_geometry);
    }
    let vertex_offset = first_geometry.vertices().len();
    let normal_offset = first_geometry.normals().len();

    let mut vertices = copy_vec(first_geometry.vertices());
    let second_vertices = second_geometry.vertices();
    let mut i: usize = 0;
    while i < second_vertices.len()
        invariant
            0 <= i <= second_vertices@.len(),
            vertices@ == first_geometry@.vertices + second_vertices@.take(i as int),
        decreases second_vertices@.len() - i,
    {
        vertices.push(second_vertices[i]);
        proof {
            assert(first_geometry@.vertices + second_vertices@.take(i + 1)
                =~= (first_geometry@.vertices + second_vertices@.take(i as int)).push(
                second_vertices@[i as int],
            ));
        }
        i = i + 1;
    }
    proof {
        assert(second_vertices@.take(second_vertices@.len() as int) =~= second_vertices@);
    }

    let mut normals = copy_vec(first_geometry.normals());
    let second_normals = second_geometry.normals();
    let mut i: usize = 0;
    while i < second_normals.len()
        invariant
            0 <= i <= second_normals@.len(),
            normals@ == first_geometry@.normals + second_normals@.take(i as int),
        decreases second_normals@.len() - i,
    {
        normals.push(second_normals[i]);
        proof {
            assert(first_geometry@.normals + second_normals@.take(i + 1) =~= (first_geometry@.normals
                + second_normals@.take(i as int)).push(second_normals@[i as int]));
        }
        i = i + 1;
    }
    proof {
        assert(second_normals@.take(second_normals@.len() as int) =~= second_normals@);
    }

    let mut faces = copy_vec(first_geometry.faces());
    let second_faces = second_geometry.faces();
    let vertex_offset_u32 = vertex_offset as u32;
    let normal_offset_u32 = normal_offset as u32;
    let mut i: usize = 0;
    while i < second_faces.len()
        invariant
            0 <= i <= second_faces@.len(),
            faces@.len() == first_geometry@.faces.len() + i,
            forall|j: int|
                0 <= j < first_geometry@.faces.len() ==> #[trigger] faces@[j]
                    == first_geometry@.faces[j],
            forall|j: int|
                first_geometry@.faces.len() <= j < faces@.len() ==> #[trigger] faces@[j]
                    == Face::Triangle(
                    offset_face(
                        face_triangle(second_geometry@.faces[j - first_geometry@.faces.len()]),
                        vertex_offset as int,
                        normal_offset as int,
                    ),
                ),
        decreases second_faces@.len() - i,
    {
        let t = match second_faces[i] {
            Face::Triangle(t) => t,
        };
        let shifted_normals = match t.normals {
            Some(n) => Some(
                (
                    n.0 + normal_offset_u32,
                    n.1 + normal_offset_u32,
                    n.2 + normal_offset_u32,
                ),
            ),
            None => None,
        };
        let shifted = TriangleFace {
            vertices: (
                t.vertices.0 + vertex_offset_u32,
                t.vertices.1 + vertex_offset_u32,
                t.vertices.2 + vertex_offset_u32,
            ),
            normals: shifted_normals,
        };
        faces.push(Face::Triangle(shifted));
        i = i + 1;
    }

    let r = Geometry::from_faces_with_vertices_and_normals(faces, vertices, normals);
    r
}

/// Joining any geometry with an empty one on the right returns the first
/// geometry unchanged.
pub proof fn lemma_join_empty_right(a: GeometryView, e: GeometryView, r: GeometryView)
    requires
        joined(a, e, r),
        e.faces.len() == 0,
        e.vertices.len() == 0,
        e.normals.len() == 0,
    ensures
        r.faces == a.faces,
        r.vertices == a.vertices,
        r.normals == a.normals,
{
    assert(r.vertices =~= a.vertices);
    assert(r.normals =~= a.normals);
    assert(r.faces =~= a.faces);
}

/// Joining an empty geometry with any geometry on the right returns the
/// second geometry unchanged.
pub proof fn lemma_join_empty_left(e: GeometryView, a: GeometryView, r: GeometryView)
    requires
        joined(e, a, r),
        e.faces.len() == 0,
        e.vertices.len() == 0,
        e.normals.len() == 0,
    ensures
        r.faces == a.faces,
        r.vertices == a.vertices,
        r.normals == a.normals,
{
    assert(r.vertices =~= a.vertices);
    assert(r.normals =~= a.normals);
    assert forall|i: int| 0 <= i < r.faces.len() implies r.faces[i] == a.faces[i] by {
        let t = face_triangle(a.faces[i]);
        assert(r.faces[i] == Face::Triangle(offset_face(t, 0, 0)));
        assert(offset_face(t, 0, 0) == t);
    }
    assert(r.faces =~= a.faces);
}

/// A joined geometry has the sum of the input face, vertex and normal
/// counts.
pub proof fn lemma_join_counts(a: GeometryView, b: GeometryView, r: GeometryView)
    requires
        joined(a, b, r),
    ensures
        r.faces.len() == a.faces.len() + b.faces.len(),
        r.vertices.len() == a.vertices.len() + b.vertices.len(),
        r.normals.len() == a.normals.len() + b.normals.len(),
{
}


/// Distinct integers drawn from `0 .. n` number at most `n`.
proof fn lemma_distinct_in_range(s: Seq<int>, n: int)
    requires
        n >= 0,
        forall|k: int| 0 <= k < s.len() ==> (0 <= #[trigger] s[k] && s[k] < n),
        forall|k1: int, k2: int| 0 <= k1 < k2 < s.len() ==> s[k1] != s[k2],
    ensures
        s.len() <= n,
{
    assert(s.no_duplicates());
    s.unique_seq_to_set();
    assert(s.to_set().subset_of(vstd::set_lib::set_int_range(0, n))) by {
        assert forall|x: int| s.to_set().contains(x) implies vstd::set_lib::set_int_range(
            0,
            n,
        ).contains(x) by {
            assert(s.contains(x));
            let k = choose|k: int| 0 <= k < s.len() && s[k] == x;
        }
    }
    vstd::set_lib::lemma_int_range(0, n);
    vstd::set_lib::lemma_len_subset(s.to_set(), vstd::set_lib::set_int_range(0, n));
}

/// In a strictly increasing sequence of values below `n`, each entry
/// leaves room for those after it.
proof fn lemma_ascending_upper(s: Seq<int>, n: int, k: int)
    requires
        forall|k1: int, k2: int| 0 <= k1 < k2 < s.len() ==> s[k1] < s[k2],
        forall|k1: int| 0 <= k1 < s.len() ==> #[trigger] s[k1] < n,
        0 <= k < s.len(),
    ensures
        s[k] <= n - (s.len() - k),
    decreases s.len() - k,
{
    if k < s.len() - 1 {
        lemma_ascending_upper(s, n, k + 1);
        assert(s[k] < s[k + 1]);
    }
}

/// Cluster members are listed in strictly increasing order.
proof fn lemma_members_ascending(cid: Seq<int>, c: int, n: int)
    requires
        0 <= n <= cid.len(),
        n <= u32::MAX,
    ensures
        forall|k1: int, k2: int|
            0 <= k1 < k2 < members_upto(cid, c, n).len() ==> members_upto(cid, c, n)[k1]
                < members_upto(cid, c, n)[k2],
        forall|k: int|
            0 <= k < members_upto(cid, c, n).len() ==> ((#[trigger] members_upto(cid, c, n)[k])
                as int) < n,
    decreases n,
{
    if n > 0 {
        lemma_members_ascending(cid, c, n - 1);
        let m = members_upto(cid, c, n);
        let prev = members_upto(cid, c, n - 1);
        assert forall|k: int| 0 <= k < m.len() implies ((#[trigger] m[k]) as int) < n by {
            if k < prev.len() {
                assert(m[k] == prev[k]);
            }
        }
        assert forall|k1: int, k2: int| 0 <= k1 < k2 < m.len() implies m[k1] < m[k2] by {
            if k2 < prev.len() {
                assert(m[k1] == prev[k1] && m[k2] == prev[k2]);
            } else {
                if k2 >= prev.len() {
                    assert(m[k1] == prev[k1]);
                    assert((prev[k1] as int) < n - 1);
                    assert(m[k2] == (n - 1) as u32);
                }
            }
        }
    }
}

/// Welding a geometry that is already welded leaves it unchanged up to
/// the cluster renumbering: no two vertices share a grid cell, so every
/// cluster is one vertex at its own position; no face degenerates, so
/// every face survives in its slot. Counts and positions are identical.
///
/// An input whose faces repeat a vertex index, or whose normal count
/// differs from its vertex count, falls outside this law: welding then
/// drops the degenerate face, or renumbers the normals per vertex.
#[verifier::rlimit(100)]
pub proof fn lemma_weld_idempotent(
    gv: GeometryView,
    tol: int,
    cid: Seq<int>,
    kept: Seq<int>,
    rv: GeometryView,
)
    requires
        weld_relation(gv, tol, cid, kept, rv),
        gv.wf(),
        forall|i: int, j: int|
            0 <= i < j < gv.vertices.len() ==> cell_of(#[trigger] gv.vertices[i], tol) != cell_of(
                #[trigger] gv.vertices[j],
                tol,
            ),
        forall|i: int|
            0 <= i < gv.faces.len() ==> {
                let t = face_triangle(#[trigger] gv.faces[i]);
                t.vertices.0 != t.vertices.1 && t.vertices.0 != t.vertices.2 && t.vertices.1
                    != t.vertices.2
            },
        gv.normals.len() == gv.vertices.len() || gv.normals.len() == 0,
    ensures
        rv.vertices.len() == gv.vertices.len(),
        rv.faces.len() == gv.faces.len(),
        rv.normals.len() == gv.normals.len(),
        forall|i: int|
            0 <= i < gv.vertices.len() ==> rv.vertices[#[trigger] cid[i]] == gv.vertices[i],
        forall|k: int|
            0 <= k < gv.faces.len() ==> #[trigger] rv.faces[k] == Face::Triangle(
                mapped_face(gv, cid, k),
            ),
{
    let nv = gv.vertices.len() as int;
    let nf = gv.faces.len() as int;

    // Distinct cells make the cluster assignment injective.
    assert forall|i: int, j: int| 0 <= i < j < nv implies #[trigger] cid[i] != #[trigger] cid[j] by {
        assert(cell_of(gv.vertices[i], tol) != cell_of(gv.vertices[j], tol));
    }

    // Every face keeps three distinct cluster numbers, so every face is
    // kept, and the kept list is the identity.
    assert forall|i: int| 0 <= i < nf implies #[trigger] mapped_nondegenerate(gv, cid, i) by {
        let t = face_triangle(gv.faces[i]);
        assert(tri_vertices_in_bounds(t, gv.vertices.len()));
        if t.vertices.0 < t.vertices.1 {
            assert(cid[t.vertices.0 as int] != cid[t.vertices.1 as int]);
        } else {
            assert(cid[t.vertices.1 as int] != cid[t.vertices.0 as int]);
        }
        if t.vertices.0 < t.vertices.2 {
            assert(cid[t.vertices.0 as int] != cid[t.vertices.2 as int]);
        } else {
            assert(cid[t.vertices.2 as int] != cid[t.vertices.0 as int]);
        }
        if t.vertices.1 < t.vertices.2 {
            assert(cid[t.vertices.1 as int] != cid[t.vertices.2 as int]);
        } else {
            assert(cid[t.vertices.2 as int] != cid[t.vertices.1 as int]);
        }
    }
    assert(kept.len() <= nf) by {
        lemma_distinct_in_range(kept, nf);
    }
    assert forall|i: int| 0 <= i < nf implies iseq_contains(kept, i) by {
        assert(mapped_nondegenerate(gv, cid, i));
    }
    assert(kept.len() >= nf) by {
        let pos = Seq::new(
            nf as nat,
            |i: int| choose|p: int| 0 <= p < kept.len() && #[trigger] kept[p] == i,
        );
        assert forall|i: int| 0 <= i < nf implies 0 <= #[trigger] pos[i] < kept.len() && kept[pos[i]]
            == i by {
            assert(iseq_contains(kept, i));
            let p0 = choose|p: int| 0 <= p < kept.len() && #[trigger] kept[p] == i;
            assert(pos[i] == p0);
        }
        assert forall|i1: int, i2: int| 0 <= i1 < i2 < nf implies pos[i1] != pos[i2] by {
            assert(kept[pos[i1]] == i1 && kept[pos[i2]] == i2);
        }
        lemma_distinct_in_range(pos, kept.len() as int);
    }
    assert forall|k: int| 0 <= k < nf implies #[trigger] kept[k] == k by {
        lemma_ascending_bound_int(kept, k);
        lemma_ascending_upper(kept, nf, k);
    }

    // Every cluster is one vertex: injectivity caps the members at one,
    // the relation guarantees at least one.
    let rvn = rv.vertices.len() as int;
    assert(rvn <= nv) by {
        let firsts = Seq::new(rvn as nat, |c: int| members_upto(cid, c, nv)[0] as int);
        assert forall|c: int| 0 <= c < rvn implies 0 <= #[trigger] firsts[c] < nv && cid[firsts[c]]
            == c by {
            assert(members_upto(cid, c, cid.len() as int).len() > 0);
            lemma_members_sound(cid, c, nv);
            assert(members_upto(cid, c, nv)[0] == members_upto(cid, c, nv)[0]);
        }
        assert forall|c1: int, c2: int| 0 <= c1 < c2 < rvn implies firsts[c1] != firsts[c2] by {
            assert(cid[firsts[c1]] == c1 && cid[firsts[c2]] == c2);
        }
        assert(firsts.no_duplicates());
        firsts.unique_seq_to_set();
        assert(firsts.to_set().subset_of(vstd::set_lib::set_int_range(0, nv))) by {
            assert forall|x: int| firsts.to_set().contains(x) implies vstd::set_lib::set_int_range(
                0,
                nv,
            ).contains(x) by {
                assert(firsts.contains(x));
                let k = choose|k: int| 0 <= k < firsts.len() && firsts[k] == x;
            }
        }
        vstd::set_lib::lemma_int_range(0, nv);
        vstd::set_lib::lemma_len_subset(firsts.to_set(), vstd::set_lib::set_int_range(0, nv));
    }
    assert(nv <= rvn) by {
        lemma_distinct_in_range(cid, rvn);
    }

    assert forall|i: int| 0 <= i < nv implies rv.vertices[#[trigger] cid[i]] == gv.vertices[i] by {
        let c = cid[i];
        let m = members_upto(cid, c, nv);
        lemma_members_contains(cid, c, i, nv);
        lemma_members_sound(cid, c, nv);
        lemma_members_ascending(cid, c, nv);
        assert(m.len() >= 1);
        if m.len() >= 2 {
            assert(m[0] < m[1]);
            assert(cid[m[0] as int] == c && cid[m[1] as int] == c);
            assert(false);
        }
        let k0 = choose|k0: int| 0 <= k0 < m.len() && m[k0] == i as u32;
        assert(m =~= seq![i as u32]);
        assert(rv.vertices[c] == crate::mesh_smoothing::smoothed_point(gv.vertices, m));
        assert(crate::mesh_smoothing::sum_x(gv.vertices, m) == gv.vertices[i].x) by {
            assert(m.drop_last() =~= Seq::<u32>::empty());
            assert(crate::mesh_smoothing::sum_x(gv.vertices, Seq::<u32>::empty()) == 0);
            assert(m.last() == i as u32);
        }
        assert(crate::mesh_smoothing::sum_y(gv.vertices, m) == gv.vertices[i].y) by {
            assert(m.drop_last() =~= Seq::<u32>::empty());
            assert(crate::mesh_smoothing::sum_y(gv.vertices, Seq::<u32>::empty()) == 0);
            assert(m.last() == i as u32);
        }
        assert(crate::mesh_smoothing::sum_z(gv.vertices, m) == gv.vertices[i].z) by {
            assert(m.drop_last() =~= Seq::<u32>::empty());
            assert(crate::mesh_smoothing::sum_z(gv.vertices, Seq::<u32>::empty()) == 0);
            assert(m.last() == i as u32);
        }
        assert(crate::mesh_smoothing::trunc_div(gv.vertices[i].x as int, 1) == gv.vertices[i].x);
        assert(crate::mesh_smoothing::trunc_div(gv.vertices[i].y as int, 1) == gv.vertices[i].y);
        assert(crate::mesh_smoothing::trunc_div(gv.vertices[i].z as int, 1) == gv.vertices[i].z);
    }
}

} // verus!
