//! Whole-mesh queries: border vertices and content-based similarity of
//! two geometries.

use crate::geometry::{resolved_face, Geometry, GeometryView, ResolvedFace, UnorientedEdge};
use crate::mesh_topology_analysis::u32_vec_contains;
use vstd::prelude::*;

verus! {

/// Whether `v` is an endpoint of some edge that exactly one face
/// references.
pub open spec fn is_border_vertex(entries: Seq<(UnorientedEdge, u32)>, v: u32) -> bool {
    exists|k: int|
        0 <= k < entries.len() && (#[trigger] entries[k]).1 == 1 && (entries[k].0.0.vertices.0 == v
            || entries[k].0.0.vertices.1 == v)
}

/// The distinct vertices that sit on a border edge (an edge referenced
/// by exactly one face), drawn from an edge-sharing list.
#[verifier::loop_isolation(false)]
pub fn border_vertex_indices(edge_sharing: &Vec<(UnorientedEdge, u32)>) -> (r: Vec<u32>)
    ensures
        forall|v: u32| r@.contains(v) <==> is_border_vertex(edge_sharing@, v),
        forall|k1: int, k2: int| 0 <= k1 < k2 < r@.len() ==> r@[k1] != r@[k2],
{
    let mut out: Vec<u32> = Vec::new();
    let mut i: usize = 0;
    while i < edge_sharing.len()
        invariant
            0 <= i <= edge_sharing@.len(),
            forall|v: u32|
                r_mem(out@, v) <==> exists|k: int|
                    0 <= k < i && (#[trigger] edge_sharing@[k]).1 == 1 && (
                    edge_sharing@[k].0.0.vertices.0 == v || edge_sharing@[k].0.0.vertices.1 == v),
            forall|k1: int, k2: int| 0 <= k1 < k2 < out@.len() ==> out@[k1] != out@[k2],
        decreases edge_sharing@.len() - i,
    {
        let entry = edge_sharing[i];
        let ghost prev = out@;
        if entry.1 == 1 {
            let a = entry.0.0.vertices.0;
            let b = entry.0.0.vertices.1;
            if !u32_vec_contains(&out, a) {
                out.push(a);
            }
            let ghost mid = out@;
            if !u32_vec_contains(&out, b) {
                out.push(b);
            }
            proof {
                assert forall|v: u32| r_mem(out@, v) implies (exists|k: int|
                    0 <= k < i + 1 && (#[trigger] edge_sharing@[k]).1 == 1 && (
                    edge_sharing@[k].0.0.vertices.0 == v || edge_sharing@[k].0.0.vertices.1
                        == v)) by {
                    let k0 = choose|k0: int| 0 <= k0 < out@.len() && out@[k0] == v;
                    if k0 < prev.len() {
                        assert(r_mem(prev, v));
                        let kk = choose|kk: int|
                            0 <= kk < i && (#[trigger] edge_sharing@[kk]).1 == 1 && (
                            edge_sharing@[kk].0.0.vertices.0 == v
                                || edge_sharing@[kk].0.0.vertices.1 == v);
                        assert(0 <= kk < i + 1 && edge_sharing@[kk].1 == 1 && (
                        edge_sharing@[kk].0.0.vertices.0 == v || edge_sharing@[kk].0.0.vertices.1
                            == v));
                    } else {
                        assert(v == a || v == b);
                        assert(edge_sharing@[i as int].1 == 1 && (edge_sharing@[i as int].0.0.vertices.0
                            == v || edge_sharing@[i as int].0.0.vertices.1 == v));
                    }
                }
                assert forall|v: u32|
                    (exists|k: int|
                        0 <= k < i + 1 && (#[trigger] edge_sharing@[k]).1 == 1 && (
                        edge_sharing@[k].0.0.vertices.0 == v || edge_sharing@[k].0.0.vertices.1
                            == v)) implies r_mem(out@, v) by {
                    let kk = choose|kk: int|
                        0 <= kk < i + 1 && (#[trigger] edge_sharing@[kk]).1 == 1 && (
                        edge_sharing@[kk].0.0.vertices.0 == v || edge_sharing@[kk].0.0.vertices.1
                            == v);
                    if kk < i {
                        assert(r_mem(prev, v));
                        let k0 = choose|k0: int| 0 <= k0 < prev.len() && prev[k0] == v;
                        assert(out@[k0] == v);
                    } else {
                        if v == a {
                            if prev.contains(a) {
                                let k0 = choose|k0: int| 0 <= k0 < prev.len() && prev[k0] == a;
                                assert(out@[k0] == v);
                            } else {
                                assert(mid[mid.len() - 1] == a);
                                assert(out@.contains(a)) by {
                                    let k1 = choose|k1: int| 0 <= k1 < mid.len() && mid[k1] == a;
                                    assert(out@[k1] == a);
                                }
                            }
                        } else {
                            if mid.contains(b) {
                                let k0 = choose|k0: int| 0 <= k0 < mid.len() && mid[k0] == b;
                                assert(out@[k0] == v);
                            } else {
                                assert(out@[out@.len() - 1] == b);
                            }
                        }
                    }
                }
            }
        }
        i = i + 1;
    }
    proof {
        assert forall|v: u32| #[trigger] out@.contains(v) implies r_mem(out@, v) by {}
        assert forall|v: u32| r_mem(out@, v) implies #[trigger] out@.contains(v) by {
            let k0 = choose|k0: int| 0 <= k0 < out@.len() && out@[k0] == v;
        }
    }
    out
}

/// Membership in the output list.
pub open spec fn r_mem(s: Seq<u32>, v: u32) -> bool {
    exists|k: int| 0 <= k < s.len() && #[trigger] s[k] == v
}

/// The resolved face rotated one corner forward: the same triangle with
/// the same winding, listed from its next corner.
pub open spec fn rotated(x: ResolvedFace) -> ResolvedFace {
    ResolvedFace {
        positions: (x.positions.1, x.positions.2, x.positions.0),
        normals: match x.normals {
            Some(n) => Some((n.1, n.2, n.0)),
            None => None,
        },
    }
}

/// Two resolved faces denote the same wound triangle: equal up to
/// rotation of the corner list.
pub open spec fn face_content_eq(x: ResolvedFace, y: ResolvedFace) -> bool {
    y == x || y == rotated(x) || y == rotated(rotated(x))
}

/// Face `i` of `a` has some content-equal face in `b`.
pub open spec fn has_match(av: GeometryView, i: int, bv: GeometryView) -> bool {
    exists|j: int|
        0 <= j < bv.faces.len() && face_content_eq(resolved_face(av, i), #[trigger] resolved_face(
            bv,
            j,
        ))
}

/// Two geometries hold the same mesh content: equal collection sizes and
/// a content-equal counterpart in the other geometry for every face.
pub open spec fn similar(av: GeometryView, bv: GeometryView) -> bool {
    &&& av.faces.len() == bv.faces.len()
    &&& av.vertices.len() == bv.vertices.len()
    &&& av.normals.len() == bv.normals.len()
    &&& forall|i: int| 0 <= i < av.faces.len() ==> #[trigger] has_match(av, i, bv)
    &&& forall|j: int| 0 <= j < bv.faces.len() ==> #[trigger] has_match(bv, j, av)
}

/// Compares the resolved content of face `i` of `a` and face `j` of `b`,
/// up to rotation.
fn face_match_exec(a: &Geometry, i: usize, b: &Geometry, j: usize) -> (r: bool)
    requires
        (i as int) < a@.faces.len(),
        (j as int) < b@.faces.len(),
    ensures
        r == face_content_eq(resolved_face(a@, i as int), resolved_face(b@, j as int)),
{
    proof {
        use_type_invariant(a);
        use_type_invariant(b);
    }
    let ta = match a.faces()[i] {
        crate::geometry::Face::Triangle(t) => t,
    };
    let tb = match b.faces()[j] {
        crate::geometry::Face::Triangle(t) => t,
    };
    let pa0 = a.vertices()[ta.vertices.0 as usize];
    let pa1 = a.vertices()[ta.vertices.1 as usize];
    let pa2 = a.vertices()[ta.vertices.2 as usize];
    let pb0 = b.vertices()[tb.vertices.0 as usize];
    let pb1 = b.vertices()[tb.vertices.1 as usize];
    let pb2 = b.vertices()[tb.vertices.2 as usize];
    let pos_same = pb0 == pa0 && pb1 == pa1 && pb2 == pa2;
    let pos_rot1 = pb0 == pa1 && pb1 == pa2 && pb2 == pa0;
    let pos_rot2 = pb0 == pa2 && pb1 == pa0 && pb2 == pa1;
    match (ta.normals, tb.normals) {
        (Some(na), Some(nb)) => {
            let qa0 = a.normals()[na.0 as usize];
            let qa1 = a.normals()[na.1 as usize];
            let qa2 = a.normals()[na.2 as usize];
            let qb0 = b.normals()[nb.0 as usize];
            let qb1 = b.normals()[nb.1 as usize];
            let qb2 = b.normals()[nb.2 as usize];
            let n_same = qb0 == qa0 && qb1 == qa1 && qb2 == qa2;
            let n_rot1 = qb0 == qa1 && qb1 == qa2 && qb2 == qa0;
            let n_rot2 = qb0 == qa2 && qb1 == qa0 && qb2 == qa1;
            (pos_same && n_same) || (pos_rot1 && n_rot1) || (pos_rot2 && n_rot2)
        },
        (None, None) => pos_same || pos_rot1 || pos_rot2,
        _ => false,
    }
}

/// Whether the two geometries hold the same mesh content, compared by
/// value rather than by index order.
#[verifier::loop_isolation(false)]
pub fn are_similar(a: &Geometry, b: &Geometry) -> (r: bool)
    ensures
        r == similar(a@, b@),
{
    proof {
        use_type_invariant(a);
        use_type_invariant(b);
    }
    if a.faces().len() != b.faces().len() || a.vertices().len() != b.vertices().len()
        || a.normals().len() != b.normals().len() {
        return false;
    }
    let n = a.faces().len();
    let mut i: usize = 0;
    while i < n
        invariant
            0 <= i <= n,
            n == a@.faces.len() == b@.faces.len(),
            forall|i0: int| 0 <= i0 < i ==> #[trigger] has_match(a@, i0, b@),
        decreases n - i,
    {
        let mut j: usize = 0;
        let mut found = false;
        while j < n && !found
            invariant
                0 <= j <= n,
                0 <= i < n,
                n == a@.faces.len() == b@.faces.len(),
                !found ==> forall|j0: int|
                    0 <= j0 < j ==> !face_content_eq(
                        resolved_face(a@, i as int),
                        #[trigger] resolved_face(b@, j0),
                    ),
                found ==> has_match(a@, i as int, b@),
            decreases n - j + (if found { 0int } else { 1int }),
        {
            if face_match_exec(a, i, b, j) {
                found = true;
            }
            j = j + 1;
        }
        if !found {
            proof {
                assert(!has_match(a@, i as int, b@));
            }
            return false;
        }
        i = i + 1;
    }
    let mut i: usize = 0;
    while i < n
        invariant
            0 <= i <= n,
            n == a@.faces.len() == b@.faces.len(),
            forall|i0: int| 0 <= i0 < a@.faces.len() ==> #[trigger] has_match(a@, i0, b@),
            forall|i0: int| 0 <= i0 < i ==> #[trigger] has_match(b@, i0, a@),
        decreases n - i,
    {
        let mut j: usize = 0;
        let mut found = false;
        while j < n && !found
            invariant
                0 <= j <= n,
                0 <= i < n,
                n == a@.faces.len() == b@.faces.len(),
                !found ==> forall|j0: int|
                    0 <= j0 < j ==> !face_content_eq(
                        resolved_face(b@, i as int),
                        #[trigger] resolved_face(a@, j0),
                    ),
                found ==> has_match(b@, i as int, a@),
            decreases n - j + (if found { 0int } else { 1int }),
        {
            if face_match_exec(b, i, a, j) {
                found = true;
            }
            j = j + 1;
        }
        if !found {
            proof {
                assert(!has_match(b@, i as int, a@));
            }
            return false;
        }
        i = i + 1;
    }
    true
}

} // verus!
