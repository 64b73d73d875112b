//! Laplacian smoothing: iterative vertex-averaging relaxation over a
//! vertex-to-vertex adjacency map, with optional anchored vertices and a
//! stop-on-stability rule. Each iteration replaces every free vertex by
//! the componentwise mean (truncated towards zero) of its neighbours'
//! previous-iteration positions.

use crate::geometry::{copy_vec, Geometry, Point, COORD_LIMIT};
use crate::mesh_topology_analysis::u32_vec_contains;
use vstd::prelude::*;

verus! {

/// Division truncated towards zero, for a positive divisor.
pub open spec fn trunc_div(a: int, b: int) -> int {
    if a >= 0 {
        a / b
    } else {
        -((-a) / b)
    }
}

/// Sum of the x coordinates of the vertices the row points at.
pub open spec fn sum_x(vertices: Seq<Point>, row: Seq<u32>) -> int
    decreases row.len(),
{
    if row.len() == 0 {
        0
    } else {
        sum_x(vertices, row.drop_last()) + vertices[row.last() as int].x
    }
}

/// Sum of the y coordinates of the vertices the row points at.
pub open spec fn sum_y(vertices: Seq<Point>, row: Seq<u32>) -> int
    decreases row.len(),
{
    if row.len() == 0 {
        0
    } else {
        sum_y(vertices, row.drop_last()) + vertices[row.last() as int].y
    }
}

/// Sum of the z coordinates of the vertices the row points at.
pub open spec fn sum_z(vertices: Seq<Point>, row: Seq<u32>) -> int
    decreases row.len(),
{
    if row.len() == 0 {
        0
    } else {
        sum_z(vertices, row.drop_last()) + vertices[row.last() as int].z
    }
}

/// The componentwise mean of the neighbour positions, truncated towards
/// zero.
pub open spec fn smoothed_point(vertices: Seq<Point>, row: Seq<u32>) -> Point {
    Point {
        x: trunc_div(sum_x(vertices, row), row.len() as int) as i64,
        y: trunc_div(sum_y(vertices, row), row.len() as int) as i64,
        z: trunc_div(sum_z(vertices, row), row.len() as int) as i64,
    }
}

/// One synchronous smoothing pass: every vertex that is not anchored and
/// has at least one neighbour moves to the mean of its neighbours'
/// previous positions; all others stay.
pub open spec fn smooth_step(vertices: Seq<Point>, adj: Seq<Seq<u32>>, fixed: Seq<u32>) -> Seq<
    Point,
> {
    Seq::new(
        vertices.len(),
        |i: int|
            if fixed.contains(i as u32) || adj[i].len() == 0 {
                vertices[i]
            } else {
                smoothed_point(vertices, adj[i])
            },
    )
}

/// `k` smoothing passes.
pub open spec fn smooth_iter(
    vertices: Seq<Point>,
    adj: Seq<Seq<u32>>,
    fixed: Seq<u32>,
    k: nat,
) -> Seq<Point>
    decreases k,
{
    if k == 0 {
        vertices
    } else {
        smooth_step(smooth_iter(vertices, adj, fixed, (k - 1) as nat), adj, fixed)
    }
}

/// A pass is stable when anchors exist and it moves no vertex. Without
/// anchors stability is defined to be false.
pub open spec fn step_stable(vertices: Seq<Point>, adj: Seq<Seq<u32>>, fixed: Seq<u32>) -> bool {
    fixed.len() > 0 && smooth_step(vertices, adj, fixed) == vertices
}

/// Smoothing never changes the number of vertices.
pub proof fn lemma_smooth_iter_len(
    vertices: Seq<Point>,
    adj: Seq<Seq<u32>>,
    fixed: Seq<u32>,
    k: nat,
)
    ensures
        smooth_iter(vertices, adj, fixed, k).len() == vertices.len(),
    decreases k,
{
    if k > 0 {
        lemma_smooth_iter_len(vertices, adj, fixed, (k - 1) as nat);
    }
}

/// The per-row sequences of an adjacency table.
pub open spec fn rows_view(t: Seq<Vec<u32>>) -> Seq<Seq<u32>> {
    Seq::new(t.len(), |i: int| t[i]@)
}

/// Truncated-towards-zero bounds: a mean of values in `[-m, m]` stays in
/// `[-m, m]`.
pub(crate) proof fn lemma_trunc_div_bound(a: int, b: int, m: int)
    requires
        b >= 1,
        m >= 0,
        -(b * m) <= a <= b * m,
    ensures
        -m <= trunc_div(a, b) <= m,
{
    if a >= 0 {
        vstd::arithmetic::div_mod::lemma_div_is_ordered(a, b * m, b);
        vstd::arithmetic::div_mod::lemma_div_multiples_vanish(m, b);
        vstd::arithmetic::div_mod::lemma_div_pos_is_pos(a, b);
    } else {
        vstd::arithmetic::div_mod::lemma_div_is_ordered(-a, b * m, b);
        vstd::arithmetic::div_mod::lemma_div_multiples_vanish(m, b);
        vstd::arithmetic::div_mod::lemma_div_pos_is_pos(-a, b);
    }
}

/// Division of an `i128` by a positive divisor, truncated towards zero.
pub(crate) fn trunc_div_i128(a: i128, b: i128) -> (r: i128)
    requires
        b >= 1,
        -(i128::MAX as int) <= a,
    ensures
        r == trunc_div(a as int, b as int),
{
    if a >= 0 {
        let q = (a as u128) / (b as u128);
        proof {
            vstd::arithmetic::div_mod::lemma_div_is_ordered(a as int, i128::MAX as int, b as int);
            vstd::arithmetic::div_mod::lemma_div_nonincreasing(i128::MAX as int, b as int);
            vstd::arithmetic::div_mod::lemma_div_pos_is_pos(a as int, b as int);
        }
        q as i128
    } else {
        let neg = -a;
        let q = (neg as u128) / (b as u128);
        proof {
            vstd::arithmetic::div_mod::lemma_div_is_ordered(
                neg as int,
                i128::MAX as int,
                b as int,
            );
            vstd::arithmetic::div_mod::lemma_div_nonincreasing(i128::MAX as int, b as int);
            vstd::arithmetic::div_mod::lemma_div_pos_is_pos(neg as int, b as int);
        }
        -(q as i128)
    }
}

/// The mean position of the vertices a non-empty row points at.
#[verifier::loop_isolation(false)]
pub(crate) fn smoothed_point_exec(vertices: &Vec<Point>, row: &Vec<u32>) -> (r: Point)
    requires
        row@.len() > 0,
        forall|k: int| 0 <= k < row@.len() ==> ((#[trigger] row@[k]) as int) < vertices@.len(),
        forall|i: int| 0 <= i < vertices@.len() ==> (#[trigger] vertices@[i]).bounded(),
    ensures
        r == smoothed_point(vertices@, row@),
        r.bounded(),
{
    let mut sx: i128 = 0;
    let mut sy: i128 = 0;
    let mut sz: i128 = 0;
    let mut k: usize = 0;
    while k < row.len()
        invariant
            0 <= k <= row@.len(),
            sx == sum_x(vertices@, row@.take(k as int)),
            sy == sum_y(vertices@, row@.take(k as int)),
            sz == sum_z(vertices@, row@.take(k as int)),
            -((k as int) * (COORD_LIMIT as int)) <= sx <= (k as int) * (COORD_LIMIT as int),
            -((k as int) * (COORD_LIMIT as int)) <= sy <= (k as int) * (COORD_LIMIT as int),
            -((k as int) * (COORD_LIMIT as int)) <= sz <= (k as int) * (COORD_LIMIT as int),
        decreases row@.len() - k,
    {
        let p = vertices[row[k] as usize];
        proof {
            assert(row@.take(k + 1).drop_last() =~= row@.take(k as int));
            assert(row@.take(k + 1).last() == row@[k as int]);
        }
        sx = sx + p.x as i128;
        sy = sy + p.y as i128;
        sz = sz + p.z as i128;
        k = k + 1;
    }
    proof {
        assert(row@.take(row@.len() as int) =~= row@);
    }
    let n = row.len() as i128;
    proof {
        lemma_trunc_div_bound(sx as int, n as int, COORD_LIMIT as int);
        lemma_trunc_div_bound(sy as int, n as int, COORD_LIMIT as int);
        lemma_trunc_div_bound(sz as int, n as int, COORD_LIMIT as int);
    }
    let mx = trunc_div_i128(sx, n);
    let my = trunc_div_i128(sy, n);
    let mz = trunc_div_i128(sz, n);
    Point { x: mx as i64, y: my as i64, z: mz as i64 }
}

/// Relaxes the geometry by replacing every free vertex with the mean of
/// its neighbours' previous-iteration positions, `iterations` times (or
/// fewer when `stop_when_stable` is set and an iteration moves nothing).
///
/// Faces and normals pass through unchanged: only positions move, the
/// topology is invariant. Returns the new geometry, the number of
/// iterations actually executed and whether the last executed iteration
/// was stable.
#[verifier::loop_isolation(false)]
pub fn laplacian_smoothing(
    geometry: &Geometry,
    vertex_to_vertex_topology: &Vec<Vec<u32>>,
    iterations: u32,
    fixed_vertex_indices: &Vec<u32>,
    stop_when_stable: bool,
) -> (r: (Geometry, u32, bool))
    requires
        iterations <= 255,
        vertex_to_vertex_topology@.len() == geometry@.vertices.len(),
        forall|i: int, k: int|
            0 <= i < vertex_to_vertex_topology@.len() && 0 <= k
                < (vertex_to_vertex_topology@[i])@.len() ==> ((#[trigger] (
            vertex_to_vertex_topology@[i])@[k]) as int) < geometry@.vertices.len(),
    ensures
        r.0@.faces == geometry@.faces,
        r.0@.normals == geometry@.normals,
        r.0@.vertices == smooth_iter(
            geometry@.vertices,
            rows_view(vertex_to_vertex_topology@),
            fixed_vertex_indices@,
            r.1 as nat,
        ),
        r.0@.wf(),
        r.1 <= iterations,
        iterations == 0 ==> r.1 == 0 && !r.2,
        !stop_when_stable && iterations > 0 ==> r.1 == iterations,
        r.2 == (r.1 > 0 && step_stable(
            smooth_iter(
                geometry@.vertices,
                rows_view(vertex_to_vertex_topology@),
                fixed_vertex_indices@,
                (r.1 - 1) as nat,
            ),
            rows_view(vertex_to_vertex_topology@),
            fixed_vertex_indices@,
        )),
        stop_when_stable ==> r.1 == iterations || r.2,
        forall|j: nat|
            j < r.1 - 1 ==> !(stop_when_stable && step_stable(
                #[trigger] smooth_iter(
                    geometry@.vertices,
                    rows_view(vertex_to_vertex_topology@),
                    fixed_vertex_indices@,
                    j,
                ),
                rows_view(vertex_to_vertex_topology@),
                fixed_vertex_indices@,
            )),
{
    let ghost adj = rows_view(vertex_to_vertex_topology@);
    let ghost orig = geometry@.vertices;
    let ghost fixed = fixed_vertex_indices@;
    if iterations == 0 {
        proof {
            use_type_invariant(geometry);
        }
        return (geometry.clone(), 0, false);
    }
    let mut vertices: Vec<Point> = copy_vec(geometry.vertices());
    let nv = vertices.len();
    let mut iteration: u32 = 0;
    let mut stable: bool = false;
    while iteration < iterations && !(stop_when_stable && stable)
        invariant
            iteration <= iterations,
            vertices@.len() == nv,
            vertices@ == smooth_iter(orig, adj, fixed, iteration as nat),
            forall|i: int| 0 <= i < vertices@.len() ==> (#[trigger] vertices@[i]).bounded(),
            iteration == 0 ==> !stable,
            iteration > 0 ==> stable == step_stable(
                smooth_iter(orig, adj, fixed, (iteration - 1) as nat),
                adj,
                fixed,
            ),
            forall|j: nat|
                j < iteration - 1 ==> !(stop_when_stable && step_stable(
                    #[trigger] smooth_iter(orig, adj, fixed, j),
                    adj,
                    fixed,
                )),
        decreases iterations - iteration,
    {
        let mut new_vertices: Vec<Point> = Vec::new();
        let mut unmoved: bool = true;
        let mut i: usize = 0;
        while i < nv
            invariant
                0 <= i <= nv,
                vertices@.len() == nv,
                vertices@ == smooth_iter(orig, adj, fixed, iteration as nat),
                forall|p: int| 0 <= p < vertices@.len() ==> (#[trigger] vertices@[p]).bounded(),
                new_vertices@.len() == i,
                forall|j: int|
                    0 <= j < i ==> #[trigger] new_vertices@[j] == smooth_step(
                        vertices@,
                        adj,
                        fixed,
                    )[j],
                forall|j: int|
                    0 <= j < i ==> (#[trigger] new_vertices@[j]).bounded(),
                unmoved == (forall|j: int|
                    0 <= j < i ==> #[trigger] new_vertices@[j] == vertices@[j]),
            decreases nv - i,
        {
            let row = &vertex_to_vertex_topology[i];
            let is_fixed = u32_vec_contains(fixed_vertex_indices, i as u32);
            let ghost prev_new = new_vertices@;
            let ghost prev_unmoved = unmoved;
            if !is_fixed && row.len() > 0 {
                proof {
                    assert(adj[i as int] == row@);
                }
                let p = smoothed_point_exec(&vertices, row);
                let same = p == vertices[i];
                unmoved = unmoved && same;
                new_vertices.push(p);
            } else {
                new_vertices.push(vertices[i]);
            }
            proof {
                assert(new_vertices@[i as int] == smooth_step(vertices@, adj, fixed)[i as int]);
                assert forall|j: int| 0 <= j < i + 1 implies (#[trigger] new_vertices@[j] == (
                if unmoved {
                    vertices@[j]
                } else {
                    new_vertices@[j]
                })) by {}
                if unmoved {
                    assert forall|j: int| 0 <= j < i + 1 implies #[trigger] new_vertices@[j]
                        == vertices@[j] by {
                        if j < i {
                            assert(prev_unmoved);
                            assert(prev_new[j] == vertices@[j]);
                        }
                    }
                } else {
                    if prev_unmoved && new_vertices@[i as int] == vertices@[i as int] {
                        assert(false);
                    } else {
                        if !prev_unmoved {
                            let j0 = choose|j0: int|
                                0 <= j0 < i && #[trigger] prev_new[j0] != vertices@[j0];
                            assert(new_vertices@[j0] != vertices@[j0]);
                        } else {
                            assert(new_vertices@[i as int] != vertices@[i as int]);
                        }
                    }
                }
            }
            i = i + 1;
        }
        proof {
            assert(new_vertices@ =~= smooth_step(vertices@, adj, fixed));
            assert(smooth_iter(orig, adj, fixed, (iteration + 1) as nat) == smooth_step(
                smooth_iter(orig, adj, fixed, iteration as nat),
                adj,
                fixed,
            ));
        }
        let iter_stable = fixed_vertex_indices.len() > 0 && unmoved;
        proof {
            if iter_stable {
                assert(smooth_step(vertices@, adj, fixed) =~= vertices@);
            }
            if step_stable(vertices@, adj, fixed) {
                assert(unmoved);
            }
            assert(iter_stable == step_stable(vertices@, adj, fixed));
        }
        stable = iter_stable;
        vertices = new_vertices;
        iteration = iteration + 1;
    }
    let faces = copy_vec(geometry.faces());
    let normals = copy_vec(geometry.normals());
    let result = Geometry::from_faces_with_vertices_and_normals(faces, vertices, normals);
    (result, iteration, stable)
}


/// Every coordinate of every vertex of `a` is within `d` of the same
/// coordinate of the same vertex of `b`.
pub open spec fn within(a: Seq<Point>, b: Seq<Point>, d: int) -> bool {
    &&& a.len() == b.len()
    &&& forall|i: int|
        0 <= i < a.len() ==> {
            let p = #[trigger] a[i];
            let q = b[i];
            &&& -d <= p.x - q.x <= d
            &&& -d <= p.y - q.y <= d
            &&& -d <= p.z - q.z <= d
        }
}

/// Neighbour sums over close vertex sets are close.
proof fn lemma_sum_close(a: Seq<Point>, b: Seq<Point>, row: Seq<u32>, d: int)
    requires
        within(a, b, d),
        d >= 0,
        forall|k: int| 0 <= k < row.len() ==> ((#[trigger] row[k]) as int) < a.len(),
    ensures
        -(row.len() * d) <= sum_x(a, row) - sum_x(b, row) <= row.len() * d,
        -(row.len() * d) <= sum_y(a, row) - sum_y(b, row) <= row.len() * d,
        -(row.len() * d) <= sum_z(a, row) - sum_z(b, row) <= row.len() * d,
    decreases row.len(),
{
    if row.len() > 0 {
        lemma_sum_close(a, b, row.drop_last(), d);
        assert((row.len() - 1) * d + d == row.len() * d) by (nonlinear_arith);
        assert(a[row.last() as int] == a[row[row.len() - 1] as int]);
    }
}

/// Truncated division by a positive divisor moves points at most `d`
/// apart when their numerators are at most `b * d` apart.
proof fn lemma_trunc_div_close(x: int, y: int, b: int, d: int)
    requires
        b >= 1,
        d >= 0,
        -(b * d) <= x - y <= b * d,
    ensures
        -d <= trunc_div(x, b) - trunc_div(y, b) <= d,
{
    vstd::arithmetic::mul::lemma_mul_is_commutative(b, d);
    if x >= 0 && y >= 0 {
        vstd::arithmetic::div_mod::lemma_div_is_ordered(x, y + b * d, b);
        vstd::arithmetic::div_mod::lemma_hoist_over_denominator(y, d, b as nat);
        vstd::arithmetic::div_mod::lemma_div_is_ordered(y, x + b * d, b);
        vstd::arithmetic::div_mod::lemma_hoist_over_denominator(x, d, b as nat);
    } else if x < 0 && y < 0 {
        vstd::arithmetic::div_mod::lemma_div_is_ordered(-x, -y + b * d, b);
        vstd::arithmetic::div_mod::lemma_hoist_over_denominator(-y, d, b as nat);
        vstd::arithmetic::div_mod::lemma_div_is_ordered(-y, -x + b * d, b);
        vstd::arithmetic::div_mod::lemma_hoist_over_denominator(-x, d, b as nat);
    } else if x >= 0 && y < 0 {
        lemma_split_sum_div(x, -y, b, d);
        vstd::arithmetic::div_mod::lemma_div_pos_is_pos(x, b);
        vstd::arithmetic::div_mod::lemma_div_pos_is_pos(-y, b);
    } else {
        lemma_split_sum_div(y, -x, b, d);
        vstd::arithmetic::div_mod::lemma_div_pos_is_pos(y, b);
        vstd::arithmetic::div_mod::lemma_div_pos_is_pos(-x, b);
    }
}

/// For nonnegative `u`, `v` with `u + v <= b * d`: `u/b + v/b <= d`.
proof fn lemma_split_sum_div(u: int, v: int, b: int, d: int)
    requires
        b >= 1,
        d >= 0,
        u >= 0,
        v >= 0,
        u + v <= b * d,
    ensures
        u / b + v / b <= d,
{
    vstd::arithmetic::mul::lemma_mul_is_commutative(b, d);
    vstd::arithmetic::div_mod::lemma_fundamental_div_mod(u, b);
    vstd::arithmetic::div_mod::lemma_fundamental_div_mod(v, b);
    let qu = u / b;
    let qv = v / b;
    let ru = u % b;
    let rv = v % b;
    assert(0 <= ru < b && 0 <= rv < b) by {
        vstd::arithmetic::div_mod::lemma_mod_division_less_than_divisor(u, b);
        vstd::arithmetic::div_mod::lemma_mod_division_less_than_divisor(v, b);
    }
    // u + v = (qu + qv) * b + (ru + rv); dividing by b keeps at least
    // qu + qv, and the whole quotient is at most d.
    vstd::arithmetic::div_mod::lemma_hoist_over_denominator(ru + rv, qu + qv, b as nat);
    assert((ru + rv) / b >= 0) by {
        vstd::arithmetic::div_mod::lemma_div_pos_is_pos(ru + rv, b);
    }
    assert(u == b * qu + ru);
    assert(v == b * qv + rv);
    assert(u + v == (ru + rv) + (qu + qv) * b) by (nonlinear_arith)
        requires
            u == b * qu + ru,
            v == b * qv + rv,
    ;
    assert((u + v) / b == (ru + rv) / b + (qu + qv));
    vstd::arithmetic::div_mod::lemma_div_is_ordered(u + v, b * d, b);
    vstd::arithmetic::div_mod::lemma_div_multiples_vanish(d, b);
}

/// One smoothing pass is non-expansive: vertex sets at distance `d`
/// stay within `d` after the pass, anchors aside.
proof fn lemma_smooth_step_nonexpansive(a: Seq<Point>, b: Seq<Point>, adj: Seq<Seq<u32>>, d: int)
    requires
        within(a, b, d),
        d >= 0,
        adj.len() == a.len(),
        forall|i: int, k: int|
            0 <= i < adj.len() && 0 <= k < adj[i].len() ==> ((#[trigger] adj[i][k]) as int)
                < a.len(),
        forall|i: int| 0 <= i < a.len() ==> (#[trigger] a[i]).bounded(),
        forall|i: int| 0 <= i < b.len() ==> (#[trigger] b[i]).bounded(),
    ensures
        within(smooth_step(a, adj, Seq::empty()), smooth_step(b, adj, Seq::empty()), d),
{
    let sa = smooth_step(a, adj, Seq::empty());
    let sb = smooth_step(b, adj, Seq::empty());
    assert forall|i: int| 0 <= i < sa.len() implies {
        let p = #[trigger] sa[i];
        let q = sb[i];
        &&& -d <= p.x - q.x <= d
        &&& -d <= p.y - q.y <= d
        &&& -d <= p.z - q.z <= d
    } by {
        assert(!Seq::<u32>::empty().contains(i as u32));
        if adj[i].len() == 0 {
            assert(sa[i] == a[i] && sb[i] == b[i]);
        } else {
            let row = adj[i];
            let len = row.len() as int;
            lemma_sum_close(a, b, row, d);
            lemma_trunc_div_close(sum_x(a, row), sum_x(b, row), len, d);
            lemma_trunc_div_close(sum_y(a, row), sum_y(b, row), len, d);
            lemma_trunc_div_close(sum_z(a, row), sum_z(b, row), len, d);
            lemma_sum_bounded(a, row);
            lemma_sum_bounded(b, row);
            lemma_trunc_div_bound(sum_x(a, row), len, COORD_LIMIT as int);
            lemma_trunc_div_bound(sum_y(a, row), len, COORD_LIMIT as int);
            lemma_trunc_div_bound(sum_z(a, row), len, COORD_LIMIT as int);
            lemma_trunc_div_bound(sum_x(b, row), len, COORD_LIMIT as int);
            lemma_trunc_div_bound(sum_y(b, row), len, COORD_LIMIT as int);
            lemma_trunc_div_bound(sum_z(b, row), len, COORD_LIMIT as int);
        }
    }
}

/// Neighbour sums of bounded vertex sets are bounded by the count times
/// the coordinate cap.
proof fn lemma_sum_bounded(a: Seq<Point>, row: Seq<u32>)
    requires
        forall|i: int| 0 <= i < a.len() ==> (#[trigger] a[i]).bounded(),
        forall|k: int| 0 <= k < row.len() ==> ((#[trigger] row[k]) as int) < a.len(),
    ensures
        -(row.len() * (COORD_LIMIT as int)) <= sum_x(a, row) <= row.len() * (COORD_LIMIT as int),
        -(row.len() * (COORD_LIMIT as int)) <= sum_y(a, row) <= row.len() * (COORD_LIMIT as int),
        -(row.len() * (COORD_LIMIT as int)) <= sum_z(a, row) <= row.len() * (COORD_LIMIT as int),
    decreases row.len(),
{
    if row.len() > 0 {
        lemma_sum_bounded(a, row.drop_last());
        assert((row.len() - 1) * (COORD_LIMIT as int) + COORD_LIMIT as int == row.len() * (
        COORD_LIMIT as int)) by (nonlinear_arith);
        assert(a[row.last() as int].bounded());
    }
}

/// Smoothing keeps every coordinate within the cap.
pub proof fn lemma_smooth_iter_bounded(
    vertices: Seq<Point>,
    adj: Seq<Seq<u32>>,
    fixed: Seq<u32>,
    k: nat,
)
    requires
        adj.len() == vertices.len(),
        forall|i: int, j: int|
            0 <= i < adj.len() && 0 <= j < adj[i].len() ==> ((#[trigger] adj[i][j]) as int)
                < vertices.len(),
        forall|i: int| 0 <= i < vertices.len() ==> (#[trigger] vertices[i]).bounded(),
    ensures
        forall|i: int|
            0 <= i < vertices.len() ==> (#[trigger] smooth_iter(vertices, adj, fixed, k)[i]).bounded(),
        smooth_iter(vertices, adj, fixed, k).len() == vertices.len(),
    decreases k,
{
    lemma_smooth_iter_len(vertices, adj, fixed, k);
    if k > 0 {
        lemma_smooth_iter_bounded(vertices, adj, fixed, (k - 1) as nat);
        let prev = smooth_iter(vertices, adj, fixed, (k - 1) as nat);
        assert forall|i: int| 0 <= i < vertices.len() implies (#[trigger] smooth_iter(
            vertices,
            adj,
            fixed,
            k,
        )[i]).bounded() by {
            if !(fixed.contains(i as u32) || adj[i].len() == 0) {
                let row = adj[i];
                lemma_sum_bounded(prev, row);
                lemma_trunc_div_bound(sum_x(prev, row), row.len() as int, COORD_LIMIT as int);
                lemma_trunc_div_bound(sum_y(prev, row), row.len() as int, COORD_LIMIT as int);
                lemma_trunc_div_bound(sum_z(prev, row), row.len() as int, COORD_LIMIT as int);
            }
        }
    }
}

/// Anchored vertices never move: however many passes run, a vertex in
/// the fixed set keeps its original position.
pub proof fn lemma_anchored_vertices_unchanged(
    vertices: Seq<Point>,
    adj: Seq<Seq<u32>>,
    fixed: Seq<u32>,
    k: nat,
)
    ensures
        forall|i: int|
            0 <= i < vertices.len() && fixed.contains(i as u32) ==> smooth_iter(
                vertices,
                adj,
                fixed,
                k,
            )[i] == vertices[i],
    decreases k,
{
    lemma_smooth_iter_len(vertices, adj, fixed, k);
    if k > 0 {
        lemma_anchored_vertices_unchanged(vertices, adj, fixed, (k - 1) as nat);
        lemma_smooth_iter_len(vertices, adj, fixed, (k - 1) as nat);
    }
}

/// Anchorless smoothing converges monotonically: the averaging pass is
/// non-expansive, so if the positions after `k` and `k + 1` passes agree
/// to within `d` on every coordinate, so do the positions after `k + 1`
/// and `k + 2` passes. Running one more iteration never increases the
/// per-iteration displacement.
pub proof fn lemma_smoothing_displacement_nonincreasing(
    vertices: Seq<Point>,
    adj: Seq<Seq<u32>>,
    k: nat,
    d: int,
)
    requires
        d >= 0,
        adj.len() == vertices.len(),
        forall|i: int, j: int|
            0 <= i < adj.len() && 0 <= j < adj[i].len() ==> ((#[trigger] adj[i][j]) as int)
                < vertices.len(),
        forall|i: int| 0 <= i < vertices.len() ==> (#[trigger] vertices[i]).bounded(),
        within(
            smooth_iter(vertices, adj, Seq::empty(), k),
            smooth_iter(vertices, adj, Seq::empty(), (k + 1) as nat),
            d,
        ),
    ensures
        within(
            smooth_iter(vertices, adj, Seq::empty(), (k + 1) as nat),
            smooth_iter(vertices, adj, Seq::empty(), (k + 2) as nat),
            d,
        ),
{
    let a = smooth_iter(vertices, adj, Seq::empty(), k);
    let b = smooth_iter(vertices, adj, Seq::empty(), (k + 1) as nat);
    lemma_smooth_iter_bounded(vertices, adj, Seq::empty(), k);
    lemma_smooth_iter_bounded(vertices, adj, Seq::empty(), (k + 1) as nat);
    lemma_smooth_step_nonexpansive(a, b, adj, d);
    assert(smooth_iter(vertices, adj, Seq::empty(), (k + 1) as nat) == smooth_step(
        a,
        adj,
        Seq::empty(),
    ));
    assert(smooth_iter(vertices, adj, Seq::empty(), (k + 2) as nat) == smooth_step(
        b,
        adj,
        Seq::empty(),
    ));
}

} // verus!
