//! The mesh data model: points, vectors, triangular faces and the
//! immutable [`Geometry`] container they live in.
//!
//! Coordinates are integers on a caller-chosen grid. Their magnitude is
//! capped by [`COORD_LIMIT`] so that every sum, mean and quantization the
//! kernel performs stays inside machine integer ranges.

use vstd::prelude::*;

verus! {

/// Largest coordinate magnitude (for vertices and normals alike) that a
/// well-formed geometry may hold.
pub const COORD_LIMIT: i64 = 0x2000_0000_0000_0000;

/// A position in 3D space, on the integer grid.
#[derive(Clone, Copy, Debug)]
pub struct Point {
    pub x: i64,
    pub y: i64,
    pub z: i64,
}

/// A direction in 3D space, on the integer grid.
#[derive(Clone, Copy, Debug)]
pub struct Vector {
    pub x: i64,
    pub y: i64,
    pub z: i64,
}

impl Point {
    /// All three coordinates within the kernel's coordinate cap.
    pub open spec fn bounded(self) -> bool {
        -COORD_LIMIT <= self.x <= COORD_LIMIT && -COORD_LIMIT <= self.y <= COORD_LIMIT
            && -COORD_LIMIT <= self.z <= COORD_LIMIT
    }

    pub fn new(x: i64, y: i64, z: i64) -> (r: Point)
        ensures
            r == (Point { x, y, z }),
    {
        Point { x, y, z }
    }
}

impl Vector {
    /// All three coordinates within the kernel's coordinate cap.
    pub open spec fn bounded(self) -> bool {
        -COORD_LIMIT <= self.x <= COORD_LIMIT && -COORD_LIMIT <= self.y <= COORD_LIMIT
            && -COORD_LIMIT <= self.z <= COORD_LIMIT
    }

    pub fn new(x: i64, y: i64, z: i64) -> (r: Vector)
        ensures
            r == (Vector { x, y, z }),
    {
        Vector { x, y, z }
    }
}

/// A triangular face: three vertex indices (their order defines the
/// winding) and, optionally, a matching triple of normal indices.
#[derive(Clone, Copy, Debug)]
pub struct TriangleFace {
    pub vertices: (u32, u32, u32),
    pub normals: Option<(u32, u32, u32)>,
}

/// A face of a geometry. Only triangles exist today; the enum leaves room
/// for quads or n-gons without breaking match sites.
#[derive(Clone, Copy, Debug)]
pub enum Face {
    Triangle(TriangleFace),
}

/// The triangle held by a face.
pub open spec fn face_triangle(f: Face) -> TriangleFace {
    match f {
        Face::Triangle(t) => t,
    }
}

impl TriangleFace {
    /// A face whose vertex and normal indices are identical per corner.
    pub fn new(i1: u32, i2: u32, i3: u32) -> (r: TriangleFace)
        ensures
            r == (TriangleFace { vertices: (i1, i2, i3), normals: Some((i1, i2, i3)) }),
    {
        TriangleFace { vertices: (i1, i2, i3), normals: Some((i1, i2, i3)) }
    }

    /// A face with independently chosen vertex and normal indices.
    pub fn new_separate(v1: u32, v2: u32, v3: u32, n1: u32, n2: u32, n3: u32) -> (r: TriangleFace)
        ensures
            r == (TriangleFace { vertices: (v1, v2, v3), normals: Some((n1, n2, n3)) }),
    {
        TriangleFace { vertices: (v1, v2, v3), normals: Some((n1, n2, n3)) }
    }

    /// The same triangle with its winding (and normal order) reversed.
    pub open spec fn spec_reverted(self) -> TriangleFace {
        TriangleFace {
            vertices: (self.vertices.2, self.vertices.1, self.vertices.0),
            normals: match self.normals {
                Some(n) => Some((n.2, n.1, n.0)),
                None => None,
            },
        }
    }

    /// Reverts the winding: the vertex triple (and the normal triple, when
    /// present) is reversed, which flips the face's orientation.
    pub fn to_reverted(&self) -> (r: TriangleFace)
        ensures
            r == self.spec_reverted(),
    {
        TriangleFace {
            vertices: (self.vertices.2, self.vertices.1, self.vertices.0),
            normals: match self.normals {
                Some(n) => Some((n.2, n.1, n.0)),
                None => None,
            },
        }
    }

    /// The three oriented edges of the face, in winding order.
    pub open spec fn spec_oriented_edges(self) -> Seq<OrientedEdge> {
        seq![
            OrientedEdge { vertices: (self.vertices.0, self.vertices.1) },
            OrientedEdge { vertices: (self.vertices.1, self.vertices.2) },
            OrientedEdge { vertices: (self.vertices.2, self.vertices.0) },
        ]
    }

    pub fn to_oriented_edges(&self) -> (r: [OrientedEdge; 3])
        ensures
            r@ == self.spec_oriented_edges(),
    {
        let r = [
            OrientedEdge { vertices: (self.vertices.0, self.vertices.1) },
            OrientedEdge { vertices: (self.vertices.1, self.vertices.2) },
            OrientedEdge { vertices: (self.vertices.2, self.vertices.0) },
        ];
        proof {
            assert(r@ =~= self.spec_oriented_edges());
        }
        r
    }

    pub fn to_unoriented_edges(&self) -> (r: [UnorientedEdge; 3])
        ensures
            r@.len() == 3,
            forall|i: int| 0 <= i < 3 ==> r@[i].0 == self.spec_oriented_edges()[i],
    {
        let oriented = self.to_oriented_edges();
        let r = [
            UnorientedEdge(oriented[0]),
            UnorientedEdge(oriented[1]),
            UnorientedEdge(oriented[2]),
        ];
        r
    }

    /// Whether the face's winding walks the given oriented edge verbatim.
    pub open spec fn spec_contains_oriented_edge(self, e: OrientedEdge) -> bool {
        self.spec_oriented_edges().contains(e)
    }

    pub fn contains_oriented_edge(&self, e: OrientedEdge) -> (r: bool)
        ensures
            r == self.spec_contains_oriented_edge(e),
    {
        let edges = self.to_oriented_edges();
        let found = edges[0] == e || edges[1] == e || edges[2] == e;
        proof {
            if found {
                assert(self.spec_oriented_edges().contains(e));
            }
            if self.spec_oriented_edges().contains(e) {
                let i = choose|i: int| 0 <= i < 3 && self.spec_oriented_edges()[i] == e;
                assert(edges@[i] == e);
            }
        }
        found
    }

    /// Whether the face has the given undirected edge, in either direction.
    pub open spec fn spec_contains_unoriented_edge(self, e: UnorientedEdge) -> bool {
        exists|i: int|
            0 <= i < 3 && same_edge(UnorientedEdge(self.spec_oriented_edges()[i]), e)
    }

    pub fn contains_unoriented_edge(&self, e: UnorientedEdge) -> (r: bool)
        ensures
            r == self.spec_contains_unoriented_edge(e),
    {
        let edges = self.to_unoriented_edges();
        let found = edges[0].eq_edge(&e) || edges[1].eq_edge(&e) || edges[2].eq_edge(&e);
        proof {
            if found {
                if same_edge(edges@[0], e) {
                    assert(same_edge(UnorientedEdge(self.spec_oriented_edges()[0]), e));
                } else if same_edge(edges@[1], e) {
                    assert(same_edge(UnorientedEdge(self.spec_oriented_edges()[1]), e));
                } else {
                    assert(same_edge(UnorientedEdge(self.spec_oriented_edges()[2]), e));
                }
            }
            if self.spec_contains_unoriented_edge(e) {
                let i = choose|i: int|
                    0 <= i < 3 && same_edge(UnorientedEdge(self.spec_oriented_edges()[i]), e);
                assert(same_edge(edges@[i], e));
            }
        }
        found
    }

    /// Whether `other` walks the same vertex cycle in the opposite
    /// direction (reversal up to rotation).
    pub open spec fn spec_is_reverted(self, other: TriangleFace) -> bool {
        cyclically_equal(self.spec_reverted().vertices, other.vertices)
    }

    pub fn is_reverted(&self, other: TriangleFace) -> (r: bool)
        ensures
            r == self.spec_is_reverted(other),
    {
        let rev = (self.vertices.2, self.vertices.1, self.vertices.0);
        triples_cyclically_equal(rev, other.vertices)
    }
}

/// Whether two vertex triples denote the same cycle: equal up to rotation.
pub open spec fn cyclically_equal(a: (u32, u32, u32), b: (u32, u32, u32)) -> bool {
    b == a || b == (a.1, a.2, a.0) || b == (a.2, a.0, a.1)
}

pub fn triples_cyclically_equal(a: (u32, u32, u32), b: (u32, u32, u32)) -> (r: bool)
    ensures
        r == cyclically_equal(a, b),
{
    (b.0 == a.0 && b.1 == a.1 && b.2 == a.2) || (b.0 == a.1 && b.1 == a.2 && b.2 == a.0) || (b.0
        == a.2 && b.1 == a.0 && b.2 == a.1)
}

/// An edge with a direction: an ordered pair of vertex indices.
#[derive(Clone, Copy, Debug)]
pub struct OrientedEdge {
    pub vertices: (u32, u32),
}

impl OrientedEdge {
    pub fn new(a: u32, b: u32) -> (r: OrientedEdge)
        ensures
            r == (OrientedEdge { vertices: (a, b) }),
    {
        OrientedEdge { vertices: (a, b) }
    }

    pub open spec fn spec_reverted(self) -> OrientedEdge {
        OrientedEdge { vertices: (self.vertices.1, self.vertices.0) }
    }

    pub fn to_reverted(&self) -> (r: OrientedEdge)
        ensures
            r == self.spec_reverted(),
    {
        OrientedEdge { vertices: (self.vertices.1, self.vertices.0) }
    }

    pub fn contains_vertex(&self, v: u32) -> (r: bool)
        ensures
            r == (self.vertices.0 == v || self.vertices.1 == v),
    {
        self.vertices.0 == v || self.vertices.1 == v
    }
}

/// The direction-independent identity of an edge: two unoriented edges
/// are the same when their endpoints agree in either order.
#[derive(Clone, Copy, Debug)]
pub struct UnorientedEdge(pub OrientedEdge);

/// Equality of undirected edges: endpoint pairs agree in some order.
pub open spec fn same_edge(a: UnorientedEdge, b: UnorientedEdge) -> bool {
    a.0.vertices == b.0.vertices || (a.0.vertices.0 == b.0.vertices.1 && a.0.vertices.1
        == b.0.vertices.0)
}

impl UnorientedEdge {
    pub fn eq_edge(&self, other: &UnorientedEdge) -> (r: bool)
        ensures
            r == same_edge(*self, *other),
    {
        (self.0.vertices.0 == other.0.vertices.0 && self.0.vertices.1 == other.0.vertices.1) || (
        self.0.vertices.0 == other.0.vertices.1 && self.0.vertices.1 == other.0.vertices.0)
    }
}

impl PartialEq for UnorientedEdge {
    fn eq(&self, other: &UnorientedEdge) -> (r: bool) {
        self.eq_edge(other)
    }
}

impl vstd::std_specs::cmp::PartialEqSpecImpl for UnorientedEdge {
    open spec fn obeys_eq_spec() -> bool {
        true
    }

    open spec fn eq_spec(&self, other: &UnorientedEdge) -> bool {
        same_edge(*self, *other)
    }
}

/// Whether a face's three vertex indices lie below the vertex count.
pub open spec fn tri_vertices_in_bounds(f: TriangleFace, n: nat) -> bool {
    f.vertices.0 < n && f.vertices.1 < n && f.vertices.2 < n
}

/// Whether a face's normal indices, when present, lie below the normal
/// count.
pub open spec fn tri_normals_in_bounds(f: TriangleFace, n: nat) -> bool {
    match f.normals {
        Some(t) => t.0 < n && t.1 < n && t.2 < n,
        None => true,
    }
}

/// The mathematical content of a [`Geometry`]: three parallel sequences.
pub ghost struct GeometryView {
    pub faces: Seq<Face>,
    pub vertices: Seq<Point>,
    pub normals: Seq<Vector>,
}

impl GeometryView {
    /// A face is in bounds for this geometry.
    pub open spec fn face_ok(self, t: TriangleFace) -> bool {
        tri_vertices_in_bounds(t, self.vertices.len()) && tri_normals_in_bounds(
            t,
            self.normals.len(),
        )
    }

    /// Well-formedness: every face index is in bounds, every coordinate is
    /// within the kernel's cap, and the collections are u32-addressable.
    pub open spec fn wf(self) -> bool {
        &&& self.faces.len() <= u32::MAX
        &&& self.vertices.len() <= u32::MAX
        &&& self.normals.len() <= u32::MAX
        &&& forall|i: int|
            0 <= i < self.faces.len() ==> self.face_ok(face_triangle(#[trigger] self.faces[i]))
        &&& forall|i: int| 0 <= i < self.vertices.len() ==> (#[trigger] self.vertices[i]).bounded()
        &&& forall|i: int| 0 <= i < self.normals.len() ==> (#[trigger] self.normals[i]).bounded()
    }
}

/// An immutable container of vertices, optional normals and triangular
/// faces that reference them by index. Every constructor establishes the
/// well-formedness invariant [`GeometryView::wf`]; no operation ever
/// mutates a geometry in place.
#[derive(Debug)]
pub struct Geometry {
    faces: Vec<Face>,
    vertices: Vec<Point>,
    normals: Vec<Vector>,
}

impl View for Geometry {
    type V = GeometryView;

    closed spec fn view(&self) -> GeometryView {
        GeometryView { faces: self.faces@, vertices: self.vertices@, normals: self.normals@ }
    }
}

/// Copies a vector of plain values, element for element.
pub(crate) fn copy_vec<T: Copy>(v: &Vec<T>) -> (r: Vec<T>)
    ensures
        r@ == v@,
{
    let mut out: Vec<T> = Vec::new();
    let mut i: usize = 0;
    while i < v.len()
        invariant
            0 <= i <= v@.len(),
            out@ == v@.take(i as int),
        decreases v@.len() - i,
    {
        out.push(v[i]);
        proof {
            assert(out@ =~= v@.take(i + 1 as int));
        }
        i = i + 1;
    }
    proof {
        assert(v@.take(v@.len() as int) =~= v@);
    }
    out
}

impl Geometry {
    /// All geometries are well-formed, always.
    #[verifier::type_invariant]
    pub open spec fn inv(&self) -> bool {
        self@.wf()
    }

    /// Create a geometry from triangle faces and vertices alone. The
    /// faces must reference vertices in bounds and carry no normal
    /// indices, since there is no normal collection to point into.
    pub fn from_triangle_faces_with_vertices(faces: Vec<TriangleFace>, vertices: Vec<Point>) -> (r:
        Geometry)
        requires
            faces@.len() <= u32::MAX,
            vertices@.len() <= u32::MAX,
            forall|i: int|
                0 <= i < faces@.len() ==> tri_vertices_in_bounds(
                    #[trigger] faces@[i],
                    vertices@.len(),
                ) && faces@[i].normals is None,
            forall|i: int| 0 <= i < vertices@.len() ==> (#[trigger] vertices@[i]).bounded(),
        ensures
            r@.faces.len() == faces@.len(),
            forall|i: int|
                0 <= i < faces@.len() ==> #[trigger] r@.faces[i] == Face::Triangle(faces@[i]),
            r@.vertices == vertices@,
            r@.normals == Seq::<Vector>::empty(),
            r@.wf(),
    {
        let wrapped = faces_from_triangles(&faces);
        let r = Geometry { faces: wrapped, vertices, normals: Vec::new() };
        proof {
            assert(r@.wf());
        }
        r
    }

    /// Create a geometry from triangle faces, vertices and normals. Every
    /// face must reference vertices and normals in bounds, and must carry
    /// normal indices.
    pub fn from_triangle_faces_with_vertices_and_normals(
        faces: Vec<TriangleFace>,
        vertices: Vec<Point>,
        normals: Vec<Vector>,
    ) -> (r: Geometry)
        requires
            faces@.len() <= u32::MAX,
            vertices@.len() <= u32::MAX,
            normals@.len() <= u32::MAX,
            forall|i: int|
                0 <= i < faces@.len() ==> tri_vertices_in_bounds(
                    #[trigger] faces@[i],
                    vertices@.len(),
                ) && tri_normals_in_bounds(faces@[i], normals@.len()) && faces@[i].normals is Some,
            forall|i: int| 0 <= i < vertices@.len() ==> (#[trigger] vertices@[i]).bounded(),
            forall|i: int| 0 <= i < normals@.len() ==> (#[trigger] normals@[i]).bounded(),
        ensures
            r@.faces.len() == faces@.len(),
            forall|i: int|
                0 <= i < faces@.len() ==> #[trigger] r@.faces[i] == Face::Triangle(faces@[i]),
            r@.vertices == vertices@,
            r@.normals == normals@,
            r@.wf(),
    {
        let wrapped = faces_from_triangles(&faces);
        let r = Geometry { faces: wrapped, vertices, normals };
        proof {
            assert(r@.wf());
        }
        r
    }

    /// Create a geometry from already-wrapped faces, vertices and normals.
    pub fn from_faces_with_vertices_and_normals(
        faces: Vec<Face>,
        vertices: Vec<Point>,
        normals: Vec<Vector>,
    ) -> (r: Geometry)
        requires
            faces@.len() <= u32::MAX,
            vertices@.len() <= u32::MAX,
            normals@.len() <= u32::MAX,
            forall|i: int|
                0 <= i < faces@.len() ==> tri_vertices_in_bounds(
                    face_triangle(#[trigger] faces@[i]),
                    vertices@.len(),
                ) && tri_normals_in_bounds(face_triangle(faces@[i]), normals@.len()),
            forall|i: int| 0 <= i < vertices@.len() ==> (#[trigger] vertices@[i]).bounded(),
            forall|i: int| 0 <= i < normals@.len() ==> (#[trigger] normals@[i]).bounded(),
        ensures
            r@.faces == faces@,
            r@.vertices == vertices@,
            r@.normals == normals@,
            r@.wf(),
    {
        let r = Geometry { faces, vertices, normals };
        proof {
            assert(r@.wf());
        }
        r
    }

    /// A read-only view of the faces.
    pub fn faces(&self) -> (r: &Vec<Face>)
        ensures
            r@ == self@.faces,
            self@.wf(),
    {
        proof {
            use_type_invariant(self);
        }
        &self.faces
    }

    /// A read-only view of the vertices.
    pub fn vertices(&self) -> (r: &Vec<Point>)
        ensures
            r@ == self@.vertices,
            self@.wf(),
    {
        proof {
            use_type_invariant(self);
        }
        &self.vertices
    }

    /// A read-only view of the normals; empty when the geometry has none.
    pub fn normals(&self) -> (r: &Vec<Vector>)
        ensures
            r@ == self@.normals,
            self@.wf(),
    {
        proof {
            use_type_invariant(self);
        }
        &self.normals
    }

    /// The number of triangular faces. All faces are triangles today.
    pub fn triangle_faces_len(&self) -> (r: usize)
        ensures
            r == self@.faces.len(),
    {
        proof {
            use_type_invariant(self);
        }
        self.faces.len()
    }

    /// The triangles of all triangular faces, in face order.
    pub fn triangle_faces(&self) -> (r: Vec<TriangleFace>)
        ensures
            r@.len() == self@.faces.len(),
            forall|i: int|
                0 <= i < r@.len() ==> #[trigger] r@[i] == face_triangle(self@.faces[i]),
    {
        let mut out: Vec<TriangleFace> = Vec::new();
        let mut i: usize = 0;
        while i < self.faces.len()
            invariant
                0 <= i <= self@.faces.len(),
                out@.len() == i,
                forall|j: int|
                    0 <= j < i ==> #[trigger] out@[j] == face_triangle(self@.faces[j]),
            decreases self@.faces.len() - i,
        {
            let t = match self.faces[i] {
                Face::Triangle(t) => t,
            };
            out.push(t);
            i = i + 1;
        }
        out
    }
}

/// The full admissibility condition of the normal-free constructor.
pub open spec fn plain_input_valid(faces: Seq<TriangleFace>, vertices: Seq<Point>) -> bool {
    &&& faces.len() <= u32::MAX
    &&& vertices.len() <= u32::MAX
    &&& forall|i: int|
        0 <= i < faces.len() ==> (tri_vertices_in_bounds(#[trigger] faces[i], vertices.len())
            && faces[i].normals is None)
    &&& forall|i: int| 0 <= i < vertices.len() ==> (#[trigger] vertices[i]).bounded()
}

/// The full admissibility condition of the normal-bearing constructor.
pub open spec fn full_input_valid(
    faces: Seq<TriangleFace>,
    vertices: Seq<Point>,
    normals: Seq<Vector>,
) -> bool {
    &&& faces.len() <= u32::MAX
    &&& vertices.len() <= u32::MAX
    &&& normals.len() <= u32::MAX
    &&& forall|i: int|
        0 <= i < faces.len() ==> (tri_vertices_in_bounds(#[trigger] faces[i], vertices.len())
            && tri_normals_in_bounds(faces[i], normals.len()) && faces[i].normals is Some)
    &&& forall|i: int| 0 <= i < vertices.len() ==> (#[trigger] vertices[i]).bounded()
    &&& forall|i: int| 0 <= i < normals.len() ==> (#[trigger] normals[i]).bounded()
}

/// Whether every point of the vector is within the coordinate cap.
fn points_bounded(v: &Vec<Point>) -> (r: bool)
    ensures
        r == forall|i: int| 0 <= i < v@.len() ==> (#[trigger] v@[i]).bounded(),
{
    let mut i: usize = 0;
    while i < v.len()
        invariant
            0 <= i <= v@.len(),
            forall|j: int| 0 <= j < i ==> (#[trigger] v@[j]).bounded(),
        decreases v@.len() - i,
    {
        let p = v[i];
        if !(-COORD_LIMIT <= p.x && p.x <= COORD_LIMIT && -COORD_LIMIT <= p.y && p.y <= COORD_LIMIT
            && -COORD_LIMIT <= p.z && p.z <= COORD_LIMIT) {
            return false;
        }
        i = i + 1;
    }
    true
}

/// Whether every vector of the vector is within the coordinate cap.
fn vectors_bounded(v: &Vec<Vector>) -> (r: bool)
    ensures
        r == forall|i: int| 0 <= i < v@.len() ==> (#[trigger] v@[i]).bounded(),
{
    let mut i: usize = 0;
    while i < v.len()
        invariant
            0 <= i <= v@.len(),
            forall|j: int| 0 <= j < i ==> (#[trigger] v@[j]).bounded(),
        decreases v@.len() - i,
    {
        let p = v[i];
        if !(-COORD_LIMIT <= p.x && p.x <= COORD_LIMIT && -COORD_LIMIT <= p.y && p.y <= COORD_LIMIT
            && -COORD_LIMIT <= p.z && p.z <= COORD_LIMIT) {
            return false;
        }
        i = i + 1;
    }
    true
}

impl Geometry {
    /// The checked form of [`Geometry::from_triangle_faces_with_vertices`]:
    /// `Some` exactly on admissible inputs, `None` on every malformed one.
    pub fn try_from_triangle_faces_with_vertices(
        faces: Vec<TriangleFace>,
        vertices: Vec<Point>,
    ) -> (r: Option<Geometry>)
        ensures
            r is Some <==> plain_input_valid(faces@, vertices@),
            r matches Some(g) ==> {
                &&& g@.faces.len() == faces@.len()
                &&& forall|i: int|
                    0 <= i < faces@.len() ==> #[trigger] g@.faces[i] == Face::Triangle(faces@[i])
                &&& g@.vertices == vertices@
                &&& g@.normals == Seq::<Vector>::empty()
            },
    {
        if faces.len() > u32::MAX as usize || vertices.len() > u32::MAX as usize {
            return None;
        }
        if !points_bounded(&vertices) {
            return None;
        }
        let nv = vertices.len();
        let mut i: usize = 0;
        while i < faces.len()
            invariant
                0 <= i <= faces@.len(),
                nv == vertices@.len(),
                forall|j: int|
                    0 <= j < i ==> (tri_vertices_in_bounds(#[trigger] faces@[j], vertices@.len())
                        && faces@[j].normals is None),
            decreases faces@.len() - i,
        {
            let f = &faces[i];
            if !((f.vertices.0 as usize) < nv && (f.vertices.1 as usize) < nv && (f.vertices.2
                as usize) < nv && f.normals.is_none()) {
                return None;
            }
            i = i + 1;
        }
        Some(Geometry::from_triangle_faces_with_vertices(faces, vertices))
    }

    /// The checked form of
    /// [`Geometry::from_triangle_faces_with_vertices_and_normals`]:
    /// `Some` exactly on admissible inputs, `None` on every malformed one.
    pub fn try_from_triangle_faces_with_vertices_and_normals(
        faces: Vec<TriangleFace>,
        vertices: Vec<Point>,
        normals: Vec<Vector>,
    ) -> (r: Option<Geometry>)
        ensures
            r is Some <==> full_input_valid(faces@, vertices@, normals@),
            r matches Some(g) ==> {
                &&& g@.faces.len() == faces@.len()
                &&& forall|i: int|
                    0 <= i < faces@.len() ==> #[trigger] g@.faces[i] == Face::Triangle(faces@[i])
                &&& g@.vertices == vertices@
                &&& g@.normals == normals@
            },
    {
        if faces.len() > u32::MAX as usize || vertices.len() > u32::MAX as usize || normals.len()
            > u32::MAX as usize {
            return None;
        }
        if !points_bounded(&vertices) {
            return None;
        }
        if !vectors_bounded(&normals) {
            return None;
        }
        let nv = vertices.len();
        let nn = normals.len();
        let mut i: usize = 0;
        while i < faces.len()
            invariant
                0 <= i <= faces@.len(),
                nv == vertices@.len(),
                nn == normals@.len(),
                forall|j: int|
                    0 <= j < i ==> (tri_vertices_in_bounds(#[trigger] faces@[j], vertices@.len())
                        && tri_normals_in_bounds(faces@[j], normals@.len()) && faces@[j].normals
                        is Some),
            decreases faces@.len() - i,
        {
            let f = &faces[i];
            if !((f.vertices.0 as usize) < nv && (f.vertices.1 as usize) < nv && (f.vertices.2
                as usize) < nv) {
                return None;
            }
            match f.normals {
                Some(n) => {
                    if !((n.0 as usize) < nn && (n.1 as usize) < nn && (n.2 as usize) < nn) {
                        return None;
                    }
                },
                None => {
                    return None;
                },
            }
            i = i + 1;
        }
        Some(Geometry::from_triangle_faces_with_vertices_and_normals(faces, vertices, normals))
    }

    /// The oriented edge `k` of the geometry: edge `k % 3` of face `k / 3`.
    pub open spec fn oriented_edge_at(self_view: GeometryView, k: int) -> OrientedEdge {
        face_triangle(self_view.faces[k / 3]).spec_oriented_edges()[k % 3]
    }

    /// All oriented edges, three per face, in face order.
    pub fn oriented_edges(&self) -> (r: Vec<OrientedEdge>)
        ensures
            r@.len() == 3 * self@.faces.len(),
            forall|k: int|
                0 <= k < r@.len() ==> #[trigger] r@[k] == Geometry::oriented_edge_at(self@, k),
    {
        let mut out: Vec<OrientedEdge> = Vec::new();
        let mut i: usize = 0;
        while i < self.faces.len()
            invariant
                0 <= i <= self@.faces.len(),
                out@.len() == 3 * i,
                forall|k: int|
                    0 <= k < out@.len() ==> #[trigger] out@[k] == Geometry::oriented_edge_at(
                        self@,
                        k,
                    ),
            decreases self@.faces.len() - i,
        {
            let t = match self.faces[i] {
                Face::Triangle(t) => t,
            };
            let edges = t.to_oriented_edges();
            out.push(edges[0]);
            out.push(edges[1]);
            out.push(edges[2]);
            proof {
                assert forall|k: int| 0 <= k < out@.len() implies #[trigger] out@[k]
                    == Geometry::oriented_edge_at(self@, k) by {
                    if k >= 3 * i {
                        assert(k / 3 == i && (k % 3 == 0 || k % 3 == 1 || k % 3 == 2));
                    }
                }
            }
            i = i + 1;
        }
        out
    }

    /// All unoriented edges, three per face, in face order.
    pub fn unoriented_edges(&self) -> (r: Vec<UnorientedEdge>)
        ensures
            r@.len() == 3 * self@.faces.len(),
            forall|k: int|
                0 <= k < r@.len() ==> (#[trigger] r@[k]).0 == Geometry::oriented_edge_at(self@, k),
    {
        let oriented = self.oriented_edges();
        let mut out: Vec<UnorientedEdge> = Vec::new();
        let mut i: usize = 0;
        while i < oriented.len()
            invariant
                0 <= i <= oriented@.len(),
                out@.len() == i,
                oriented@.len() == 3 * self@.faces.len(),
                forall|k: int|
                    0 <= k < oriented@.len() ==> #[trigger] oriented@[k]
                        == Geometry::oriented_edge_at(self@, k),
                forall|k: int|
                    0 <= k < i ==> (#[trigger] out@[k]).0 == Geometry::oriented_edge_at(self@, k),
            decreases oriented@.len() - i,
        {
            out.push(UnorientedEdge(oriented[i]));
            i = i + 1;
        }
        out
    }
}

/// Whether the triangle references vertex `v` at any corner.
pub open spec fn face_uses_vertex(t: TriangleFace, v: int) -> bool {
    t.vertices.0 == v || t.vertices.1 == v || t.vertices.2 == v
}

/// Whether the triangle references normal `n` at any corner.
pub open spec fn face_uses_normal(t: TriangleFace, n: int) -> bool {
    match t.normals {
        Some(ns) => ns.0 == n || ns.1 == n || ns.2 == n,
        None => false,
    }
}

/// Whether any of the first `k` faces references vertex `v`.
pub open spec fn vertex_referenced_upto(faces: Seq<Face>, k: int, v: int) -> bool {
    exists|i: int| 0 <= i < k && face_uses_vertex(face_triangle(#[trigger] faces[i]), v)
}

/// Whether any face references vertex `v`.
pub open spec fn vertex_referenced(faces: Seq<Face>, v: int) -> bool {
    vertex_referenced_upto(faces, faces.len() as int, v)
}

/// Whether any of the first `k` faces references normal `n`.
pub open spec fn normal_referenced_upto(faces: Seq<Face>, k: int, n: int) -> bool {
    exists|i: int| 0 <= i < k && face_uses_normal(face_triangle(#[trigger] faces[i]), n)
}

/// Whether any face references normal `n`.
pub open spec fn normal_referenced(faces: Seq<Face>, n: int) -> bool {
    normal_referenced_upto(faces, faces.len() as int, n)
}

/// How many of the vertices `0 .. v` are referenced by some face: the new
/// index that vertex `v` receives when orphans are removed.
pub open spec fn vertex_rank(faces: Seq<Face>, v: int) -> nat
    decreases v,
{
    if v <= 0 {
        0
    } else {
        vertex_rank(faces, v - 1) + if vertex_referenced(faces, v - 1) {
            1nat
        } else {
            0nat
        }
    }
}

/// How many of the normals `0 .. n` are referenced by some face.
pub open spec fn normal_rank(faces: Seq<Face>, n: int) -> nat
    decreases n,
{
    if n <= 0 {
        0
    } else {
        normal_rank(faces, n - 1) + if normal_referenced(faces, n - 1) {
            1nat
        } else {
            0nat
        }
    }
}

/// A face with all indices replaced by their orphan-removal ranks.
pub open spec fn remap_face(faces: Seq<Face>, t: TriangleFace) -> TriangleFace {
    TriangleFace {
        vertices: (
            vertex_rank(faces, t.vertices.0 as int) as u32,
            vertex_rank(faces, t.vertices.1 as int) as u32,
            vertex_rank(faces, t.vertices.2 as int) as u32,
        ),
        normals: match t.normals {
            Some(ns) => Some(
                (
                    normal_rank(faces, ns.0 as int) as u32,
                    normal_rank(faces, ns.1 as int) as u32,
                    normal_rank(faces, ns.2 as int) as u32,
                ),
            ),
            None => None,
        },
    }
}

pub proof fn lemma_vertex_rank_le(faces: Seq<Face>, v: int)
    requires
        v >= 0,
    ensures
        vertex_rank(faces, v) <= v,
    decreases v,
{
    if v > 0 {
        lemma_vertex_rank_le(faces, v - 1);
    }
}

pub proof fn lemma_normal_rank_le(faces: Seq<Face>, n: int)
    requires
        n >= 0,
    ensures
        normal_rank(faces, n) <= n,
    decreases n,
{
    if n > 0 {
        lemma_normal_rank_le(faces, n - 1);
    }
}

/// A referenced vertex's rank is strictly below the rank of any larger
/// bound: its slot in the compacted vertex list exists.
pub proof fn lemma_vertex_rank_lt(faces: Seq<Face>, v: int, n: int)
    requires
        0 <= v < n,
        vertex_referenced(faces, v),
    ensures
        vertex_rank(faces, v) < vertex_rank(faces, n),
    decreases n,
{
    if v == n - 1 {
    } else {
        lemma_vertex_rank_lt(faces, v, n - 1);
    }
}

/// Every slot below the final rank is the rank of some referenced
/// vertex: the compacted list has no unreferenced entries.
pub proof fn lemma_vertex_rank_surjective(faces: Seq<Face>, p: int, n: int)
    requires
        n >= 0,
        0 <= p < vertex_rank(faces, n),
    ensures
        exists|v: int|
            0 <= v < n && #[trigger] vertex_rank(faces, v) == p && vertex_referenced(faces, v),
    decreases n,
{
    if p < vertex_rank(faces, n - 1) {
        lemma_vertex_rank_surjective(faces, p, n - 1);
    } else {
        assert(vertex_rank(faces, n - 1) == p && vertex_referenced(faces, n - 1));
    }
}

/// Every slot below the final rank is the rank of some referenced
/// normal.
pub proof fn lemma_normal_rank_surjective(faces: Seq<Face>, p: int, n: int)
    requires
        n >= 0,
        0 <= p < normal_rank(faces, n),
    ensures
        exists|v: int|
            0 <= v < n && #[trigger] normal_rank(faces, v) == p && normal_referenced(faces, v),
    decreases n,
{
    if p < normal_rank(faces, n - 1) {
        lemma_normal_rank_surjective(faces, p, n - 1);
    } else {
        assert(normal_rank(faces, n - 1) == p && normal_referenced(faces, n - 1));
    }
}

pub proof fn lemma_normal_rank_lt(faces: Seq<Face>, v: int, n: int)
    requires
        0 <= v < n,
        normal_referenced(faces, v),
    ensures
        normal_rank(faces, v) < normal_rank(faces, n),
    decreases n,
{
    if v == n - 1 {
    } else {
        lemma_normal_rank_lt(faces, v, n - 1);
    }
}

impl Geometry {
    /// As [`Geometry::from_faces_with_vertices_and_normals`], but discards
    /// every vertex and normal no face references and remaps all face
    /// indices accordingly: surviving vertex `v` moves to slot
    /// `vertex_rank(faces, v)`, and likewise for normals.
    #[verifier::loop_isolation(false)]
    pub fn from_faces_with_vertices_and_normals_remove_orphans(
        faces: Vec<Face>,
        vertices: Vec<Point>,
        normals: Vec<Vector>,
    ) -> (r: Geometry)
        requires
            faces@.len() <= u32::MAX,
            vertices@.len() <= u32::MAX,
            normals@.len() <= u32::MAX,
            forall|i: int|
                0 <= i < faces@.len() ==> tri_vertices_in_bounds(
                    face_triangle(#[trigger] faces@[i]),
                    vertices@.len(),
                ) && tri_normals_in_bounds(face_triangle(faces@[i]), normals@.len()),
            forall|i: int| 0 <= i < vertices@.len() ==> (#[trigger] vertices@[i]).bounded(),
            forall|i: int| 0 <= i < normals@.len() ==> (#[trigger] normals@[i]).bounded(),
        ensures
            r@.faces.len() == faces@.len(),
            forall|i: int|
                0 <= i < faces@.len() ==> #[trigger] r@.faces[i] == Face::Triangle(
                    remap_face(faces@, face_triangle(faces@[i])),
                ),
            r@.vertices.len() == vertex_rank(faces@, vertices@.len() as int),
            forall|v: int|
                0 <= v < vertices@.len() && vertex_referenced(faces@, v)
                    ==> #[trigger] r@.vertices[vertex_rank(faces@, v) as int] == vertices@[v],
            r@.normals.len() == normal_rank(faces@, normals@.len() as int),
            forall|n: int|
                0 <= n < normals@.len() && normal_referenced(faces@, n)
                    ==> #[trigger] r@.normals[normal_rank(faces@, n) as int] == normals@[n],
            forall|p: int| 0 <= p < r@.vertices.len() ==> vertex_referenced(r@.faces, p),
            forall|p: int| 0 <= p < r@.normals.len() ==> normal_referenced(r@.faces, p),
            r@.wf(),
    {
        let nv = vertices.len();
        let nn = normals.len();

        // Mark which vertices and normals some face still references.
        let mut used_v: Vec<bool> = Vec::new();
        let mut i: usize = 0;
        while i < nv
            invariant
                used_v@.len() == i <= nv,
                forall|j: int| 0 <= j < i ==> !(#[trigger] used_v@[j]),
            decreases nv - i,
        {
            used_v.push(false);
            i = i + 1;
        }
        let mut used_n: Vec<bool> = Vec::new();
        let mut i: usize = 0;
        while i < nn
            invariant
                used_n@.len() == i <= nn,
                forall|j: int| 0 <= j < i ==> !(#[trigger] used_n@[j]),
            decreases nn - i,
        {
            used_n.push(false);
            i = i + 1;
        }

        let mut k: usize = 0;
        while k < faces.len()
            invariant
                0 <= k <= faces@.len(),
                used_v@.len() == nv == vertices@.len(),
                used_n@.len() == nn == normals@.len(),
                forall|i: int|
                    0 <= i < faces@.len() ==> tri_vertices_in_bounds(
                        face_triangle(#[trigger] faces@[i]),
                        vertices@.len(),
                    ) && tri_normals_in_bounds(face_triangle(faces@[i]), normals@.len()),
                forall|v: int|
                    0 <= v < nv ==> #[trigger] used_v@[v] == vertex_referenced_upto(
                        faces@,
                        k as int,
                        v,
                    ),
                forall|n: int|
                    0 <= n < nn ==> #[trigger] used_n@[n] == normal_referenced_upto(
                        faces@,
                        k as int,
                        n,
                    ),
            decreases faces@.len() - k,
        {
            let t = match faces[k] {
                Face::Triangle(t) => t,
            };
            let ghost prev_v = used_v@;
            let ghost prev_n = used_n@;
            used_v[t.vertices.0 as usize] = true;
            used_v[t.vertices.1 as usize] = true;
            used_v[t.vertices.2 as usize] = true;
            match t.normals {
                Some(ns) => {
                    used_n[ns.0 as usize] = true;
                    used_n[ns.1 as usize] = true;
                    used_n[ns.2 as usize] = true;
                },
                None => {},
            }
            proof {
                assert forall|v: int| 0 <= v < nv implies #[trigger] used_v@[v]
                    == vertex_referenced_upto(faces@, k + 1, v) by {
                    if used_v@[v] {
                        if prev_v[v] {
                            let i = choose|i: int|
                                0 <= i < k && face_uses_vertex(
                                    face_triangle(#[trigger] faces@[i]),
                                    v,
                                );
                            assert(face_uses_vertex(face_triangle(faces@[i]), v));
                        } else {
                            assert(face_uses_vertex(face_triangle(faces@[k as int]), v));
                        }
                    } else {
                        assert(!vertex_referenced_upto(faces@, k as int, v));
                        assert(!face_uses_vertex(face_triangle(faces@[k as int]), v));
                        if vertex_referenced_upto(faces@, k + 1, v) {
                            let i = choose|i: int|
                                0 <= i < k + 1 && face_uses_vertex(
                                    face_triangle(#[trigger] faces@[i]),
                                    v,
                                );
                            assert(i == k || i < k);
                            assert(false);
                        }
                    }
                }
                assert forall|n: int| 0 <= n < nn implies #[trigger] used_n@[n]
                    == normal_referenced_upto(faces@, k + 1, n) by {
                    if used_n@[n] {
                        if prev_n[n] {
                            let i = choose|i: int|
                                0 <= i < k && face_uses_normal(
                                    face_triangle(#[trigger] faces@[i]),
                                    n,
                                );
                            assert(face_uses_normal(face_triangle(faces@[i]), n));
                        } else {
                            assert(face_uses_normal(face_triangle(faces@[k as int]), n));
                        }
                    } else {
                        assert(!normal_referenced_upto(faces@, k as int, n));
                        assert(!face_uses_normal(face_triangle(faces@[k as int]), n));
                        if normal_referenced_upto(faces@, k + 1, n) {
                            let i = choose|i: int|
                                0 <= i < k + 1 && face_uses_normal(
                                    face_triangle(#[trigger] faces@[i]),
                                    n,
                                );
                            assert(i == k || i < k);
                            assert(false);
                        }
                    }
                }
            }
            k = k + 1;
        }

        // Compact the vertex and normal lists, recording each old index's
        // new slot.
        let mut remap_v: Vec<u32> = Vec::new();
        let mut new_vertices: Vec<Point> = Vec::new();
        let mut v: usize = 0;
        while v < nv
            invariant
                0 <= v <= nv,
                nv == vertices@.len() <= u32::MAX,
                used_v@.len() == nv,
                forall|w: int|
                    0 <= w < nv ==> #[trigger] used_v@[w] == vertex_referenced(faces@, w),
                remap_v@.len() == v,
                new_vertices@.len() == vertex_rank(faces@, v as int),
                forall|w: int|
                    0 <= w < v ==> #[trigger] remap_v@[w] == vertex_rank(faces@, w) as u32,
                forall|w: int|
                    0 <= w < v && vertex_referenced(faces@, w) ==> #[trigger] new_vertices@[
                        vertex_rank(faces@, w) as int
                    ] == vertices@[w],
                forall|p: int|
                    0 <= p < new_vertices@.len() ==> (#[trigger] new_vertices@[p]).bounded(),
            decreases nv - v,
        {
            proof {
                lemma_vertex_rank_le(faces@, v as int);
            }
            remap_v.push(new_vertices.len() as u32);
            if used_v[v] {
                new_vertices.push(vertices[v]);
            }
            proof {
                let vv = v as int;
                assert(vertex_rank(faces@, vv + 1) == vertex_rank(faces@, vv) + if
                    vertex_referenced(faces@, vv) {
                    1nat
                } else {
                    0nat
                });
                assert(remap_v@[vv] == vertex_rank(faces@, vv) as u32);
                assert forall|w: int| 0 <= w <= vv && vertex_referenced(faces@, w) implies
                    #[trigger] new_vertices@[vertex_rank(faces@, w) as int] == vertices@[w] by {
                    if w < vv {
                        lemma_vertex_rank_lt(faces@, w, vv);
                    }
                }
            }
            v = v + 1;
        }
        proof {
            assert(vertices@.take(nv as int) =~= vertices@);
        }

        let mut remap_n: Vec<u32> = Vec::new();
        let mut new_normals: Vec<Vector> = Vec::new();
        let mut n: usize = 0;
        while n < nn
            invariant
                0 <= n <= nn,
                nn == normals@.len() <= u32::MAX,
                used_n@.len() == nn,
                forall|w: int|
                    0 <= w < nn ==> #[trigger] used_n@[w] == normal_referenced(faces@, w),
                remap_n@.len() == n,
                new_normals@.len() == normal_rank(faces@, n as int),
                forall|w: int|
                    0 <= w < n ==> #[trigger] remap_n@[w] == normal_rank(faces@, w) as u32,
                forall|w: int|
                    0 <= w < n && normal_referenced(faces@, w) ==> #[trigger] new_normals@[
                        normal_rank(faces@, w) as int
                    ] == normals@[w],
                forall|p: int|
                    0 <= p < new_normals@.len() ==> (#[trigger] new_normals@[p]).bounded(),
            decreases nn - n,
        {
            proof {
                lemma_normal_rank_le(faces@, n as int);
            }
            remap_n.push(new_normals.len() as u32);
            if used_n[n] {
                new_normals.push(normals[n]);
            }
            proof {
                let wn = n as int;
                assert(normal_rank(faces@, wn + 1) == normal_rank(faces@, wn) + if
                    normal_referenced(faces@, wn) {
                    1nat
                } else {
                    0nat
                });
                assert(remap_n@[wn] == normal_rank(faces@, wn) as u32);
                assert forall|w: int| 0 <= w <= wn && normal_referenced(faces@, w) implies
                    #[trigger] new_normals@[normal_rank(faces@, w) as int] == normals@[w] by {
                    if w < wn {
                        lemma_normal_rank_lt(faces@, w, wn);
                    }
                }
            }
            n = n + 1;
        }

        // Rewrite every face through the remap tables.
        let mut new_faces: Vec<Face> = Vec::new();
        let mut k: usize = 0;
        while k < faces.len()
            invariant
                0 <= k <= faces@.len(),
                nv == vertices@.len(),
                nn == normals@.len(),
                remap_v@.len() == nv,
                remap_n@.len() == nn,
                forall|i: int|
                    0 <= i < faces@.len() ==> tri_vertices_in_bounds(
                        face_triangle(#[trigger] faces@[i]),
                        vertices@.len(),
                    ) && tri_normals_in_bounds(face_triangle(faces@[i]), normals@.len()),
                forall|w: int|
                    0 <= w < nv ==> #[trigger] remap_v@[w] == vertex_rank(faces@, w) as u32,
                forall|w: int|
                    0 <= w < nn ==> #[trigger] remap_n@[w] == normal_rank(faces@, w) as u32,
                new_faces@.len() == k,
                forall|i: int|
                    0 <= i < k ==> #[trigger] new_faces@[i] == Face::Triangle(
                        remap_face(faces@, face_triangle(faces@[i])),
                    ),
            decreases faces@.len() - k,
        {
            let t = match faces[k] {
                Face::Triangle(t) => t,
            };
            let mapped_normals = match t.normals {
                Some(ns) => Some(
                    (
                        remap_n[ns.0 as usize],
                        remap_n[ns.1 as usize],
                        remap_n[ns.2 as usize],
                    ),
                ),
                None => None,
            };
            let mapped = TriangleFace {
                vertices: (
                    remap_v[t.vertices.0 as usize],
                    remap_v[t.vertices.1 as usize],
                    remap_v[t.vertices.2 as usize],
                ),
                normals: mapped_normals,
            };
            new_faces.push(Face::Triangle(mapped));
            k = k + 1;
        }

        proof {
            lemma_vertex_rank_le(faces@, nv as int);
            lemma_normal_rank_le(faces@, nn as int);
            assert forall|i: int| 0 <= i < new_faces@.len() implies tri_vertices_in_bounds(
                face_triangle(#[trigger] new_faces@[i]),
                new_vertices@.len(),
            ) && tri_normals_in_bounds(face_triangle(new_faces@[i]), new_normals@.len()) by {
                let t = face_triangle(faces@[i]);
                assert(face_uses_vertex(t, t.vertices.0 as int));
                assert(face_uses_vertex(t, t.vertices.1 as int));
                assert(face_uses_vertex(t, t.vertices.2 as int));
                lemma_vertex_rank_lt(faces@, t.vertices.0 as int, nv as int);
                lemma_vertex_rank_lt(faces@, t.vertices.1 as int, nv as int);
                lemma_vertex_rank_lt(faces@, t.vertices.2 as int, nv as int);
                lemma_vertex_rank_le(faces@, t.vertices.0 as int);
                lemma_vertex_rank_le(faces@, t.vertices.1 as int);
                lemma_vertex_rank_le(faces@, t.vertices.2 as int);
                match t.normals {
                    Some(ns) => {
                        assert(face_uses_normal(t, ns.0 as int));
                        assert(face_uses_normal(t, ns.1 as int));
                        assert(face_uses_normal(t, ns.2 as int));
                        lemma_normal_rank_lt(faces@, ns.0 as int, nn as int);
                        lemma_normal_rank_lt(faces@, ns.1 as int, nn as int);
                        lemma_normal_rank_lt(faces@, ns.2 as int, nn as int);
                        lemma_normal_rank_le(faces@, ns.0 as int);
                        lemma_normal_rank_le(faces@, ns.1 as int);
                        lemma_normal_rank_le(faces@, ns.2 as int);
                    },
                    None => {},
                }
            }
        }
        let r = Geometry { faces: new_faces, vertices: new_vertices, normals: new_normals };
        proof {
            assert(r@.wf());
            assert forall|p: int| 0 <= p < r@.vertices.len() implies vertex_referenced(
                r@.faces,
                p,
            ) by {
                lemma_vertex_rank_surjective(faces@, p, nv as int);
                let v = choose|v: int|
                    0 <= v < nv && #[trigger] vertex_rank(faces@, v) == p && vertex_referenced(
                        faces@,
                        v,
                    );
                let i = choose|i: int|
                    0 <= i < faces@.len() && face_uses_vertex(
                        face_triangle(#[trigger] faces@[i]),
                        v,
                    );
                let t = face_triangle(faces@[i]);
                assert(r@.faces[i] == Face::Triangle(remap_face(faces@, t)));
                assert(face_uses_vertex(face_triangle(r@.faces[i]), p)) by {
                    lemma_vertex_rank_le(faces@, t.vertices.0 as int);
                    lemma_vertex_rank_le(faces@, t.vertices.1 as int);
                    lemma_vertex_rank_le(faces@, t.vertices.2 as int);
                }
                assert(vertex_referenced(r@.faces, p));
            }
            assert forall|p: int| 0 <= p < r@.normals.len() implies normal_referenced(
                r@.faces,
                p,
            ) by {
                lemma_normal_rank_surjective(faces@, p, nn as int);
                let v = choose|v: int|
                    0 <= v < nn && #[trigger] normal_rank(faces@, v) == p && normal_referenced(
                        faces@,
                        v,
                    );
                let i = choose|i: int|
                    0 <= i < faces@.len() && face_uses_normal(
                        face_triangle(#[trigger] faces@[i]),
                        v,
                    );
                let t = face_triangle(faces@[i]);
                assert(r@.faces[i] == Face::Triangle(remap_face(faces@, t)));
                assert(face_uses_normal(face_triangle(r@.faces[i]), p)) by {
                    match t.normals {
                        Some(ns) => {
                            lemma_normal_rank_le(faces@, ns.0 as int);
                            lemma_normal_rank_le(faces@, ns.1 as int);
                            lemma_normal_rank_le(faces@, ns.2 as int);
                        },
                        None => {},
                    }
                }
                assert(normal_referenced(r@.faces, p));
            }
        }
        r
    }
}

/// A face with its indices looked up: the corner positions and, when
/// present, the corner normals it denotes.
pub ghost struct ResolvedFace {
    pub positions: (Point, Point, Point),
    pub normals: Option<(Vector, Vector, Vector)>,
}

/// Face `i` of the geometry with every index replaced by the value it
/// points at.
pub open spec fn resolved_face(gv: GeometryView, i: int) -> ResolvedFace {
    let t = face_triangle(gv.faces[i]);
    ResolvedFace {
        positions: (
            gv.vertices[t.vertices.0 as int],
            gv.vertices[t.vertices.1 as int],
            gv.vertices[t.vertices.2 as int],
        ),
        normals: match t.normals {
            Some(n) => Some(
                (
                    gv.normals[n.0 as int],
                    gv.normals[n.1 as int],
                    gv.normals[n.2 as int],
                ),
            ),
            None => None,
        },
    }
}

/// Elementwise equality of the three collections of two geometries.
fn geometry_content_eq(a: &Geometry, b: &Geometry) -> (r: bool)
    ensures
        r == (a@ == b@),
{
    proof {
        use_type_invariant(a);
        use_type_invariant(b);
    }
    let a_faces = a.faces();
    let b_faces = b.faces();
    let a_vertices = a.vertices();
    let b_vertices = b.vertices();
    let a_normals = a.normals();
    let b_normals = b.normals();
    if a_faces.len() != b_faces.len() || a_vertices.len() != b_vertices.len() || a_normals.len()
        != b_normals.len() {
        return false;
    }
    let mut i: usize = 0;
    while i < a_faces.len()
        invariant
            0 <= i <= a@.faces.len(),
            a@.faces.len() == b@.faces.len(),
            a_faces@ == a@.faces,
            b_faces@ == b@.faces,
            forall|j: int| 0 <= j < i ==> a@.faces[j] == b@.faces[j],
        decreases a@.faces.len() - i,
    {
        if !(a_faces[i] == b_faces[i]) {
            return false;
        }
        i = i + 1;
    }
    let mut i: usize = 0;
    while i < a_vertices.len()
        invariant
            0 <= i <= a@.vertices.len(),
            a@.vertices.len() == b@.vertices.len(),
            a_vertices@ == a@.vertices,
            b_vertices@ == b@.vertices,
            forall|j: int| 0 <= j < i ==> a@.vertices[j] == b@.vertices[j],
        decreases a@.vertices.len() - i,
    {
        if !(a_vertices[i] == b_vertices[i]) {
            return false;
        }
        i = i + 1;
    }
    let mut i: usize = 0;
    while i < a_normals.len()
        invariant
            0 <= i <= a@.normals.len(),
            a@.normals.len() == b@.normals.len(),
            a_normals@ == a@.normals,
            b_normals@ == b@.normals,
            forall|j: int| 0 <= j < i ==> a@.normals[j] == b@.normals[j],
        decreases a@.normals.len() - i,
    {
        if !(a_normals[i] == b_normals[i]) {
            return false;
        }
        i = i + 1;
    }
    proof {
        assert(a@.faces =~= b@.faces);
        assert(a@.vertices =~= b@.vertices);
        assert(a@.normals =~= b@.normals);
    }
    true
}

impl PartialEq for Geometry {
    fn eq(&self, other: &Geometry) -> (r: bool) {
        geometry_content_eq(self, other)
    }
}

impl vstd::std_specs::cmp::PartialEqSpecImpl for Geometry {
    open spec fn obeys_eq_spec() -> bool {
        true
    }

    open spec fn eq_spec(&self, other: &Geometry) -> bool {
        self@ == other@
    }
}

/// Wraps each triangle in the [`Face`] enum, keeping order.
fn faces_from_triangles(tris: &Vec<TriangleFace>) -> (r: Vec<Face>)
    ensures
        r@.len() == tris@.len(),
        forall|i: int| 0 <= i < tris@.len() ==> #[trigger] r@[i] == Face::Triangle(tris@[i]),
{
    let mut out: Vec<Face> = Vec::new();
    let mut i: usize = 0;
    while i < tris.len()
        invariant
            0 <= i <= tris@.len(),
            out@.len() == i,
            forall|j: int| 0 <= j < i ==> #[trigger] out@[j] == Face::Triangle(tris@[j]),
        decreases tris@.len() - i,
    {
        out.push(Face::Triangle(tris[i]));
        i = i + 1;
    }
    out
}

impl Clone for Geometry {
    /// An exact copy: the clone has the same view.
    fn clone(&self) -> (r: Geometry)
        ensures
            r@ == self@,
    {
        proof {
            use_type_invariant(self);
        }
        Geometry {
            faces: copy_vec(&self.faces),
            vertices: copy_vec(&self.vertices),
            normals: copy_vec(&self.normals),
        }
    }
}

impl PartialEq for Point {
    fn eq(&self, other: &Point) -> (r: bool) {
        self.x == other.x && self.y == other.y && self.z == other.z
    }
}

impl vstd::std_specs::cmp::PartialEqSpecImpl for Point {
    open spec fn obeys_eq_spec() -> bool {
        true
    }

    open spec fn eq_spec(&self, other: &Point) -> bool {
        *self == *other
    }
}

impl PartialEq for Vector {
    fn eq(&self, other: &Vector) -> (r: bool) {
        self.x == other.x && self.y == other.y && self.z == other.z
    }
}

impl vstd::std_specs::cmp::PartialEqSpecImpl for Vector {
    open spec fn obeys_eq_spec() -> bool {
        true
    }

    open spec fn eq_spec(&self, other: &Vector) -> bool {
        *self == *other
    }
}

impl PartialEq for OrientedEdge {
    fn eq(&self, other: &OrientedEdge) -> (r: bool) {
        self.vertices.0 == other.vertices.0 && self.vertices.1 == other.vertices.1
    }
}

impl vstd::std_specs::cmp::PartialEqSpecImpl for OrientedEdge {
    open spec fn obeys_eq_spec() -> bool {
        true
    }

    open spec fn eq_spec(&self, other: &OrientedEdge) -> bool {
        *self == *other
    }
}

impl PartialEq for TriangleFace {
    fn eq(&self, other: &TriangleFace) -> (r: bool) {
        let verts = self.vertices.0 == other.vertices.0 && self.vertices.1 == other.vertices.1
            && self.vertices.2 == other.vertices.2;
        let norms = match (self.normals, other.normals) {
            (Some(a), Some(b)) => a.0 == b.0 && a.1 == b.1 && a.2 == b.2,
            (None, None) => true,
            _ => false,
        };
        verts && norms
    }
}

impl vstd::std_specs::cmp::PartialEqSpecImpl for TriangleFace {
    open spec fn obeys_eq_spec() -> bool {
        true
    }

    open spec fn eq_spec(&self, other: &TriangleFace) -> bool {
        *self == *other
    }
}

impl PartialEq for Face {
    fn eq(&self, other: &Face) -> (r: bool) {
        match (self, other) {
            (Face::Triangle(a), Face::Triangle(b)) => a == b,
        }
    }
}

impl vstd::std_specs::cmp::PartialEqSpecImpl for Face {
    open spec fn obeys_eq_spec() -> bool {
        true
    }

    open spec fn eq_spec(&self, other: &Face) -> bool {
        *self == *other
    }
}


/// A template corner scaled and translated: `scale * (x, y, z) +
/// position`.
pub open spec fn v_spec(x: int, y: int, z: int, position: [i64; 3], scale: i64) -> Point {
    Point {
        x: (scale * x + position[0]) as i64,
        y: (scale * y + position[1]) as i64,
        z: (scale * z + position[2]) as i64,
    }
}

/// Inputs under which the primitive builders stay within the coordinate
/// cap: the scale and every translation component at most half the cap.
pub open spec fn builder_input_ok(position: [i64; 3], scale: i64) -> bool {
    &&& 0 <= scale <= COORD_LIMIT / 2
    &&& -COORD_LIMIT / 2 <= position[0] <= COORD_LIMIT / 2
    &&& -COORD_LIMIT / 2 <= position[1] <= COORD_LIMIT / 2
    &&& -COORD_LIMIT / 2 <= position[2] <= COORD_LIMIT / 2
}

/// A scaled, translated template corner.
fn v(x: i64, y: i64, z: i64, translation: [i64; 3], scale: i64) -> (r: Point)
    requires
        -1 <= x <= 1,
        -1 <= y <= 1,
        -1 <= z <= 1,
        builder_input_ok(translation, scale),
    ensures
        r == v_spec(x as int, y as int, z as int, translation, scale),
        r.bounded(),
{
    proof {
        assert(-(COORD_LIMIT / 2) <= scale * x <= COORD_LIMIT / 2 && -(COORD_LIMIT / 2) <= scale
            * y <= COORD_LIMIT / 2 && -(COORD_LIMIT / 2) <= scale * z <= COORD_LIMIT / 2)
            by (nonlinear_arith)
            requires
                -1 <= x <= 1,
                -1 <= y <= 1,
                -1 <= z <= 1,
                0 <= scale <= COORD_LIMIT / 2,
        ;
    }
    Point {
        x: scale * x + translation[0],
        y: scale * y + translation[1],
        z: scale * z + translation[2],
    }
}

/// A normal direction; primitives use unit grid steps.
fn n(x: i64, y: i64, z: i64) -> (r: Vector)
    requires
        -1 <= x <= 1,
        -1 <= y <= 1,
        -1 <= z <= 1,
    ensures
        r == (Vector { x, y, z }),
        r.bounded(),
{
    Vector { x, y, z }
}

/// A face whose normal indices repeat its vertex indices.
pub fn tf_vn(i1: u32, i2: u32, i3: u32) -> (r: TriangleFace)
    ensures
        r == (TriangleFace { vertices: (i1, i2, i3), normals: Some((i1, i2, i3)) }),
{
    TriangleFace::new(i1, i2, i3)
}

/// A face with separately chosen vertex and normal indices.
pub fn tf_vn_separate(v1: u32, v2: u32, v3: u32, n1: u32, n2: u32, n3: u32) -> (r: TriangleFace)
    ensures
        r == (TriangleFace { vertices: (v1, v2, v3), normals: Some((n1, n2, n3)) }),
{
    TriangleFace::new_separate(v1, v2, v3, n1, n2, n3)
}

/// A flat square of two triangles with duplicated corner vertices, one
/// normal per vertex.
pub fn plane_same_len(position: [i64; 3], scale: i64) -> (r: Geometry)
    requires
        builder_input_ok(position, scale),
    ensures
        r@.vertices.len() == 6,
        r@.normals.len() == 6,
        r@.faces.len() == 2,
        forall|k: int|
            0 <= k < 6 ==> #[trigger] r@.normals[k] == (Vector { x: 0, y: 0, z: 1 }),
        r@.vertices[0] == v_spec(-1, -1, 0, position, scale),
        r@.vertices[1] == v_spec(1, -1, 0, position, scale),
        r@.vertices[2] == v_spec(1, 1, 0, position, scale),
        r@.vertices[3] == v_spec(1, 1, 0, position, scale),
        r@.vertices[4] == v_spec(-1, 1, 0, position, scale),
        r@.vertices[5] == v_spec(-1, -1, 0, position, scale),
        r@.faces[0] == Face::Triangle(TriangleFace { vertices: (0, 1, 2), normals: Some((0, 1, 2)) }),
        r@.faces[1] == Face::Triangle(TriangleFace { vertices: (3, 4, 5), normals: Some((3, 4, 5)) }),
        r@.wf(),
{
    let mut vertex_positions: Vec<Point> = Vec::new();
    vertex_positions.push(v(-1, -1, 0, position, scale));
    vertex_positions.push(v(1, -1, 0, position, scale));
    vertex_positions.push(v(1, 1, 0, position, scale));
    vertex_positions.push(v(1, 1, 0, position, scale));
    vertex_positions.push(v(-1, 1, 0, position, scale));
    vertex_positions.push(v(-1, -1, 0, position, scale));

    let mut vertex_normals: Vec<Vector> = Vec::new();
    let mut i: usize = 0;
    while i < 6
        invariant
            vertex_normals@.len() == i <= 6,
            forall|k: int|
                0 <= k < i ==> #[trigger] vertex_normals@[k] == (Vector { x: 0, y: 0, z: 1 }),
        decreases 6 - i,
    {
        vertex_normals.push(n(0, 0, 1));
        i = i + 1;
    }

    let mut faces: Vec<TriangleFace> = Vec::new();
    faces.push(tf_vn(0, 1, 2));
    faces.push(tf_vn(3, 4, 5));

    Geometry::from_triangle_faces_with_vertices_and_normals(faces, vertex_positions, vertex_normals)
}

/// A flat square of two triangles with duplicated corner vertices, all
/// referencing one shared normal.
pub fn plane_var_len(position: [i64; 3], scale: i64) -> (r: Geometry)
    requires
        builder_input_ok(position, scale),
    ensures
        r@.vertices.len() == 6,
        r@.normals.len() == 1,
        r@.faces.len() == 2,
        r@.normals[0] == (Vector { x: 0, y: 0, z: 1 }),
        r@.vertices[0] == v_spec(-1, -1, 0, position, scale),
        r@.vertices[1] == v_spec(1, -1, 0, position, scale),
        r@.vertices[2] == v_spec(1, 1, 0, position, scale),
        r@.vertices[3] == v_spec(1, 1, 0, position, scale),
        r@.vertices[4] == v_spec(-1, 1, 0, position, scale),
        r@.vertices[5] == v_spec(-1, -1, 0, position, scale),
        r@.faces[0] == Face::Triangle(TriangleFace { vertices: (0, 1, 2), normals: Some((0, 0, 0)) }),
        r@.faces[1] == Face::Triangle(TriangleFace { vertices: (3, 4, 5), normals: Some((0, 0, 0)) }),
        r@.wf(),
{
    let mut vertex_positions: Vec<Point> = Vec::new();
    vertex_positions.push(v(-1, -1, 0, position, scale));
    vertex_positions.push(v(1, -1, 0, position, scale));
    vertex_positions.push(v(1, 1, 0, position, scale));
    vertex_positions.push(v(1, 1, 0, position, scale));
    vertex_positions.push(v(-1, 1, 0, position, scale));
    vertex_positions.push(v(-1, -1, 0, position, scale));

    let mut vertex_normals: Vec<Vector> = Vec::new();
    vertex_normals.push(n(0, 0, 1));

    let mut faces: Vec<TriangleFace> = Vec::new();
    faces.push(tf_vn_separate(0, 1, 2, 0, 0, 0));
    faces.push(tf_vn_separate(3, 4, 5, 0, 0, 0));

    Geometry::from_triangle_faces_with_vertices_and_normals(faces, vertex_positions, vertex_normals)
}

/// The eight corners of a cube, in builder order.
pub open spec fn cube_corner(k: int, position: [i64; 3], scale: i64) -> Point {
    if k == 0 {
        v_spec(-1, 1, -1, position, scale)
    } else if k == 1 {
        v_spec(-1, 1, 1, position, scale)
    } else if k == 2 {
        v_spec(1, 1, 1, position, scale)
    } else if k == 3 {
        v_spec(1, 1, -1, position, scale)
    } else if k == 4 {
        v_spec(-1, -1, -1, position, scale)
    } else if k == 5 {
        v_spec(1, -1, -1, position, scale)
    } else if k == 6 {
        v_spec(1, -1, 1, position, scale)
    } else {
        v_spec(-1, -1, 1, position, scale)
    }
}

/// The diagonal normal at each cube corner, pointing out of the corner
/// on the unit grid.
pub open spec fn cube_corner_normal(k: int) -> Vector {
    if k == 0 {
        Vector { x: -1i64, y: 1i64, z: -1i64 }
    } else if k == 1 {
        Vector { x: -1i64, y: 1i64, z: 1i64 }
    } else if k == 2 {
        Vector { x: 1i64, y: 1i64, z: 1i64 }
    } else if k == 3 {
        Vector { x: 1i64, y: 1i64, z: -1i64 }
    } else if k == 4 {
        Vector { x: -1i64, y: -1i64, z: -1i64 }
    } else if k == 5 {
        Vector { x: 1i64, y: -1i64, z: -1i64 }
    } else if k == 6 {
        Vector { x: 1i64, y: -1i64, z: 1i64 }
    } else {
        Vector { x: -1i64, y: -1i64, z: 1i64 }
    }
}

/// The corner triple of cube face `k`: two triangles per side, each
/// face's normal indices repeating its vertex indices.
pub open spec fn cube_face_triple(k: int) -> (u32, u32, u32) {
    if k == 0 {
        (0u32, 1u32, 2u32)
    } else if k == 1 {
        (2u32, 3u32, 0u32)
    } else if k == 2 {
        (4u32, 5u32, 6u32)
    } else if k == 3 {
        (6u32, 7u32, 4u32)
    } else if k == 4 {
        (7u32, 6u32, 2u32)
    } else if k == 5 {
        (2u32, 1u32, 7u32)
    } else if k == 6 {
        (4u32, 0u32, 3u32)
    } else if k == 7 {
        (3u32, 5u32, 4u32)
    } else if k == 8 {
        (5u32, 3u32, 2u32)
    } else if k == 9 {
        (2u32, 6u32, 5u32)
    } else if k == 10 {
        (4u32, 7u32, 1u32)
    } else {
        (1u32, 0u32, 4u32)
    }
}

/// A cube of twelve triangles over eight shared corner vertices, with a
/// diagonal normal at each corner.
pub fn cube_same_len(position: [i64; 3], scale: i64) -> (r: Geometry)
    requires
        builder_input_ok(position, scale),
    ensures
        r@.vertices.len() == 8,
        r@.normals.len() == 8,
        r@.faces.len() == 12,
        forall|k: int| 0 <= k < 8 ==> #[trigger] r@.vertices[k] == cube_corner(k, position, scale),
        forall|k: int| 0 <= k < 8 ==> #[trigger] r@.normals[k] == cube_corner_normal(k),
        forall|k: int|
            0 <= k < 12 ==> #[trigger] r@.faces[k] == Face::Triangle(
                TriangleFace {
                    vertices: cube_face_triple(k),
                    normals: Some(cube_face_triple(k)),
                },
            ),
        r@.wf(),
{
    let mut vertex_positions: Vec<Point> = Vec::new();
    vertex_positions.push(v(-1, 1, -1, position, scale));
    vertex_positions.push(v(-1, 1, 1, position, scale));
    vertex_positions.push(v(1, 1, 1, position, scale));
    vertex_positions.push(v(1, 1, -1, position, scale));
    vertex_positions.push(v(-1, -1, -1, position, scale));
    vertex_positions.push(v(1, -1, -1, position, scale));
    vertex_positions.push(v(1, -1, 1, position, scale));
    vertex_positions.push(v(-1, -1, 1, position, scale));

    let mut vertex_normals: Vec<Vector> = Vec::new();
    vertex_normals.push(n(-1, 1, -1));
    vertex_normals.push(n(-1, 1, 1));
    vertex_normals.push(n(1, 1, 1));
    vertex_normals.push(n(1, 1, -1));
    vertex_normals.push(n(-1, -1, -1));
    vertex_normals.push(n(1, -1, -1));
    vertex_normals.push(n(1, -1, 1));
    vertex_normals.push(n(-1, -1, 1));

    let mut faces: Vec<TriangleFace> = Vec::new();
    faces.push(tf_vn(0, 1, 2));
    faces.push(tf_vn(2, 3, 0));
    faces.push(tf_vn(4, 5, 6));
    faces.push(tf_vn(6, 7, 4));
    faces.push(tf_vn(7, 6, 2));
    faces.push(tf_vn(2, 1, 7));
    faces.push(tf_vn(4, 0, 3));
    faces.push(tf_vn(3, 5, 4));
    faces.push(tf_vn(5, 3, 2));
    faces.push(tf_vn(2, 6, 5));
    faces.push(tf_vn(4, 7, 1));
    faces.push(tf_vn(1, 0, 4));

    Geometry::from_triangle_faces_with_vertices_and_normals(faces, vertex_positions, vertex_normals)
}

/// A cube of twelve triangles with per-side duplicated vertices, one
/// axis-aligned normal per vertex.
pub fn uv_cube_same_len(position: [i64; 3], scale: i64) -> (r: Geometry)
    requires
        builder_input_ok(position, scale),
    ensures
        r@.vertices.len() == 24,
        r@.normals.len() == 24,
        r@.faces.len() == 12,
        r@.wf(),
{
    let mut vertex_positions: Vec<Point> = Vec::new();
    vertex_positions.push(v(-1, 1, -1, position, scale));
    vertex_positions.push(v(-1, 1, 1, position, scale));
    vertex_positions.push(v(1, 1, 1, position, scale));
    vertex_positions.push(v(1, 1, -1, position, scale));
    vertex_positions.push(v(-1, -1, -1, position, scale));
    vertex_positions.push(v(1, -1, -1, position, scale));
    vertex_positions.push(v(1, -1, 1, position, scale));
    vertex_positions.push(v(-1, -1, 1, position, scale));
    vertex_positions.push(v(-1, 1, 1, position, scale));
    vertex_positions.push(v(-1, -1, 1, position, scale));
    vertex_positions.push(v(1, -1, 1, position, scale));
    vertex_positions.push(v(1, 1, 1, position, scale));
    vertex_positions.push(v(-1, 1, -1, position, scale));
    vertex_positions.push(v(1, 1, -1, position, scale));
    vertex_positions.push(v(1, -1, -1, position, scale));
    vertex_positions.push(v(-1, -1, -1, position, scale));
    vertex_positions.push(v(1, 1, -1, position, scale));
    vertex_positions.push(v(1, 1, 1, position, scale));
    vertex_positions.push(v(1, -1, 1, position, scale));
    vertex_positions.push(v(1, -1, -1, position, scale));
    vertex_positions.push(v(-1, 1, -1, position, scale));
    vertex_positions.push(v(-1, -1, -1, position, scale));
    vertex_positions.push(v(-1, -1, 1, position, scale));
    vertex_positions.push(v(-1, 1, 1, position, scale));

    let mut vertex_normals: Vec<Vector> = Vec::new();
    let mut side: usize = 0;
    while side < 4
        invariant
            vertex_normals@.len() == side <= 4,
            forall|k: int|
                0 <= k < vertex_normals@.len() ==> (#[trigger] vertex_normals@[k]).bounded(),
        decreases 4 - side,
    {
        vertex_normals.push(n(0, 1, 0));
        side = side + 1;
    }
    let mut side: usize = 0;
    while side < 4
        invariant
            vertex_normals@.len() == 4 + side && side <= 4,
            forall|k: int|
                0 <= k < vertex_normals@.len() ==> (#[trigger] vertex_normals@[k]).bounded(),
        decreases 4 - side,
    {
        vertex_normals.push(n(0, -1, 0));
        side = side + 1;
    }
    let mut side: usize = 0;
    while side < 4
        invariant
            vertex_normals@.len() == 8 + side && side <= 4,
            forall|k: int|
                0 <= k < vertex_normals@.len() ==> (#[trigger] vertex_normals@[k]).bounded(),
        decreases 4 - side,
    {
        vertex_normals.push(n(0, 0, 1));
        side = side + 1;
    }
    let mut side: usize = 0;
    while side < 4
        invariant
            vertex_normals@.len() == 12 + side && side <= 4,
            forall|k: int|
                0 <= k < vertex_normals@.len() ==> (#[trigger] vertex_normals@[k]).bounded(),
        decreases 4 - side,
    {
        vertex_normals.push(n(0, 0, -1));
        side = side + 1;
    }
    let mut side: usize = 0;
    while side < 4
        invariant
            vertex_normals@.len() == 16 + side && side <= 4,
            forall|k: int|
                0 <= k < vertex_normals@.len() ==> (#[trigger] vertex_normals@[k]).bounded(),
        decreases 4 - side,
    {
        vertex_normals.push(n(1, 0, 0));
        side = side + 1;
    }
    let mut side: usize = 0;
    while side < 4
        invariant
            vertex_normals@.len() == 20 + side && side <= 4,
            forall|k: int|
                0 <= k < vertex_normals@.len() ==> (#[trigger] vertex_normals@[k]).bounded(),
        decreases 4 - side,
    {
        vertex_normals.push(n(-1, 0, 0));
        side = side + 1;
    }

    let mut faces: Vec<TriangleFace> = Vec::new();
    faces.push(tf_vn(0, 1, 2));
    faces.push(tf_vn(2, 3, 0));
    faces.push(tf_vn(4, 5, 6));
    faces.push(tf_vn(6, 7, 4));
    faces.push(tf_vn(8, 9, 10));
    faces.push(tf_vn(10, 11, 8));
    faces.push(tf_vn(12, 13, 14));
    faces.push(tf_vn(14, 15, 12));
    faces.push(tf_vn(16, 17, 18));
    faces.push(tf_vn(18, 19, 16));
    faces.push(tf_vn(20, 21, 22));
    faces.push(tf_vn(22, 23, 20));

    Geometry::from_triangle_faces_with_vertices_and_normals(faces, vertex_positions, vertex_normals)
}

/// A cube of twelve triangles over eight shared corner vertices, with
/// one shared normal per side.
pub fn uv_cube_var_len(position: [i64; 3], scale: i64) -> (r: Geometry)
    requires
        builder_input_ok(position, scale),
    ensures
        r@.vertices.len() == 8,
        r@.normals.len() == 6,
        r@.faces.len() == 12,
        forall|k: int| 0 <= k < 8 ==> #[trigger] r@.vertices[k] == cube_corner(k, position, scale),
        r@.wf(),
{
    let mut vertex_positions: Vec<Point> = Vec::new();
    vertex_positions.push(v(-1, 1, -1, position, scale));
    vertex_positions.push(v(-1, 1, 1, position, scale));
    vertex_positions.push(v(1, 1, 1, position, scale));
    vertex_positions.push(v(1, 1, -1, position, scale));
    vertex_positions.push(v(-1, -1, -1, position, scale));
    vertex_positions.push(v(1, -1, -1, position, scale));
    vertex_positions.push(v(1, -1, 1, position, scale));
    vertex_positions.push(v(-1, -1, 1, position, scale));

    let mut vertex_normals: Vec<Vector> = Vec::new();
    vertex_normals.push(n(0, 1, 0));
    vertex_normals.push(n(0, -1, 0));
    vertex_normals.push(n(0, 0, 1));
    vertex_normals.push(n(0, 0, -1));
    vertex_normals.push(n(1, 0, 0));
    vertex_normals.push(n(-1, 0, 0));

    let mut faces: Vec<TriangleFace> = Vec::new();
    faces.push(tf_vn_separate(0, 1, 2, 0, 0, 0));
    faces.push(tf_vn_separate(2, 3, 0, 0, 0, 0));
    faces.push(tf_vn_separate(4, 5, 6, 1, 1, 1));
    faces.push(tf_vn_separate(6, 7, 4, 1, 1, 1));
    faces.push(tf_vn_separate(7, 6, 2, 2, 2, 2));
    faces.push(tf_vn_separate(2, 1, 7, 2, 2, 2));
    faces.push(tf_vn_separate(4, 0, 3, 3, 3, 3));
    faces.push(tf_vn_separate(3, 5, 4, 3, 3, 3));
    faces.push(tf_vn_separate(5, 3, 2, 4, 4, 4));
    faces.push(tf_vn_separate(2, 6, 5, 4, 4, 4));
    faces.push(tf_vn_separate(4, 7, 1, 5, 5, 5));
    faces.push(tf_vn_separate(1, 0, 4, 5, 5, 5));

    Geometry::from_triangle_faces_with_vertices_and_normals(faces, vertex_positions, vertex_normals)
}

/// Sum of the x coordinates of a point sequence.
pub open spec fn sum_px(ps: Seq<Point>) -> int
    decreases ps.len(),
{
    if ps.len() == 0 {
        0
    } else {
        sum_px(ps.drop_last()) + ps.last().x
    }
}

/// Sum of the y coordinates of a point sequence.
pub open spec fn sum_py(ps: Seq<Point>) -> int
    decreases ps.len(),
{
    if ps.len() == 0 {
        0
    } else {
        sum_py(ps.drop_last()) + ps.last().y
    }
}

/// Sum of the z coordinates of a point sequence.
pub open spec fn sum_pz(ps: Seq<Point>) -> int
    decreases ps.len(),
{
    if ps.len() == 0 {
        0
    } else {
        sum_pz(ps.drop_last()) + ps.last().z
    }
}

/// The vertices of a list of geometries, concatenated in order.
pub open spec fn geometries_vertices(gs: Seq<Geometry>) -> Seq<Point>
    decreases gs.len(),
{
    if gs.len() == 0 {
        Seq::empty()
    } else {
        geometries_vertices(gs.drop_last()) + gs.last()@.vertices
    }
}

/// The componentwise mean (truncated towards zero) of a non-empty point
/// sequence.
pub open spec fn centroid_spec(ps: Seq<Point>) -> Point {
    Point {
        x: crate::mesh_smoothing::trunc_div(sum_px(ps), ps.len() as int) as i64,
        y: crate::mesh_smoothing::trunc_div(sum_py(ps), ps.len() as int) as i64,
        z: crate::mesh_smoothing::trunc_div(sum_pz(ps), ps.len() as int) as i64,
    }
}

/// The centroid of all vertices of all the geometries: the componentwise
/// mean of every vertex position, truncated towards zero.
#[verifier::loop_isolation(false)]
pub fn compute_centroid(geometries: &Vec<Geometry>) -> (r: Point)
    requires
        geometries_vertices(geometries@).len() > 0,
    ensures
        r == centroid_spec(geometries_vertices(geometries@)),
{
    let mut all: Vec<Point> = Vec::new();
    let mut i: usize = 0;
    while i < geometries.len()
        invariant
            0 <= i <= geometries@.len(),
            all@ == geometries_vertices(geometries@.take(i as int)),
            forall|p: int| 0 <= p < all@.len() ==> (#[trigger] all@[p]).bounded(),
        decreases geometries@.len() - i,
    {
        let g = &geometries[i];
        proof {
            use_type_invariant(g);
        }
        let vs = g.vertices();
        let mut j: usize = 0;
        while j < vs.len()
            invariant
                0 <= j <= vs@.len(),
                vs@ == geometries@[i as int]@.vertices,
                0 <= i < geometries@.len(),
                geometries@[i as int]@.wf(),
                all@ == geometries_vertices(geometries@.take(i as int)) + vs@.take(j as int),
                forall|p: int| 0 <= p < all@.len() ==> (#[trigger] all@[p]).bounded(),
            decreases vs@.len() - j,
        {
            all.push(vs[j]);
            proof {
                assert(all@ =~= geometries_vertices(geometries@.take(i as int)) + vs@.take(j + 1));
            }
            j = j + 1;
        }
        proof {
            assert(geometries@.take(i + 1).drop_last() =~= geometries@.take(i as int));
            assert(geometries@.take(i + 1).last() == geometries@[i as int]);
            assert(all@ =~= geometries_vertices(geometries@.take(i + 1)));
        }
        i = i + 1;
    }
    proof {
        assert(geometries@.take(geometries@.len() as int) =~= geometries@);
    }
    let count = all.len();
    let mut sx: i128 = 0;
    let mut sy: i128 = 0;
    let mut sz: i128 = 0;
    let mut k: usize = 0;
    while k < count
        invariant
            0 <= k <= count,
            count == all@.len(),
            forall|p: int| 0 <= p < all@.len() ==> (#[trigger] all@[p]).bounded(),
            sx == sum_px(all@.take(k as int)),
            sy == sum_py(all@.take(k as int)),
            sz == sum_pz(all@.take(k as int)),
            -((k as int) * (COORD_LIMIT as int)) <= sx <= (k as int) * (COORD_LIMIT as int),
            -((k as int) * (COORD_LIMIT as int)) <= sy <= (k as int) * (COORD_LIMIT as int),
            -((k as int) * (COORD_LIMIT as int)) <= sz <= (k as int) * (COORD_LIMIT as int),
        decreases count - k,
    {
        let p = all[k];
        proof {
            assert(all@.take(k + 1).drop_last() =~= all@.take(k as int));
            assert(all@.take(k + 1).last() == all@[k as int]);
        }
        sx = sx + p.x as i128;
        sy = sy + p.y as i128;
        sz = sz + p.z as i128;
        k = k + 1;
    }
    proof {
        assert(all@.take(all@.len() as int) =~= all@);
        crate::mesh_smoothing::lemma_trunc_div_bound(sx as int, count as int, COORD_LIMIT as int);
        crate::mesh_smoothing::lemma_trunc_div_bound(sy as int, count as int, COORD_LIMIT as int);
        crate::mesh_smoothing::lemma_trunc_div_bound(sz as int, count as int, COORD_LIMIT as int);
    }
    let cx = crate::mesh_smoothing::trunc_div_i128(sx, count as i128);
    let cy = crate::mesh_smoothing::trunc_div_i128(sy, count as i128);
    let cz = crate::mesh_smoothing::trunc_div_i128(sz, count as i128);
    Point { x: cx as i64, y: cy as i64, z: cz as i64 }
}


/// The squared Euclidean distance between two grid points.
pub open spec fn dist2(a: Point, b: Point) -> int {
    (a.x - b.x) * (a.x - b.x) + (a.y - b.y) * (a.y - b.y) + (a.z - b.z) * (a.z - b.z)
}

/// The largest squared distance from `c` to any point of the sequence.
pub open spec fn max_dist2(ps: Seq<Point>, c: Point) -> int
    decreases ps.len(),
{
    if ps.len() == 0 {
        0
    } else {
        let rest = max_dist2(ps.drop_last(), c);
        if dist2(ps.last(), c) > rest {
            dist2(ps.last(), c)
        } else {
            rest
        }
    }
}

/// `r` is the integer square root of `x`: the largest integer whose
/// square does not exceed `x`.
pub open spec fn is_isqrt(x: int, r: int) -> bool {
    r >= 0 && r * r <= x && (r + 1) * (r + 1) > x
}

/// The integer square root, by bisection.
fn isqrt_u128(x: u128) -> (r: u128)
    ensures
        is_isqrt(x as int, r as int),
{
    let mut lo: u128 = 0;
    let mut hi: u128 = 0x1_0000_0000_0000_0000;
    proof {
        assert((hi as int) * (hi as int) > x as int) by (nonlinear_arith)
            requires
                hi == 0x1_0000_0000_0000_0000u128,
                x <= u128::MAX,
        ;
    }
    while lo + 1 < hi
        invariant
            0 <= lo < hi <= 0x1_0000_0000_0000_0000,
            (lo as int) * (lo as int) <= x as int,
            (hi as int) * (hi as int) > x as int,
        decreases hi - lo,
    {
        let mid = lo + (hi - lo) / 2;
        proof {
            assert(mid < hi);
            assert((mid as int) * (mid as int) < 0x1_0000_0000_0000_0000_0000_0000_0000_0000int)
                by (nonlinear_arith)
                requires
                    0 <= mid < 0x1_0000_0000_0000_0000u128,
            ;
        }
        let sq = mid * mid;
        if sq <= x {
            lo = mid;
        } else {
            hi = mid;
        }
    }
    lo
}

/// The centroid of all the geometries' vertices and the distance from
/// it to the farthest vertex, rounded down to the grid: a sphere about
/// the centroid with the next-larger radius encloses every vertex.
#[verifier::loop_isolation(false)]
pub fn compute_bounding_sphere(geometries: &Vec<Geometry>) -> (r: (Point, i64))
    requires
        geometries_vertices(geometries@).len() > 0,
    ensures
        r.0 == centroid_spec(geometries_vertices(geometries@)),
        is_isqrt(max_dist2(geometries_vertices(geometries@), r.0), r.1 as int),
{
    let mut i: usize = 0;
    while i < geometries.len()
        invariant
            0 <= i <= geometries@.len(),
            forall|p: int|
                0 <= p < geometries_vertices(geometries@.take(i as int)).len() ==> (
                #[trigger] geometries_vertices(geometries@.take(i as int))[p]).bounded(),
        decreases geometries@.len() - i,
    {
        let g = &geometries[i];
        proof {
            use_type_invariant(g);
            assert(geometries@.take(i + 1).drop_last() =~= geometries@.take(i as int));
            assert(geometries@.take(i + 1).last() == geometries@[i as int]);
            let head = geometries_vertices(geometries@.take(i as int));
            assert forall|p: int|
                0 <= p < geometries_vertices(geometries@.take(i + 1)).len() implies (
            #[trigger] geometries_vertices(geometries@.take(i + 1))[p]).bounded() by {
                if p < head.len() {
                    assert(geometries_vertices(geometries@.take(i + 1))[p] == head[p]);
                } else {
                    assert(geometries_vertices(geometries@.take(i + 1))[p]
                        == geometries@[i as int]@.vertices[p - head.len()]);
                }
            }
        }
        i = i + 1;
    }
    proof {
        assert(geometries@.take(geometries@.len() as int) =~= geometries@);
    }
    let centroid = compute_centroid(geometries);
    proof {
        lemma_centroid_bounded(geometries@);
    }
    let mut max_d2: u128 = 0;
    let ghost all = geometries_vertices(geometries@);
    let mut i: usize = 0;
    while i < geometries.len()
        invariant
            0 <= i <= geometries@.len(),
            centroid == centroid_spec(all),
            centroid.bounded(),
            all == geometries_vertices(geometries@),
            max_d2 == max_dist2(geometries_vertices(geometries@.take(i as int)), centroid),
            max_d2 <= 0x30000000000000000000000000000000u128,
        decreases geometries@.len() - i,
    {
        let g = &geometries[i];
        proof {
            use_type_invariant(g);
        }
        let vs = g.vertices();
        let ghost done = geometries_vertices(geometries@.take(i as int));
        let mut j: usize = 0;
        while j < vs.len()
            invariant
                0 <= j <= vs@.len(),
                vs@ == geometries@[i as int]@.vertices,
                0 <= i < geometries@.len(),
                geometries@[i as int]@.wf(),
                centroid.bounded(),
                max_d2 == max_dist2(done + vs@.take(j as int), centroid),
                max_d2 <= 0x30000000000000000000000000000000u128,
            decreases vs@.len() - j,
        {
            let p = vs[j];
            let dx = p.x as i128 - centroid.x as i128;
            let dy = p.y as i128 - centroid.y as i128;
            let dz = p.z as i128 - centroid.z as i128;
            proof {
                let lim = 2 * (COORD_LIMIT as int);
                assert(dx * dx + dy * dy + dz * dz <= 3 * lim * lim && dx * dx >= 0 && dy * dy
                    >= 0 && dz * dz >= 0) by (nonlinear_arith)
                    requires
                        -lim <= dx <= lim,
                        -lim <= dy <= lim,
                        -lim <= dz <= lim,
                        lim == 2 * (COORD_LIMIT as int),
                ;
            }
            let d2 = (dx * dx + dy * dy + dz * dz) as u128;
            if d2 > max_d2 {
                max_d2 = d2;
            }
            proof {
                assert((done + vs@.take(j + 1)).drop_last() =~= done + vs@.take(j as int));
                assert((done + vs@.take(j + 1)).last() == vs@[j as int]);
                assert(dist2(vs@[j as int], centroid) == d2);
            }
            j = j + 1;
        }
        proof {
            assert(geometries@.take(i + 1).drop_last() =~= geometries@.take(i as int));
            assert(geometries@.take(i + 1).last() == geometries@[i as int]);
            assert(vs@.take(vs@.len() as int) =~= vs@);
            lemma_max_dist2_concat(done, vs@, centroid);
        }
        i = i + 1;
    }
    proof {
        assert(geometries@.take(geometries@.len() as int) =~= geometries@);
    }
    let radius = isqrt_u128(max_d2);
    proof {
        assert((radius as int) * (radius as int) <= max_d2 as int);
        assert(radius < 0x8000000000000000u128) by (nonlinear_arith)
            requires
                (radius as int) * (radius as int) <= 0x30000000000000000000000000000000int,
                radius >= 0,
        ;
    }
    (centroid, radius as i64)
}

/// A squared distance is never negative.
proof fn lemma_max_dist2_nonneg(ps: Seq<Point>, c: Point)
    ensures
        max_dist2(ps, c) >= 0,
        forall|k: int| 0 <= k < ps.len() ==> dist2(#[trigger] ps[k], c) <= max_dist2(ps, c),
    decreases ps.len(),
{
    if ps.len() > 0 {
        lemma_max_dist2_nonneg(ps.drop_last(), c);
        let p = ps.last();
        assert(dist2(p, c) >= 0) by (nonlinear_arith);
        assert forall|k: int| 0 <= k < ps.len() implies dist2(#[trigger] ps[k], c) <= max_dist2(
            ps,
            c,
        ) by {
            if k < ps.len() - 1 {
                assert(ps.drop_last()[k] == ps[k]);
            }
        }
    }
}

/// The maximum over a concatenation is the larger of the two maxima.
proof fn lemma_max_dist2_concat(a: Seq<Point>, b: Seq<Point>, c: Point)
    ensures
        max_dist2(a + b, c) == if max_dist2(a, c) > max_dist2(b, c) {
            max_dist2(a, c)
        } else {
            max_dist2(b, c)
        },
    decreases b.len(),
{
    lemma_max_dist2_nonneg(a, c);
    lemma_max_dist2_nonneg(b, c);
    if b.len() == 0 {
        assert(a + b =~= a);
    } else {
        lemma_max_dist2_concat(a, b.drop_last(), c);
        assert((a + b).drop_last() =~= a + b.drop_last());
        assert((a + b).last() == b.last());
    }
}

/// The centroid of bounded points is bounded: the truncated mean of
/// coordinates within the cap stays within the cap.
proof fn lemma_centroid_bounded(gs: Seq<Geometry>)
    requires
        geometries_vertices(gs).len() > 0,
        forall|p: int|
            0 <= p < geometries_vertices(gs).len() ==> (#[trigger] geometries_vertices(
                gs,
            )[p]).bounded(),
    ensures
        centroid_spec(geometries_vertices(gs)).bounded(),
{
    let ps = geometries_vertices(gs);
    lemma_sum_p_bounded(ps);
    crate::mesh_smoothing::lemma_trunc_div_bound(sum_px(ps), ps.len() as int, COORD_LIMIT as int);
    crate::mesh_smoothing::lemma_trunc_div_bound(sum_py(ps), ps.len() as int, COORD_LIMIT as int);
    crate::mesh_smoothing::lemma_trunc_div_bound(sum_pz(ps), ps.len() as int, COORD_LIMIT as int);
}

/// Coordinate sums of bounded points are bounded by the count times the
/// cap.
proof fn lemma_sum_p_bounded(ps: Seq<Point>)
    requires
        forall|p: int| 0 <= p < ps.len() ==> (#[trigger] ps[p]).bounded(),
    ensures
        -(ps.len() * (COORD_LIMIT as int)) <= sum_px(ps) <= ps.len() * (COORD_LIMIT as int),
        -(ps.len() * (COORD_LIMIT as int)) <= sum_py(ps) <= ps.len() * (COORD_LIMIT as int),
        -(ps.len() * (COORD_LIMIT as int)) <= sum_pz(ps) <= ps.len() * (COORD_LIMIT as int),
    decreases ps.len(),
{
    if ps.len() > 0 {
        lemma_sum_p_bounded(ps.drop_last());
        assert((ps.len() - 1) * (COORD_LIMIT as int) + COORD_LIMIT as int == ps.len() * (
        COORD_LIMIT as int)) by (nonlinear_arith);
        assert(ps.last().bounded());
    }
}

} // verus!
