//! The decision cores of the scripted mesh operations. The scripting
//! layer, and the voxel subsystem some operations drive, live outside
//! this crate; what stands here is each operation's own rule: which
//! parameters are rejected, which outcomes become which errors, and the
//! mesh computation itself where it is the kernel's.

use crate::geometry::Geometry;
use crate::mesh_smoothing;
use crate::mesh_smoothing::{rows_view, smooth_iter};
use crate::mesh_topology_analysis;
use vstd::prelude::*;

verus! {

/// Why voxelizing a mesh failed.
#[derive(Clone, Copy, Debug, PartialEq, Eq, Structural)]
pub enum FuncVoxelizeError {
    WeldFailed,
    EmptyVoxelCloud,
}

impl FuncVoxelizeError {
    /// A human-readable description of the failure.
    pub fn message(&self) -> (r: &'static str)
        ensures
            true,
    {
        match self {
            FuncVoxelizeError::WeldFailed => "Welding of separate voxels failed due to high welding proximity tolerance",
            FuncVoxelizeError::EmptyVoxelCloud => "The resulting voxel cloud is empty",
        }
    }
}

/// Why a voxel transform failed.
#[derive(Clone, Copy, Debug, PartialEq, Eq, Structural)]
pub enum FuncVoxelTransformError {
    WeldFailed,
    TransformFailed,
    VoxelDimensionZero,
}

impl FuncVoxelTransformError {
    /// A human-readable description of the failure.
    pub fn message(&self) -> (r: &'static str)
        ensures
            true,
    {
        match self {
            FuncVoxelTransformError::WeldFailed => "Welding of separate voxels failed due to high welding proximity tolerance",
            FuncVoxelTransformError::TransformFailed => "Voxel cloud transformation failed",
            FuncVoxelTransformError::VoxelDimensionZero => "Voxel dimension is not larger than zero",
        }
    }
}

/// The voxelize operation.
pub struct FuncVoxelize;

impl FuncVoxelize {
    /// Decides the outcome of voxelizing, given what the voxel subsystem
    /// reported: an empty cloud is an error, a cloud that would not weld
    /// back into a mesh is an error, and otherwise the rebuilt mesh is
    /// returned.
    pub fn outcome(contains_voxels: bool, mesh: Option<Geometry>) -> (r: Result<
        Geometry,
        FuncVoxelizeError,
    >)
        ensures
            !contains_voxels ==> r == Result::<Geometry, FuncVoxelizeError>::Err(
                FuncVoxelizeError::EmptyVoxelCloud,
            ),
            contains_voxels && mesh is None ==> r == Result::<Geometry, FuncVoxelizeError>::Err(
                FuncVoxelizeError::WeldFailed,
            ),
            contains_voxels ==> (mesh matches Some(g) ==> r == Result::<
                Geometry,
                FuncVoxelizeError,
            >::Ok(g)),
    {
        if !contains_voxels {
            return Err(FuncVoxelizeError::EmptyVoxelCloud);
        }
        match mesh {
            Some(g) => Ok(g),
            None => Err(FuncVoxelizeError::WeldFailed),
        }
    }
}

/// The voxel transform operation.
pub struct FuncVoxelTransform;

impl FuncVoxelTransform {
    /// Rejects a non-positive voxel dimension before any voxel work is
    /// done.
    pub fn check_voxel_dimension(voxel_dimension: i64) -> (r: Result<(), FuncVoxelTransformError>)
        ensures
            voxel_dimension <= 0 <==> r == Result::<(), FuncVoxelTransformError>::Err(
                FuncVoxelTransformError::VoxelDimensionZero,
            ),
            voxel_dimension > 0 <==> r == Result::<(), FuncVoxelTransformError>::Ok(()),
    {
        if voxel_dimension <= 0 {
            Err(FuncVoxelTransformError::VoxelDimensionZero)
        } else {
            Ok(())
        }
    }

    /// Decides the outcome of a transform, given what the voxel
    /// subsystem reported: a failed transform, a cloud that would not
    /// weld back into a mesh, or the rebuilt mesh.
    pub fn outcome(transformed: Option<Option<Geometry>>) -> (r: Result<
        Geometry,
        FuncVoxelTransformError,
    >)
        ensures
            transformed is None ==> r == Result::<Geometry, FuncVoxelTransformError>::Err(
                FuncVoxelTransformError::TransformFailed,
            ),
            transformed matches Some(inner) ==> (inner is None ==> r == Result::<
                Geometry,
                FuncVoxelTransformError,
            >::Err(FuncVoxelTransformError::WeldFailed)),
            transformed matches Some(inner) ==> (inner matches Some(g) ==> r == Result::<
                Geometry,
                FuncVoxelTransformError,
            >::Ok(g)),
    {
        match transformed {
            Some(inner) => match inner {
                Some(g) => Ok(g),
                None => Err(FuncVoxelTransformError::WeldFailed),
            },
            None => Err(FuncVoxelTransformError::TransformFailed),
        }
    }
}

/// The loop-subdivision operation. The subdivision pass itself belongs
/// to a collaborator outside this crate; the operation's own rule is
/// the iteration plan: the count is clamped to three, and a count of
/// zero returns the input mesh untouched.
pub struct FuncLoopSubdivision;

impl FuncLoopSubdivision {
    /// How many subdivision passes the operation runs for a requested
    /// count.
    pub fn planned_iterations(iterations: u32) -> (r: u32)
        ensures
            r == if iterations > 3 {
                3u32
            } else {
                iterations
            },
    {
        if iterations > 3 {
            3
        } else {
            iterations
        }
    }

    /// Whether the operation hands the input mesh back without running
    /// any pass at all.
    pub fn keeps_input(iterations: u32) -> (r: bool)
        ensures
            r == (iterations == 0),
    {
        iterations == 0
    }
}

/// The relax operation: Laplacian smoothing over the mesh's own
/// vertex-to-vertex adjacency, with the iteration count clamped to 255,
/// no anchors and no early stop.
pub struct FuncLaplacianSmoothing;

impl FuncLaplacianSmoothing {
    /// Runs the relaxation the operation stands for.
    pub fn call(mesh: &Geometry, iterations: u32) -> (r: Geometry)
        ensures
            r@.faces == mesh@.faces,
            r@.normals == mesh@.normals,
            r@.vertices.len() == mesh@.vertices.len(),
            exists|adj: Seq<Seq<u32>>|
                #[trigger] adjacency_of(adj, mesh@) && r@.vertices == smooth_iter(
                    mesh@.vertices,
                    adj,
                    Seq::empty(),
                    (if iterations > 255 {
                        255u32
                    } else {
                        iterations
                    }) as nat,
                ),
    {
        let clamped = if iterations > 255 {
            255
        } else {
            iterations
        };
        let v2v = mesh_topology_analysis::vertex_to_vertex_topology(mesh);
        proof {
            assert forall|i: int, k: int|
                0 <= i < v2v@.len() && 0 <= k < (v2v@[i])@.len() implies (((v2v@[i])@[k]) as int)
                < mesh@.vertices.len() by {
                let y = (v2v@[i])@[k];
                assert(mesh_topology_analysis::adj_mem(v2v@, i, y)) by {
                    assert((v2v@[i])@[k] == y);
                }
            }
        }
        let empty_fixed: Vec<u32> = Vec::new();
        let (relaxed, _, _) = mesh_smoothing::laplacian_smoothing(
            mesh,
            &v2v,
            clamped,
            &empty_fixed,
            false,
        );
        proof {
            mesh_smoothing::lemma_smooth_iter_len(
                mesh@.vertices,
                rows_view(v2v@),
                Seq::empty(),
                clamped as nat,
            );
            assert(adjacency_of(rows_view(v2v@), mesh@)) by {
                assert forall|x: int|
                    0 <= x < rows_view(v2v@).len() implies mesh_topology_analysis::row_distinct(
                    #[trigger] rows_view(v2v@)[x],
                ) by {
                    assert(rows_view(v2v@)[x] == v2v@[x]@);
                }
                assert forall|x: int, y: u32|
                    0 <= x < rows_view(v2v@).len() implies ((#[trigger] rows_view(v2v@)[x].contains(
                    y,
                )) <==> (mesh_topology_analysis::vertices_adjacent(mesh@.faces, x, y as int) && (y
                    as int) < mesh@.vertices.len())) by {
                    assert(rows_view(v2v@)[x] == v2v@[x]@);
                    assert(mesh_topology_analysis::adj_mem(v2v@, x, y) == v2v@[x]@.contains(y));
                }
            }
        }
        relaxed
    }
}

/// The rows are exactly the geometry's vertex-to-vertex adjacency,
/// each neighbour listed once.
pub open spec fn adjacency_of(adj: Seq<Seq<u32>>, gv: crate::geometry::GeometryView) -> bool {
    &&& adj.len() == gv.vertices.len()
    &&& forall|x: int, y: u32|
        0 <= x < adj.len() ==> ((#[trigger] adj[x].contains(y)) <==> (
        mesh_topology_analysis::vertices_adjacent(gv.faces, x, y as int) && (y as int)
            < gv.vertices.len()))
    &&& forall|x: int|
        0 <= x < adj.len() ==> mesh_topology_analysis::row_distinct(#[trigger] adj[x])
}

} // verus!
