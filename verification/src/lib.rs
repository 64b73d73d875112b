//! An exact-arithmetic polygon-mesh kernel.
//!
//! The kernel stores mesh data as an immutable [`geometry::Geometry`]:
//! flat, index-addressed collections of vertices, optional normals and
//! triangular faces. All coordinates are integers on a caller-chosen
//! grid, so every algorithm here is exact and fully specified.

use vstd::prelude::*;

pub mod edge_analysis;
pub mod geometry;
pub mod importer;
pub mod interpreter_funcs;
pub mod renderer;
pub mod mesh_analysis;
pub mod mesh_smoothing;
pub mod mesh_tools;
pub mod mesh_topology_analysis;

verus! {

} // verus!
