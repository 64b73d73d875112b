//! The import cache, the checksum, the flat-model conversion, and the
//! configuration and decision values around the kernel.

use mesh_kernel::geometry::Point;
use mesh_kernel::importer::{calculate_checksum, model_from_flat, Importer, ImporterError, Vertex};
use mesh_kernel::interpreter_funcs::{
    FuncLaplacianSmoothing, FuncLoopSubdivision, FuncVoxelTransform, FuncVoxelTransformError,
    FuncVoxelize, FuncVoxelizeError,
};
use mesh_kernel::renderer::Msaa;

fn vertex(x: i64, y: i64, z: i64) -> Vertex {
    Vertex { position: Point { x, y, z } }
}

#[test]
fn test_tobj_to_internal_returns_correct_representation_for_single_model() {
    let model = model_from_flat(
        String::from("Test model"),
        vec![6000000, 5000000, 4000000, 3000000, 2000000, 1000000],
        vec![1, 2],
    );

    assert_eq!(model.name, "Test model");
    assert_eq!(
        model.vertices,
        vec![vertex(6000000, 5000000, 4000000), vertex(3000000, 2000000, 1000000)]
    );
    assert_eq!(model.indices, vec![1, 2]);
}

#[test]
fn test_tobj_to_internal_returns_correct_representation_for_multiple_models() {
    let models = vec![
        model_from_flat(
            String::from("Test model"),
            vec![6000000, 5000000, 4000000, 3000000, 2000000, 1000000],
            vec![1, 2],
        ),
        model_from_flat(
            String::from("Test model"),
            vec![16000000, 15000000, 14000000, 13000000, 12000000, 11000000],
            vec![3, 4],
        ),
    ];

    assert_eq!(models[0].vertices, vec![
        vertex(6000000, 5000000, 4000000),
        vertex(3000000, 2000000, 1000000)
    ]);
    assert_eq!(models[0].indices, vec![1, 2]);
    assert_eq!(models[1].vertices, vec![
        vertex(16000000, 15000000, 14000000),
        vertex(13000000, 12000000, 11000000)
    ]);
    assert_eq!(models[1].indices, vec![3, 4]);
}

/// The CRC-32 (IEEE) check value of the nine digits, as every
/// conforming implementation computes it.
#[test]
fn test_calculate_checksum_matches_crc32_check_value() {
    assert_eq!(calculate_checksum(b"123456789"), 0xCBF4_3926);
    assert_ne!(calculate_checksum(b"123456789"), calculate_checksum(b"123456780"));
    assert_eq!(calculate_checksum(b""), 0);
}

#[test]
fn test_importer_cache_round_trip() {
    let mut importer = Importer::new();
    let checksum = calculate_checksum(b"v 1 2 3");

    assert!(!importer.is_cached("model.obj", checksum));

    let models = vec![model_from_flat(String::from("m"), vec![1, 2, 3], vec![0])];
    importer.store_models(checksum, models);
    importer.record_path(String::from("model.obj"), checksum, 77);

    assert!(importer.is_cached("model.obj", checksum));
    assert!(!importer.is_cached("other.obj", checksum));
    assert!(!importer.is_cached("model.obj", checksum.wrapping_add(1)));

    let found = importer.find_path("model.obj").unwrap();
    assert_eq!(found.checksum, checksum);
    assert_eq!(found.last_modified, 77);

    let stored = importer.find_models(checksum).unwrap();
    assert_eq!(stored.len(), 1);
    assert_eq!(stored[0].name, "m");
}

#[test]
fn test_importer_error_messages() {
    assert_eq!(ImporterError::FileNotFound.message(), "File was not found.");
    assert_eq!(ImporterError::InvalidStructure.message(), "The obj file is not valid.");
    assert_eq!(ImporterError::PermissionDenied.message(), "Permission denied.");
    assert_eq!(ImporterError::Other.message(), "Unexpected error happened.");
}

#[test]
fn test_msaa_settings() {
    assert!(!Msaa::Disabled.enabled());
    assert!(Msaa::X4.enabled());
    assert!(Msaa::X8.enabled());
    assert!(Msaa::X16.enabled());
    assert_eq!(Msaa::Disabled.sample_count(), 1);
    assert_eq!(Msaa::X4.sample_count(), 4);
    assert_eq!(Msaa::X8.sample_count(), 8);
    assert_eq!(Msaa::X16.sample_count(), 16);
}

#[test]
fn test_voxelize_outcomes() {
    assert_eq!(
        FuncVoxelize::outcome(false, None).unwrap_err(),
        FuncVoxelizeError::EmptyVoxelCloud
    );
    assert_eq!(
        FuncVoxelize::outcome(true, None).unwrap_err(),
        FuncVoxelizeError::WeldFailed
    );
}

#[test]
fn test_voxel_transform_outcomes() {
    assert_eq!(
        FuncVoxelTransform::check_voxel_dimension(0).unwrap_err(),
        FuncVoxelTransformError::VoxelDimensionZero
    );
    assert!(FuncVoxelTransform::check_voxel_dimension(1).is_ok());
    assert_eq!(
        FuncVoxelTransform::outcome(None).unwrap_err(),
        FuncVoxelTransformError::TransformFailed
    );
    assert_eq!(
        FuncVoxelTransform::outcome(Some(None)).unwrap_err(),
        FuncVoxelTransformError::WeldFailed
    );
}

#[test]
fn test_relax_operation_keeps_topology() {
    let s: i64 = 1000000;
    let geometry = mesh_kernel::geometry::uv_cube_var_len([0, 0, 0], s);
    let relaxed = FuncLaplacianSmoothing::call(&geometry, 3);
    assert_eq!(relaxed.faces(), geometry.faces());
    assert_eq!(relaxed.vertices().len(), geometry.vertices().len());
    assert_eq!(relaxed.normals(), geometry.normals());
}

#[test]
fn test_loop_subdivision_plan() {
    assert_eq!(FuncLoopSubdivision::planned_iterations(0), 0);
    assert_eq!(FuncLoopSubdivision::planned_iterations(2), 2);
    assert_eq!(FuncLoopSubdivision::planned_iterations(3), 3);
    assert_eq!(FuncLoopSubdivision::planned_iterations(250), 3);
    assert!(FuncLoopSubdivision::keeps_input(0));
    assert!(!FuncLoopSubdivision::keeps_input(1));
}
