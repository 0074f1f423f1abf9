use vackrooms::resolution::{
    check_resolution, svo_depth_for_axis, ResolutionError, MAX_DENSE_CHUNK_COLUMNS, MAX_DENSE_CHUNK_VOXELS,
    MAX_SUPPORTED_SVO_DEPTH,
};

/// Dense height for the tallest interior, 12 units, at `voxel_size`.
fn height_voxels(voxel_size: f64) -> u64 {
    (12.0 / voxel_size).ceil() as u64 + 2
}

#[test]
fn svo_depth_matches_the_profile_values() {
    // The low profile has 50 cells per axis, the high profile 200.
    assert_eq!(svo_depth_for_axis(50), 6);
    assert_eq!(svo_depth_for_axis(200), 8);
    assert_eq!(svo_depth_for_axis(25), 5);
    assert_eq!(svo_depth_for_axis(1), 0);
    assert_eq!(svo_depth_for_axis(0), 0);
    assert_eq!(svo_depth_for_axis(256), 8);
    assert_eq!(svo_depth_for_axis(257), 9);
    assert_eq!(svo_depth_for_axis(u32::MAX), 32);
    assert_eq!(svo_depth_for_axis(0x8000_0000), 31);
}

#[test]
fn supported_profile_resolutions_pass() {
    // 10-unit chunks at 0.2, 0.1, 0.05; 20-unit chunks at 0.4, 0.2, 0.1.
    for (axis, voxel) in [(50, 0.2), (100, 0.1), (200, 0.05), (50, 0.4), (100, 0.2), (200, 0.1)] {
        assert_eq!(check_resolution(axis, height_voxels(voxel)), Ok(()));
    }
}

#[test]
fn an_odd_axis_cannot_tile_the_half_resolution_proxy() {
    assert_eq!(
        check_resolution(25, height_voxels(0.4)),
        Err(ResolutionError::DoesNotTileProgressiveLod { fine_axis_voxels: 25, divisor: 2 })
    );
}

#[test]
fn resolution_bounds_octree_depth_and_dense_memory() {
    assert_eq!(
        check_resolution(400, height_voxels(0.05)),
        Err(ResolutionError::SvoDepthExceedsLimit { required: 9, maximum: MAX_SUPPORTED_SVO_DEPTH })
    );
    assert_eq!(
        check_resolution(202, height_voxels(1.0)),
        Err(ResolutionError::DenseChunkBudgetExceeded {
            required_columns: 41_616,
            maximum_columns: MAX_DENSE_CHUNK_COLUMNS,
        })
    );
    match check_resolution(200, height_voxels(0.01)) {
        Err(ResolutionError::DenseVoxelBudgetExceeded { required_voxels, maximum_voxels }) => {
            assert!(required_voxels > MAX_DENSE_CHUNK_VOXELS);
            assert_eq!(maximum_voxels, MAX_DENSE_CHUNK_VOXELS);
        }
        other => panic!("expected dense voxel budget error, got {other:?}"),
    }
    assert_eq!(
        check_resolution(200, u64::MAX),
        Err(ResolutionError::DenseVoxelBudgetExceeded {
            required_voxels: u64::MAX,
            maximum_voxels: MAX_DENSE_CHUNK_VOXELS,
        })
    );
}
