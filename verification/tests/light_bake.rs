use vackrooms::light_bake::{
    clear_previous_bake, exposed_air_cell_below, exposed_downward_air_cells, face_neighbors,
    GridDimensions, InvalidVoxelLightingSettings, VoxelCoord,
};
use vackrooms::voxel_grid::{VoxelGrid, VOXEL_LIGHT, VOXEL_RED_LIGHT, VOXEL_WALL};

#[test]
fn rebaking_starts_from_a_cleared_light_field() {
    let mut grid = VoxelGrid::new(4, 3, 2);
    grid.set(1, 1, 1, VOXEL_WALL);
    grid.set_light_rgb(0, 2, 0, [15, 14, 11]);
    grid.set_light_rgb(3, 1, 1, [1, 2, 3]);
    grid.set_face_occlusion(1, 1, 1, 7);
    clear_previous_bake(&mut grid);
    for z in 0..2 {
        for y in 0..3 {
            for x in 0..4 {
                assert_eq!(grid.get_light_rgb(x, y, z), [0; 3], "stale light at ({x}, {y}, {z})");
            }
        }
    }
    assert_eq!(grid.get(1, 1, 1), VOXEL_WALL);
    assert_eq!(grid.get_face_occlusion(1, 1, 1), 7);
}

#[test]
fn only_a_downward_exposed_fixture_seeds_light() {
    let mut grid = VoxelGrid::new(3, 3, 1);
    // A ceiling fixture over air.
    grid.set(0, 2, 0, VOXEL_LIGHT);
    // A fixture on the floor.
    grid.set(1, 0, 0, VOXEL_LIGHT);
    // A fixture buried above a wall.
    grid.set(2, 2, 0, VOXEL_LIGHT);
    grid.set(2, 1, 0, VOXEL_WALL);
    let at = |x, y| VoxelCoord { x, y, z: 0 };
    assert_eq!(exposed_air_cell_below(&grid, at(0, 2), VOXEL_LIGHT), Some(at(0, 1)));
    assert_eq!(exposed_air_cell_below(&grid, at(1, 0), VOXEL_LIGHT), None);
    assert_eq!(exposed_air_cell_below(&grid, at(2, 2), VOXEL_LIGHT), None);
    assert_eq!(exposed_air_cell_below(&grid, at(0, 2), VOXEL_RED_LIGHT), None);
    assert_eq!(exposed_downward_air_cells(&grid, VOXEL_LIGHT), vec![at(0, 1)]);
    assert!(exposed_downward_air_cells(&grid, VOXEL_RED_LIGHT).is_empty());
}

#[test]
fn face_neighbours_come_in_a_fixed_order_and_stay_on_the_grid() {
    let dims = GridDimensions { width: 3, height: 3, depth: 3 };
    let c = |x, y, z| VoxelCoord { x, y, z };
    assert_eq!(
        face_neighbors(c(1, 1, 1), dims),
        vec![c(2, 1, 1), c(0, 1, 1), c(1, 2, 1), c(1, 0, 1), c(1, 1, 2), c(1, 1, 0)]
    );
    assert_eq!(face_neighbors(c(0, 0, 0), dims), vec![c(1, 0, 0), c(0, 1, 0), c(0, 0, 1)]);
    assert_eq!(face_neighbors(c(2, 2, 2), dims), vec![c(1, 2, 2), c(2, 1, 2), c(2, 2, 1)]);
}

#[test]
fn grid_dimensions_match_the_grid_storage_order() {
    let grid = VoxelGrid::new(5, 3, 4);
    let dims = GridDimensions::of(&grid);
    assert_eq!(dims.volume(), 60);
    assert_eq!(dims.index(VoxelCoord { x: 1, y: 2, z: 3 }), 2 * 20 + 3 * 5 + 1);
}

#[test]
fn invalid_settings_explain_themselves() {
    assert_eq!(
        InvalidVoxelLightingSettings::VoxelSize.message(),
        "voxel size must be finite and greater than zero"
    );
    assert_eq!(
        InvalidVoxelLightingSettings::MaxRange.message(),
        "maximum light range must be finite and greater than zero"
    );
}
