use vackrooms::air_propagation::{nearest_air_steps, propagate_air_steps, UNREACHABLE};
use vackrooms::light_bake::{GridDimensions, VoxelCoord};
use vackrooms::voxel_grid::{VoxelGrid, VOXEL_WALL};

const U: u32 = UNREACHABLE;

fn at(x: usize) -> VoxelCoord {
    VoxelCoord { x, y: 0, z: 0 }
}

#[test]
fn a_corridor_counts_steps_from_its_seed() {
    let grid = VoxelGrid::new(5, 1, 1);
    assert_eq!(propagate_air_steps(&grid, &vec![at(0)], 10), vec![0, 1, 2, 3, 4]);
    assert_eq!(propagate_air_steps(&grid, &vec![at(0)], 2), vec![0, 1, 2, U, U]);
    assert_eq!(propagate_air_steps(&grid, &vec![at(0)], 0), vec![0, U, U, U, U]);
    assert_eq!(propagate_air_steps(&grid, &vec![], 10), vec![U; 5]);
}

#[test]
fn solids_block_and_never_carry_light() {
    let mut grid = VoxelGrid::new(5, 1, 1);
    grid.set(2, 0, 0, VOXEL_WALL);
    assert_eq!(propagate_air_steps(&grid, &vec![at(0)], 10), vec![0, 1, U, U, U]);
}

#[test]
fn several_seeds_form_a_nearest_seed_envelope() {
    let grid = VoxelGrid::new(7, 1, 1);
    let dist = propagate_air_steps(&grid, &vec![at(0), at(6), at(0)], 10);
    assert_eq!(dist, vec![0, 1, 2, 3, 2, 1, 0]);
}

#[test]
fn paths_bend_around_obstacles() {
    // A 3 x 1 x 3 floor with a wall in the middle column's centre: the far
    // corner is four steps away either way round.
    let mut grid = VoxelGrid::new(3, 1, 3);
    grid.set(1, 0, 1, VOXEL_WALL);
    let dist = propagate_air_steps(&grid, &vec![VoxelCoord { x: 0, y: 0, z: 0 }], 10);
    let dims = GridDimensions::of(&grid);
    let d = |x, z| dist[dims.index(VoxelCoord { x, y: 0, z })];
    assert_eq!(d(2, 2), 4);
    assert_eq!(d(1, 1), U);
    assert_eq!(d(2, 0), 2);
    assert_eq!(d(0, 2), 2);
}

#[test]
fn a_receiver_sees_its_nearest_lit_face() {
    let mut grid = VoxelGrid::new(5, 1, 1);
    grid.set(2, 0, 0, VOXEL_WALL);
    let dist = propagate_air_steps(&grid, &vec![at(0), at(4)], 10);
    assert_eq!(dist, vec![0, 1, U, 1, 0]);
    assert_eq!(nearest_air_steps(&grid, &dist, at(2)), 1);
    let dark = propagate_air_steps(&grid, &vec![], 10);
    assert_eq!(nearest_air_steps(&grid, &dark, at(2)), U);
}
