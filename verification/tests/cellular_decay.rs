use vackrooms::cellular_decay::{step_cellular_decay, DecayRules};
use vackrooms::voxel_grid::{
    VoxelGrid, VOXEL_AGED_WALLPAPER, VOXEL_DAMAGED_WALL, VOXEL_DRY_CARPET, VOXEL_FLUID,
    VOXEL_STICKY_CARPET, VOXEL_WALL,
};

fn damp_ring(grid: &mut VoxelGrid, x: usize, z: usize, count: usize) {
    let offsets = [
        (-1i64, -1i64),
        (0, -1),
        (1, -1),
        (-1, 0),
        (1, 0),
        (-1, 1),
        (0, 1),
        (1, 1),
    ];
    for &(dx, dz) in offsets.iter().take(count) {
        grid.set((x as i64 + dx) as usize, 0, (z as i64 + dz) as usize, VOXEL_FLUID);
    }
}

#[test]
fn surrounded_dry_carpet_saturates_and_isolated_carpet_stays_dry() {
    let mut grid = VoxelGrid::new(8, 1, 8);
    grid.set(2, 0, 2, VOXEL_DRY_CARPET);
    damp_ring(&mut grid, 2, 2, 3);
    grid.set(6, 0, 6, VOXEL_DRY_CARPET);

    let changed = step_cellular_decay(&mut grid, &DecayRules::default());
    assert_eq!(changed, 1);
    assert_eq!(grid.get(2, 0, 2), VOXEL_STICKY_CARPET);
    assert_eq!(grid.get(6, 0, 6), VOXEL_DRY_CARPET);
}

#[test]
fn only_air_exposed_walls_grow_aged_wallpaper() {
    let mut grid = VoxelGrid::new(8, 1, 8);
    grid.set(2, 0, 2, VOXEL_WALL);
    damp_ring(&mut grid, 2, 2, 2);
    grid.set(6, 0, 6, VOXEL_WALL);
    damp_ring(&mut grid, 6, 6, 2);
    for (dx, dz) in [(1i64, -1i64), (-1, 0), (1, 0), (-1, 1), (0, 1), (1, 1)] {
        grid.set((6 + dx) as usize, 0, (6 + dz) as usize, VOXEL_WALL);
    }

    step_cellular_decay(&mut grid, &DecayRules::default());
    assert_eq!(grid.get(2, 0, 2), VOXEL_AGED_WALLPAPER);
    assert_eq!(grid.get(6, 0, 6), VOXEL_WALL, "buried wall must not age");
}

#[test]
fn deeply_damp_wallpaper_crumbles() {
    let mut grid = VoxelGrid::new(8, 1, 8);
    grid.set(3, 0, 3, VOXEL_AGED_WALLPAPER);
    damp_ring(&mut grid, 3, 3, 4);
    step_cellular_decay(&mut grid, &DecayRules::default());
    assert_eq!(grid.get(3, 0, 3), VOXEL_DAMAGED_WALL);
}

#[test]
fn transitions_read_the_previous_generation_only() {
    let mut grid = VoxelGrid::new(10, 1, 10);
    grid.set(4, 0, 4, VOXEL_DRY_CARPET);
    damp_ring(&mut grid, 4, 4, 3);
    grid.set(5, 0, 5, VOXEL_DRY_CARPET);
    let changed = step_cellular_decay(&mut grid, &DecayRules::default());
    assert_eq!(changed, 1, "only B changes in generation one");
    assert_eq!(grid.get(5, 0, 5), VOXEL_DRY_CARPET);
}

#[test]
fn quiet_grids_are_a_fixpoint() {
    let mut grid = VoxelGrid::new(6, 2, 6);
    grid.set(1, 0, 1, VOXEL_WALL);
    grid.set(2, 0, 2, VOXEL_DRY_CARPET);
    assert_eq!(step_cellular_decay(&mut grid, &DecayRules::default()), 0);
}

#[test]
fn stepping_until_quiet_changes_each_cell_at_most_twice() {
    // A wet strip beside alternating walls and carpet, open to air beyond.
    let mut grid = VoxelGrid::new(6, 1, 4);
    for x in 0..6 {
        grid.set(x, 0, 0, VOXEL_FLUID);
        grid.set(x, 0, 1, if x % 2 == 0 { VOXEL_WALL } else { VOXEL_DRY_CARPET });
    }
    let volume = grid.width() * grid.height() * grid.depth();
    let rules = DecayRules { carpet_saturates_at: 1, wall_ages_at: 1, wallpaper_crumbles_at: 1 };
    let mut total = 0;
    let mut calls = 0;
    loop {
        calls += 1;
        let changed = step_cellular_decay(&mut grid, &rules);
        if changed == 0 {
            break;
        }
        total += changed;
    }
    // Three walls age and crumble, three carpets saturate.
    assert_eq!(total, 9);
    assert_eq!(calls, 3);
    assert!(total <= 2 * volume);
    for x in 0..6 {
        let expected = if x % 2 == 0 { VOXEL_DAMAGED_WALL } else { VOXEL_STICKY_CARPET };
        assert_eq!(grid.get(x, 0, 1), expected);
    }
}
