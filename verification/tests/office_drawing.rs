use rand::rngs::StdRng;
use rand::SeedableRng;
use vackrooms::office_blueprint::{MazeCell, Room, RoomStamp};
use vackrooms::office_drawing::{
    draw_cell_slab, draw_pillars, draw_plaza, draw_wall, fill_box, furnish_room, hall_kind, light_corridors,
    hole_cm_for, light_room_ceiling, narrow_hall, random_opening_cm, MicrobiomeZone, Opening,
};
use vackrooms::voxel_grid::{
    VoxelGrid, VOXEL_AIR, VOXEL_CEILING, VOXEL_FLOOR, VOXEL_LIGHT, VOXEL_RED_LIGHT, VOXEL_WALL,
};

fn column(grid: &VoxelGrid, x: usize, z: usize) -> Vec<u8> {
    (0..grid.height()).map(|y| grid.get(x, y, z)).collect()
}

#[test]
fn a_doorway_leaves_the_wall_open_below_the_door_head() {
    let mut grid = VoxelGrid::new(12, 8, 4);
    let opening = Opening { start: 4, width: 3, solid: false, arch: false };
    draw_wall(&mut grid, true, 2, 1, 9, opening, 6, 4, VOXEL_WALL);
    // Beside the doorway the wall stands from the floor's top to the ceiling.
    assert_eq!(column(&grid, 1, 2), vec![0, 2, 2, 2, 2, 2, 2, 0]);
    assert_eq!(column(&grid, 7, 2), vec![0, 2, 2, 2, 2, 2, 2, 0]);
    // In the doorway only the lintel above the door head remains.
    for x in 4..7 {
        assert_eq!(column(&grid, x, 2), vec![0, 0, 0, 0, 2, 2, 2, 0]);
    }
    // Outside the run nothing changes.
    assert_eq!(column(&grid, 0, 2), vec![0; 8]);
    assert_eq!(column(&grid, 10, 2), vec![0; 8]);
    assert_eq!(column(&grid, 5, 1), vec![0; 8]);
}

#[test]
fn an_arch_rises_to_a_point_over_the_middle_of_the_opening() {
    let mut grid = VoxelGrid::new(4, 10, 12);
    let opening = Opening { start: 3, width: 5, solid: false, arch: true };
    draw_wall(&mut grid, false, 1, 0, 11, opening, 8, 6, VOXEL_WALL);
    // The middle of the opening is at 3 + 5 / 2 = 5.
    let base = |z: usize| (0..10).find(|&y| grid.get(1, y, z) == VOXEL_WALL).unwrap();
    assert_eq!(base(5), 6);
    assert_eq!(base(4), 5);
    assert_eq!(base(6), 5);
    assert_eq!(base(3), 4);
    assert_eq!(base(7), 4);
    assert_eq!(base(2), 1);
    assert_eq!(base(8), 1);
}

#[test]
fn a_solid_wall_ignores_its_opening() {
    let mut grid = VoxelGrid::new(8, 6, 8);
    let opening = Opening { start: 2, width: 4, solid: true, arch: false };
    draw_wall(&mut grid, true, 5, 0, 7, opening, 4, 3, VOXEL_WALL);
    for x in 0..8 {
        assert_eq!(column(&grid, x, 5), vec![0, 2, 2, 2, 2, 0]);
    }
}

#[test]
fn a_box_fill_touches_exactly_its_box() {
    let mut grid = VoxelGrid::new(6, 6, 6);
    fill_box(&mut grid, 1, 3, 2, 4, 0, 1, VOXEL_WALL);
    let mut count = 0;
    for x in 0..6 {
        for y in 0..6 {
            for z in 0..6 {
                let inside = (1..=3).contains(&x) && (2..=4).contains(&y) && z <= 1;
                assert_eq!(grid.get(x, y, z) == VOXEL_WALL, inside);
                count += inside as usize;
            }
        }
    }
    assert_eq!(count, 18);
    // An empty range fills nothing.
    let mut empty = VoxelGrid::new(3, 3, 3);
    fill_box(&mut empty, 2, 1, 0, 2, 0, 2, VOXEL_WALL);
    assert!((0..27).all(|i| empty.get(i % 3, (i / 3) % 3, i / 9) == VOXEL_AIR));
}

fn open_cell() -> MazeCell {
    MazeCell { walls: [false; 4], is_corridor: true }
}

#[test]
fn hall_runs_follow_open_walls_into_hallway_cells() {
    // A 3 by 3 grid of hallway cells with every wall open.
    let mut cells = vec![open_cell(); 9];
    assert_eq!(hall_kind(&cells, 3, 3, 1, 1), (true, true));
    // Close the centre's north and south walls: only the east-west run remains.
    cells[4].walls[0] = true;
    cells[4].walls[2] = true;
    assert_eq!(hall_kind(&cells, 3, 3, 1, 1), (false, true));
    // A neighbour that is not hallway breaks the run.
    cells[3].is_corridor = false;
    cells[5].is_corridor = false;
    assert_eq!(hall_kind(&cells, 3, 3, 1, 1), (false, false));
    // A cell that is not hallway is on no run.
    cells[0].is_corridor = false;
    assert_eq!(hall_kind(&cells, 3, 3, 0, 0), (false, false));
    // A corner cell only looks inside the grid: its north neighbour is no
    // longer hallway, its west neighbour still is.
    assert_eq!(hall_kind(&cells, 3, 3, 2, 2), (false, true));
}

#[test]
fn a_north_south_hall_keeps_walls_along_its_sides() {
    // A 30-voxel span leaves a 26-voxel hall: insets of (30 - 26) / 2 = 2.
    let mut grid = VoxelGrid::new(30, 5, 30);
    narrow_hall(&mut grid, 0, 29, 0, 29, 3, true, false, VOXEL_WALL);
    for x in 0..30 {
        let expected = x <= 2 || x >= 27;
        assert_eq!(grid.get(x, 2, 15) == VOXEL_WALL, expected, "x = {x}");
    }
    assert_eq!(grid.get(0, 0, 15), VOXEL_AIR);
    assert_eq!(grid.get(0, 4, 15), VOXEL_AIR);
}

#[test]
fn a_crossing_hall_keeps_only_its_corners() {
    let mut grid = VoxelGrid::new(30, 4, 30);
    narrow_hall(&mut grid, 0, 29, 0, 29, 2, true, true, VOXEL_WALL);
    assert_eq!(grid.get(1, 1, 1), VOXEL_WALL);
    assert_eq!(grid.get(28, 1, 28), VOXEL_WALL);
    assert_eq!(grid.get(1, 1, 15), VOXEL_AIR);
    assert_eq!(grid.get(15, 1, 1), VOXEL_AIR);
    // A cell on no run is untouched.
    let mut untouched = VoxelGrid::new(30, 4, 30);
    narrow_hall(&mut untouched, 0, 29, 0, 29, 2, false, false, VOXEL_WALL);
    assert_eq!(untouched.get(0, 1, 0), VOXEL_AIR);
}

#[test]
fn corridor_lights_sit_on_the_sixteen_voxel_lattice_over_open_floor() {
    let mut grid = VoxelGrid::new(30, 4, 30);
    for x in 0..30 {
        for z in 0..30 {
            grid.set(x, 3, z, VOXEL_CEILING);
        }
    }
    // Block the floor under one lattice point.
    grid.set(24, 1, 8, VOXEL_WALL);
    light_corridors(&mut grid);
    assert_eq!(grid.get(8, 3, 8), VOXEL_LIGHT);
    assert_eq!(grid.get(8, 3, 24), VOXEL_LIGHT);
    assert_eq!(grid.get(24, 3, 24), VOXEL_LIGHT);
    assert_eq!(grid.get(24, 3, 8), VOXEL_CEILING);
    assert_eq!(grid.get(16, 3, 8), VOXEL_CEILING);
    assert_eq!(grid.get(0, 3, 0), VOXEL_CEILING);
    let lights = (0..30).flat_map(|x| (0..30).map(move |z| (x, z))).filter(|&(x, z)| grid.get(x, 3, z) == VOXEL_LIGHT).count();
    assert_eq!(lights, 3);
}

#[test]
fn room_lights_run_down_the_middle_every_twelve_voxels() {
    let room = Room { x0: 2, x1: 8, z0: 0, z1: 40 };
    let mut single = VoxelGrid::new(10, 3, 41);
    light_room_ceiling(&mut single, &room, false);
    let lit: Vec<usize> = (0..41).filter(|&z| single.get(5, 2, z) == VOXEL_LIGHT).collect();
    assert_eq!(lit, vec![8, 20, 32]);
    assert_eq!(single.get(4, 2, 8), VOXEL_AIR);

    let mut strip = VoxelGrid::new(10, 3, 41);
    light_room_ceiling(&mut strip, &room, true);
    let lit: Vec<usize> = (0..41).filter(|&z| strip.get(5, 2, z) == VOXEL_LIGHT).collect();
    assert_eq!(lit, vec![8, 9, 10, 11, 20, 21, 22, 23, 32, 33, 34, 35]);

    // A room too short for a first row gets no light.
    let mut short = VoxelGrid::new(10, 3, 41);
    light_room_ceiling(&mut short, &Room { x0: 2, x1: 8, z0: 0, z1: 15 }, false);
    assert!((0..41).all(|z| short.get(5, 2, z) == VOXEL_AIR));
}

#[test]
fn the_plaza_is_floored_ceilinged_and_lit_every_twenty_voxels() {
    let mut grid = VoxelGrid::new(41, 5, 41);
    draw_plaza(&mut grid);
    assert_eq!(grid.get(0, 0, 0), VOXEL_FLOOR);
    assert_eq!(grid.get(0, 4, 0), VOXEL_CEILING);
    assert_eq!(grid.get(20, 4, 20), VOXEL_LIGHT);
    assert_eq!(grid.get(40, 4, 20), VOXEL_LIGHT);
    assert_eq!(grid.get(0, 4, 20), VOXEL_CEILING);
    assert_eq!(grid.get(20, 4, 0), VOXEL_CEILING);
    assert_eq!(grid.get(20, 2, 20), VOXEL_AIR);
}

#[test]
fn a_room_is_tiled_with_its_stamp_where_the_floor_is_open() {
    let stamp = RoomStamp::maintenance();
    let room = Room { x0: 0, x1: 40, z0: 0, z1: 20 };
    let mut grid = VoxelGrid::new(41, 6, 21);
    // Block the floor of the second tile's pillar cell at (14 + 2, 1, 2 + 2).
    grid.set(16, 1, 4, VOXEL_WALL);
    furnish_room(&mut grid, &room, &stamp, 2);
    // Tiles start at 2 and every 12 voxels after, while they fit 2 inside.
    // The first tile's pillar at local (2, 2) stands from 1 to height - 2.
    assert_eq!(column(&grid, 4, 4), vec![0, 2, 2, 2, 2, 0]);
    // Its table at local (4, 4) is one voxel high.
    assert_eq!(column(&grid, 6, 6), vec![0, 2, 0, 0, 0, 0]);
    // The second tile was refused: its table stays empty.
    assert_eq!(column(&grid, 18, 6), vec![0; 6]);
    // The third tile went down.
    assert_eq!(column(&grid, 28, 4), vec![0, 2, 2, 2, 2, 0]);
    // No tile fits past the far edge.
    assert_eq!(column(&grid, 40, 4), vec![0; 6]);
}

#[test]
fn a_slab_lays_floor_ceiling_and_lamps() {
    let mut rng = StdRng::seed_from_u64(1);
    let mut grid = VoxelGrid::new(21, 8, 21);
    draw_cell_slab(&mut grid, &mut rng, MicrobiomeZone::Standard, 0, 20, 0, 20, 5);
    assert_eq!(column(&grid, 3, 3), vec![1, 0, 0, 0, 0, 3, 3, 3]);
    assert_eq!(column(&grid, 10, 20), vec![1, 0, 0, 0, 4, 3, 3, 3]);

    let mut red = VoxelGrid::new(11, 8, 11);
    draw_cell_slab(&mut red, &mut rng, MicrobiomeZone::RedRoom, 0, 10, 0, 10, 5);
    assert_eq!(red.get(10, 4, 10), VOXEL_RED_LIGHT);

    let mut dark = VoxelGrid::new(11, 8, 11);
    draw_cell_slab(&mut dark, &mut rng, MicrobiomeZone::Blackout, 0, 10, 0, 10, 5);
    assert_eq!(dark.get(10, 4, 10), VOXEL_AIR);

    // An atrium keeps its ceiling open above the ceiling layer.
    let mut atrium = VoxelGrid::new(11, 8, 11);
    draw_cell_slab(&mut atrium, &mut rng, MicrobiomeZone::Atrium, 0, 10, 0, 10, 5);
    assert_eq!(column(&atrium, 10, 10), vec![1, 0, 0, 0, 4, 3, 0, 0]);
}

#[test]
fn only_interior_floor_of_a_holed_zone_drops_out() {
    let mut holes_seen = 0;
    for seed in 0..5 {
        let mut rng = StdRng::seed_from_u64(seed);
        let mut grid = VoxelGrid::new(30, 6, 30);
        draw_cell_slab(&mut grid, &mut rng, MicrobiomeZone::Holes, 0, 29, 0, 29, 4);
        for x in 0..30 {
            for z in 0..30 {
                let floor = grid.get(x, 0, z);
                if floor == VOXEL_AIR {
                    assert!(x > 5 && x < 24 && z > 5 && z < 24, "hole at ({x}, {z}) on the rim");
                    holes_seen += 1;
                } else {
                    assert_eq!(floor, VOXEL_FLOOR);
                }
            }
        }
    }
    assert!(holes_seen > 0, "one in twenty of the interior floor should drop out");
}

#[test]
fn a_pillar_field_raises_its_corners_and_part_of_its_centre() {
    let mut rng = StdRng::seed_from_u64(3);
    let mut grid = VoxelGrid::new(10, 12, 10);
    draw_pillars(&mut grid, &mut rng, 0, 9, 0, 9, 10);
    for (x, z) in [(0, 0), (9, 0), (0, 9), (9, 9)] {
        assert_eq!(column(&grid, x, z), vec![0, 2, 2, 2, 2, 2, 2, 2, 2, 2, 2, 0]);
    }
    let centre = column(&grid, 5, 5);
    assert_eq!(centre[0], VOXEL_AIR);
    assert_eq!(centre[11], VOXEL_AIR);
    assert!(centre.iter().all(|&m| m == VOXEL_AIR || m == VOXEL_WALL));
    assert_eq!(grid.get(4, 5, 4), VOXEL_AIR);
}

#[test]
fn the_width_roll_picks_narrow_standard_or_wide_doorways() {
    assert_eq!(hole_cm_for(0), 120);
    assert_eq!(hole_cm_for(14), 120);
    assert_eq!(hole_cm_for(15), 200);
    assert_eq!(hole_cm_for(84), 200);
    assert_eq!(hole_cm_for(85), 350);
    assert_eq!(hole_cm_for(99), 350);
}

#[test]
fn doorway_draws_stay_inside_the_cell_span() {
    let mut rng = StdRng::seed_from_u64(17);
    for _ in 0..200 {
        let (offset_cm, hole_cm) = random_opening_cm(&mut rng);
        assert!([120, 200, 350].contains(&hole_cm));
        assert!(offset_cm >= 50);
        assert!(offset_cm < 500 - (hole_cm + 50));
    }
}
