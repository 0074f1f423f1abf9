use rand::rngs::StdRng;
use rand::SeedableRng;
use vackrooms::office_blueprint::{
    choose_stamp, extend_corridors, non_room_cells, place_stamp, reserve_hallways, segment_rooms, try_place_room,
    validate_stamp_placement, CellRoom, MazeCell, Room, RoomStamp, StampPick,
};
use vackrooms::voxel_grid::{VoxelGrid, VOXEL_AIR, VOXEL_FLOOR, VOXEL_WALL};

fn closed_cells(n: usize) -> Vec<MazeCell> {
    vec![MazeCell { walls: [true; 4], is_corridor: false }; n]
}

fn code(stamp: &RoomStamp, x: usize, z: usize) -> u8 {
    stamp.data[z * stamp.width + x]
}

#[test]
fn stamps_have_their_documented_shapes() {
    let cubicles = RoomStamp::cubicles();
    assert_eq!((cubicles.width, cubicles.depth), (20, 20));
    assert_eq!(code(&cubicles, 5, 2), 1);
    assert_eq!(code(&cubicles, 7, 5), 1);
    assert_eq!(code(&cubicles, 15, 17), 1);
    assert_eq!(code(&cubicles, 0, 0), 0);
    assert_eq!(cubicles.data.iter().filter(|&&c| c == 1).count(), 22);

    let cafeteria = RoomStamp::cafeteria();
    assert_eq!(cafeteria.data.iter().filter(|&&c| c == 1).count(), 64);
    assert_eq!(code(&cafeteria, 21, 5), 1);

    let stairway = RoomStamp::stairway();
    assert_eq!(code(&stairway, 8, 3), 6);
    assert_eq!(code(&stairway, 9, 3), 5);
    assert_eq!(code(&stairway, 15, 3), 4);
    assert_eq!(code(&stairway, 7, 3), 0);

    let maintenance = RoomStamp::maintenance();
    assert_eq!(code(&maintenance, 7, 2), 2);
    assert_eq!(code(&maintenance, 5, 4), 3);

    let server = RoomStamp::server_room();
    assert_eq!((server.width, server.depth), (14, 20));
    assert_eq!(code(&server, 7, 4), 0);
    assert_eq!(code(&server, 7, 5), 2);

    for stamp in [
        RoomStamp::showroom(),
        RoomStamp::waiting(),
        RoomStamp::storage(),
        RoomStamp::lounge(),
    ] {
        assert_eq!(stamp.data.len(), stamp.width * stamp.depth);
        assert!(stamp.data.iter().any(|&c| c > 0));
    }
}

#[test]
fn a_stamp_only_fits_open_floor_inside_its_room() {
    let mut grid = VoxelGrid::new(40, 6, 40);
    let room = Room { x0: 2, x1: 30, z0: 2, z1: 30 };
    let stamp = RoomStamp::storage();
    assert!(validate_stamp_placement(&grid, &room, &stamp, 5, 5));
    assert!(!validate_stamp_placement(&grid, &room, &stamp, 1, 5), "starts before the room");
    assert!(!validate_stamp_placement(&grid, &room, &stamp, 20, 5), "runs past the room");
    grid.set(5 + 2, 1, 5 + 3, VOXEL_WALL);
    assert!(!validate_stamp_placement(&grid, &room, &stamp, 5, 5), "a wall stands where a shelf goes");
    grid.set(5 + 2, 1, 5 + 3, VOXEL_FLOOR);
    assert!(validate_stamp_placement(&grid, &room, &stamp, 5, 5));
}

#[test]
fn placing_a_stamp_builds_its_codes() {
    let mut grid = VoxelGrid::new(30, 8, 30);
    place_stamp(&mut grid, &RoomStamp::stairway(), 2, 2);
    assert_eq!(grid.get(2 + 10, 1, 2), VOXEL_FLOOR);
    assert_eq!(grid.get(2 + 10, 2, 2), VOXEL_FLOOR);
    assert_eq!(grid.get(2 + 10, 3, 2), VOXEL_AIR);
    assert_eq!(grid.get(2 + 9, 1, 2), VOXEL_FLOOR);
    assert_eq!(grid.get(2 + 9, 2, 2), VOXEL_AIR);
    assert_eq!(grid.get(2 + 8, 1, 2), VOXEL_AIR);

    let mut grid = VoxelGrid::new(30, 8, 30);
    place_stamp(&mut grid, &RoomStamp::showroom(), 0, 0);
    for y in 1..=6 {
        assert_eq!(grid.get(2, y, 2), VOXEL_WALL);
    }
    assert_eq!(grid.get(2, 7, 2), VOXEL_AIR);
    assert_eq!(grid.get(2, 0, 2), VOXEL_AIR);
    assert_eq!(grid.get(7, 1, 7), VOXEL_AIR);
}

#[test]
fn rooms_are_placed_only_where_they_fit_and_touch_nothing() {
    let (w, d) = (5usize, 4usize);
    let mut cells = closed_cells(w * d);
    let mut room_grid = vec![None; w * d];
    let mut rooms = Vec::new();
    let first = CellRoom { cx: 1, cz: 1, rw: 2, rd: 2 };
    assert!(try_place_room(&mut cells, &mut room_grid, &mut rooms, w, d, first));
    assert_eq!(rooms, vec![first]);
    assert_eq!(room_grid[1 * w + 1], Some(0));
    assert_eq!(room_grid[2 * w + 2], Some(0));
    // Interior walls go, boundary walls stay.
    assert_eq!(cells[1 * w + 1].walls, [true, false, false, true]);
    assert_eq!(cells[2 * w + 2].walls, [false, true, true, false]);
    assert_eq!(cells[0].walls, [true; 4]);

    let overlapping = CellRoom { cx: 2, cz: 2, rw: 2, rd: 1 };
    assert!(!try_place_room(&mut cells, &mut room_grid, &mut rooms, w, d, overlapping));
    let outside = CellRoom { cx: 4, cz: 0, rw: 2, rd: 1 };
    assert!(!try_place_room(&mut cells, &mut room_grid, &mut rooms, w, d, outside));
    assert_eq!(rooms.len(), 1);
    let second = CellRoom { cx: 3, cz: 0, rw: 2, rd: 1 };
    assert!(try_place_room(&mut cells, &mut room_grid, &mut rooms, w, d, second));
    assert_eq!(room_grid[4], Some(1));
}

#[test]
fn segmentation_replays_for_one_seed_and_keeps_rooms_disjoint() {
    let (w, d) = (8usize, 8usize);
    let run = |seed: u64| {
        let mut rng = StdRng::seed_from_u64(seed);
        let mut cells = closed_cells(w * d);
        let (rooms, room_grid) = segment_rooms(&mut rng, &mut cells, w, d);
        (rooms, room_grid, cells)
    };
    let (rooms, room_grid, cells) = run(42);
    assert_eq!(run(42), (rooms.clone(), room_grid.clone(), cells.clone()));
    assert!(!rooms.is_empty() && rooms.len() <= 15);
    for (id, room) in rooms.iter().enumerate() {
        for z in room.cz..room.cz + room.rd {
            for x in room.cx..room.cx + room.rw {
                assert_eq!(room_grid[z * w + x], Some(id));
            }
        }
    }
    let covered: usize = rooms.iter().map(|r| r.rw * r.rd).sum();
    assert_eq!(room_grid.iter().filter(|r| r.is_some()).count(), covered);
}

#[test]
fn hallways_never_enter_rooms_and_count_what_they_claim() {
    let (w, d) = (8usize, 8usize);
    let mut rng = StdRng::seed_from_u64(7);
    let mut cells = closed_cells(w * d);
    // Open every wall so runs can extend.
    for cell in cells.iter_mut() {
        cell.walls = [false; 4];
    }
    let (_, room_grid) = segment_rooms(&mut rng, &mut cells, w, d);
    let before = cells.clone();
    let free = non_room_cells(&room_grid);
    let target = (free.len() as f32 * 0.20) as usize;
    let count = reserve_hallways(&mut rng, &mut cells, &room_grid, target, w, d);
    let claimed = (0..w * d).filter(|&i| cells[i].is_corridor && !before[i].is_corridor).count();
    assert_eq!(count, claimed);
    assert!(count >= target);
    for i in 0..w * d {
        if room_grid[i].is_some() {
            assert!(!cells[i].is_corridor);
        }
        assert_eq!(cells[i].walls, before[i].walls);
    }
}

#[test]
fn a_run_stops_at_walls_and_at_rooms() {
    let (w, d) = (4usize, 1usize);
    let mut cells = vec![MazeCell { walls: [false; 4], is_corridor: false }; 4];
    cells[2].walls[1] = true; // east wall of cell 2
    let room_grid = vec![None, None, None, Some(0)];
    let count = extend_corridors(&mut cells, &room_grid, &vec![0], 10, w, d);
    assert_eq!(count, 3);
    assert!(cells[0].is_corridor && cells[1].is_corridor && cells[2].is_corridor);
    assert!(!cells[3].is_corridor);
    // With a target already met nothing more is claimed.
    let mut fresh = vec![MazeCell { walls: [false; 4], is_corridor: false }; 4];
    assert_eq!(extend_corridors(&mut fresh, &room_grid, &vec![0], 0, w, d), 0);
}

#[test]
fn the_draws_actually_vary_with_the_seed() {
    let (w, d) = (10usize, 10usize);
    let layout = |seed: u64| {
        let mut rng = StdRng::seed_from_u64(seed);
        let mut cells = closed_cells(w * d);
        segment_rooms(&mut rng, &mut cells, w, d).0
    };
    let first = layout(1);
    assert!(first.iter().any(|r| r.cx != 0 || r.cz != 0), "rooms are drawn across the grid");
    assert!(first.iter().any(|r| r.rw > 1 || r.rd > 1), "room sizes are drawn");
    assert!((2..12).any(|seed| layout(seed) != first), "different seeds draw different rooms");
}

#[test]
fn the_hallway_order_is_shuffled() {
    let (w, d) = (10usize, 10usize);
    let room_grid = vec![None; w * d];
    let claimed = |seed: u64| {
        let mut rng = StdRng::seed_from_u64(seed);
        // Every cell walled in: each claimed cell is a seed of the order.
        let mut cells = closed_cells(w * d);
        reserve_hallways(&mut rng, &mut cells, &room_grid, 5, w, d);
        (0..w * d).filter(|&i| cells[i].is_corridor).collect::<Vec<_>>()
    };
    let first = claimed(3);
    assert_eq!(first.len(), 5);
    assert_ne!(first, vec![0, 1, 2, 3, 4], "an unshuffled order would claim the first cells");
    assert!((4..14).any(|seed| claimed(seed) != first));
}

fn catalog() -> Vec<RoomStamp> {
    vec![
        RoomStamp::cubicles(),
        RoomStamp::showroom(),
        RoomStamp::waiting(),
        RoomStamp::storage(),
        RoomStamp::lounge(),
        RoomStamp::server_room(),
        RoomStamp::cafeteria(),
        RoomStamp::maintenance(),
    ]
}

#[test]
fn the_stamp_roll_picks_among_the_stamps_that_fit() {
    let stamps = catalog();
    let room = Room { x0: 0, x1: 16, z0: 0, z1: 16 };
    // Showroom, storage and maintenance fit a 16 x 16 span.
    assert_eq!(choose_stamp(&stamps, &room, 0, false), Some(StampPick::Catalog(1)));
    assert_eq!(choose_stamp(&stamps, &room, 4, false), Some(StampPick::Catalog(3)));
    assert_eq!(choose_stamp(&stamps, &room, 8, false), Some(StampPick::Catalog(7)));
    assert_eq!(choose_stamp(&stamps, &room, usize::MAX, false), Some(StampPick::Catalog(1)));
}

#[test]
fn the_stairs_roll_overrides_a_fitting_stamp() {
    let stamps = catalog();
    let room = Room { x0: 10, x1: 40, z0: 3, z1: 33 };
    assert_eq!(choose_stamp(&stamps, &room, 5, true), Some(StampPick::Stairway));
}

#[test]
fn a_room_too_small_for_every_stamp_gets_none() {
    let stamps = catalog();
    let room = Room { x0: 4, x1: 13, z0: 4, z1: 40 };
    assert_eq!(choose_stamp(&stamps, &room, 3, true), None);
    assert_eq!(choose_stamp(&stamps, &room, 3, false), None);
    assert_eq!(choose_stamp(&Vec::new(), &Room { x0: 0, x1: 99, z0: 0, z1: 99 }, 0, false), None);
}
