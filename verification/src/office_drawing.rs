//! Drawing the office maze into voxels: walls with doorways and arches,
//! narrowed halls, ceiling lights and furnished rooms.
//!
//! Every routine here works on voxel coordinates already derived from the
//! chunk's world-space layout, and states exactly which voxels it writes.

use vstd::prelude::*;
use crate::office_blueprint::{
    draw_below, fill_column, MazeCell, Room, RoomStamp, placement_ok, place_stamp, stamped_material, validate_stamp_placement,
};
use crate::voxel_grid::{
    GridView, VoxelGrid, VOXEL_AIR, VOXEL_CEILING, VOXEL_FLOOR, VOXEL_LIGHT, VOXEL_RED_LIGHT, VOXEL_WALL,
};
use rand::rngs::StdRng;
use rand::RngExt;

verus! {

/// An opening in a wall run: `width` voxels from `start`. A `solid` wall
/// ignores it; an `arch` opening rises in a point over its middle.
#[derive(Debug, Clone, Copy, PartialEq, Eq)]
pub struct Opening {
    pub start: usize,
    pub width: usize,
    pub solid: bool,
    pub arch: bool,
}

/// The doorway width, in centimetres, that a width roll selects: narrow
/// below 15, standard below 85, wide from there on.
pub open spec fn hole_cm_spec(choice: int) -> u32 {
    if choice < 15 {
        120
    } else if choice < 85 {
        200
    } else {
        350
    }
}

/// The exclusive upper bound, in centimetres, of a doorway's offset within
/// the 5 m cell span, keeping half a metre clear past the doorway.
pub open spec fn max_offset_cm_spec(hole_cm: u32) -> int {
    if hole_cm + 50 >= 500 {
        0
    } else {
        500 - (hole_cm + 50)
    }
}

pub fn hole_cm_for(choice: usize) -> (cm: u32)
    ensures
        cm == hole_cm_spec(choice as int),
{
    if choice < 15 {
        120
    } else if choice < 85 {
        200
    } else {
        350
    }
}

/// Draws a doorway for a wall between cells, measured in centimetres of the
/// cell span so every resolution picks the same door: its width from a roll
/// in `0..100`, then its offset from `50` up to the bound that width leaves
/// (exactly `50` when no room is left). Returns `(offset_cm, hole_cm)`.
pub fn random_opening_cm(rng: &mut StdRng) -> (opening: (u32, u32))
    ensures
        exists|choice: int| 0 <= choice < 100 && opening.1 == #[trigger] hole_cm_spec(choice),
        max_offset_cm_spec(opening.1) > 50 ==> 50 <= opening.0 < max_offset_cm_spec(opening.1),
        max_offset_cm_spec(opening.1) <= 50 ==> opening.0 == 50,
{
    let choice = draw_below(rng, 0, 100);
    let hole_cm = hole_cm_for(choice);
    let max_offset_cm: u32 = 500u32.saturating_sub(hole_cm + 50);
    let offset_cm: u32 = if max_offset_cm > 50 {
        draw_below(rng, 50, max_offset_cm as usize) as u32
    } else {
        50
    };
    proof {
        assert(0 <= choice < 100 && hole_cm == hole_cm_spec(choice as int));
    }
    (offset_cm, hole_cm)
}

/// The lowest height a wall with opening `o` fills at position `along` of
/// its run: the floor's top (1) beside the opening or in a solid wall, the
/// door head (`door_max_y`) over a doorway, and under an arch the door head
/// lowered by the distance from the opening's middle.
pub open spec fn wall_base(o: Opening, along: int, door_max_y: int) -> int {
    if o.solid || !(o.start <= along < o.start + o.width) {
        1
    } else if o.arch {
        let center = o.start + o.width / 2;
        let dx = if along >= center {
            along - center
        } else {
            center - along
        };
        if door_max_y >= dx {
            door_max_y - dx
        } else {
            0
        }
    } else {
        door_max_y
    }
}

/// The voxel `(x, z)` lies on the wall run from `lo` to `hi` along x at
/// `z == fixed` (`along_x`), or along z at `x == fixed`; `along` is its
/// position in the run.
pub open spec fn on_run(along_x: bool, fixed: int, lo: int, hi: int, x: int, z: int) -> bool {
    if along_x {
        z == fixed && lo <= x <= hi
    } else {
        x == fixed && lo <= z <= hi
    }
}

/// The position of `(x, z)` along a run.
pub open spec fn run_pos(along_x: bool, x: int, z: int) -> int {
    if along_x {
        x
    } else {
        z
    }
}

/// What a wall run leaves at `(x, y, z)` of a grid that held `old` there.
pub open spec fn walled_material(
    along_x: bool,
    fixed: int,
    lo: int,
    hi: int,
    o: Opening,
    wall_max_y: int,
    door_max_y: int,
    material: u8,
    old: u8,
    x: int,
    y: int,
    z: int,
) -> u8 {
    if on_run(along_x, fixed, lo, hi, x, z) && wall_base(o, run_pos(along_x, x, z), door_max_y) <= y <= wall_max_y {
        material
    } else {
        old
    }
}

/// Draws a wall run of `material` from `lo` to `hi` (inclusive) along x at
/// `z == fixed`, or along z at `x == fixed`, up to `wall_max_y`, leaving the
/// opening `o` as a doorway or an arch.
pub fn draw_wall(
    grid: &mut VoxelGrid,
    along_x: bool,
    fixed: usize,
    lo: usize,
    hi: usize,
    o: Opening,
    wall_max_y: usize,
    door_max_y: usize,
    material: u8,
)
    requires
        old(grid).wf(),
        along_x ==> hi < old(grid)@.width && fixed < old(grid)@.depth,
        !along_x ==> hi < old(grid)@.depth && fixed < old(grid)@.width,
        wall_max_y < old(grid)@.height,
        o.start + o.width <= usize::MAX,
    ensures
        final(grid).wf(),
        final(grid)@.same_shape(old(grid)@),
        final(grid)@.light == old(grid)@.light,
        final(grid)@.occlusion == old(grid)@.occlusion,
        forall|x: int, y: int, z: int|
            old(grid)@.in_bounds(x, y, z) ==> #[trigger] final(grid)@.material(x, y, z) == walled_material(
                along_x,
                fixed as int,
                lo as int,
                hi as int,
                o,
                wall_max_y as int,
                door_max_y as int,
                material,
                old(grid)@.material(x, y, z),
                x,
                y,
                z,
            ),
{
    let ghost start = grid@;
    if lo > hi {
        return;
    }
    let mut along = lo;
    while along <= hi
        invariant
            grid.wf(),
            start.wf(),
            grid@.same_shape(start),
            grid@.light == start.light,
            grid@.occlusion == start.occlusion,
            along_x ==> hi < start.width && fixed < start.depth,
            !along_x ==> hi < start.depth && fixed < start.width,
            wall_max_y < start.height,
            o.start + o.width <= usize::MAX,
            lo <= along,
            along <= hi + 1,
            forall|x: int, y: int, z: int|
                start.in_bounds(x, y, z) ==> #[trigger] grid@.material(x, y, z) == walled_material(
                    along_x,
                    fixed as int,
                    lo as int,
                    along - 1,
                    o,
                    wall_max_y as int,
                    door_max_y as int,
                    material,
                    start.material(x, y, z),
                    x,
                    y,
                    z,
                ),
        decreases hi + 1 - along,
    {
        let in_hole = along >= o.start && along < o.start + o.width;
        let base = if o.solid || !in_hole {
            1
        } else if o.arch {
            let center = o.start + o.width / 2;
            let dx = if along >= center {
                along - center
            } else {
                center - along
            };
            if door_max_y >= dx {
                door_max_y - dx
            } else {
                0
            }
        } else {
            door_max_y
        };
        let ghost before = grid@;
        let (x, z) = if along_x {
            (along, fixed)
        } else {
            (fixed, along)
        };
        if base <= wall_max_y {
            fill_column(grid, x, z, base, wall_max_y, material);
        }
        proof {
            assert(base == wall_base(o, along as int, door_max_y as int));
        }
        along = along + 1;
    }
}

/// Fills the box `x0..=x1` by `y0..=y1` by `z0..=z1` with `material`.
pub fn fill_box(grid: &mut VoxelGrid, x0: usize, x1: usize, y0: usize, y1: usize, z0: usize, z1: usize, material: u8)
    requires
        old(grid).wf(),
        x1 < old(grid)@.width,
        y1 < old(grid)@.height,
        z1 < old(grid)@.depth,
    ensures
        final(grid).wf(),
        final(grid)@.same_shape(old(grid)@),
        final(grid)@.light == old(grid)@.light,
        final(grid)@.occlusion == old(grid)@.occlusion,
        forall|x: int, y: int, z: int|
            old(grid)@.in_bounds(x, y, z) ==> #[trigger] final(grid)@.material(x, y, z) == if x0 <= x <= x1 && y0
                <= y <= y1 && z0 <= z <= z1 {
                material
            } else {
                old(grid)@.material(x, y, z)
            },
{
    let ghost start = grid@;
    if y0 > y1 || x0 > x1 || z0 > z1 {
        return;
    }
    let mut x = x0;
    while x <= x1
        invariant
            grid.wf(),
            start.wf(),
            grid@.same_shape(start),
            grid@.light == start.light,
            grid@.occlusion == start.occlusion,
            x1 < start.width,
            y0 <= y1 < start.height,
            z1 < start.depth,
            x0 <= x <= x1 + 1,
            z0 <= z1,
            forall|a: int, b: int, c: int|
                start.in_bounds(a, b, c) ==> #[trigger] grid@.material(a, b, c) == if x0 <= a < x && y0 <= b <= y1
                    && z0 <= c <= z1 {
                    material
                } else {
                    start.material(a, b, c)
                },
        decreases x1 + 1 - x,
    {
        let ghost row_start = grid@;
        let mut z = z0;
        while z <= z1
            invariant
                grid.wf(),
                start.wf(),
                grid@.same_shape(start),
                grid@.light == start.light,
                grid@.occlusion == start.occlusion,
                x0 <= x <= x1,
                x1 < start.width,
                y0 <= y1 < start.height,
                z1 < start.depth,
                z0 <= z <= z1 + 1,
                forall|a: int, b: int, c: int|
                    start.in_bounds(a, b, c) ==> #[trigger] grid@.material(a, b, c) == if y0 <= b <= y1 && ((x0 <= a
                        < x && z0 <= c <= z1) || (a == x && z0 <= c < z)) {
                        material
                    } else {
                        start.material(a, b, c)
                    },
            decreases z1 + 1 - z,
        {
            fill_column(grid, x, z, y0, y1, material);
            z = z + 1;
        }
        x = x + 1;
    }
}

/// Whether the hallway cell `(cx, cz)` continues a north-south run and an
/// east-west run: whether an open wall on that axis leads to another
/// hallway cell. A cell that is not hallway continues neither.
pub open spec fn hall_runs(cells: Seq<MazeCell>, w: int, d: int, cx: int, cz: int) -> (bool, bool) {
    let cell = cells[cz * w + cx];
    if !cell.is_corridor {
        (false, false)
    } else {
        let north = !cell.walls[0] && cz > 0 && cells[(cz - 1) * w + cx].is_corridor;
        let south = !cell.walls[2] && cz < d - 1 && cells[(cz + 1) * w + cx].is_corridor;
        let east = !cell.walls[1] && cx < w - 1 && cells[cz * w + cx + 1].is_corridor;
        let west = !cell.walls[3] && cx > 0 && cells[cz * w + cx - 1].is_corridor;
        (north || south, east || west)
    }
}

/// Whether the hallway cell `(cx, cz)` of the `w` by `d` cell grid is part
/// of a north-south run, and of an east-west run, of hallway cells.
pub fn hall_kind(cells: &Vec<MazeCell>, w: usize, d: usize, cx: usize, cz: usize) -> (r: (bool, bool))
    requires
        cells@.len() == w * d,
        cx < w,
        cz < d,
    ensures
        r == hall_runs(cells@, w as int, d as int, cx as int, cz as int),
{
    let _n = cells.len();
    proof {
        lemma_cell_at(w as int, d as int, cx as int, cz as int);
        if cz > 0 {
            lemma_cell_at(w as int, d as int, cx as int, cz - 1);
        }
        if cz + 1 < d {
            lemma_cell_at(w as int, d as int, cx as int, cz + 1);
        }
        if cx > 0 {
            lemma_cell_at(w as int, d as int, cx - 1, cz as int);
        }
        if cx + 1 < w {
            lemma_cell_at(w as int, d as int, cx + 1, cz as int);
        }
    }
    let cell = cells[cz * w + cx];
    if !cell.is_corridor {
        return (false, false);
    }
    let north = !cell.walls[0] && cz > 0 && cells[(cz - 1) * w + cx].is_corridor;
    let south = !cell.walls[2] && cz + 1 < d && cells[(cz + 1) * w + cx].is_corridor;
    let east = !cell.walls[1] && cx + 1 < w && cells[cz * w + cx + 1].is_corridor;
    let west = !cell.walls[3] && cx > 0 && cells[cz * w + cx - 1].is_corridor;
    (north || south, east || west)
}

proof fn lemma_cell_at(w: int, d: int, x: int, z: int)
    requires
        0 <= x < w,
        0 <= z < d,
    ensures
        0 <= z * w + x < w * d,
{
    assert(0 <= z * w <= (d - 1) * w) by (nonlinear_arith)
        requires
            0 <= z < d,
            w > 0,
    ;
    assert((d - 1) * w + w == w * d) by (nonlinear_arith);
}

/// How far a hall's side walls stand in from a cell span of `lo..=hi`:
/// they leave a 26-voxel corridor, or the whole span when it is narrower.
pub open spec fn hall_inset(lo: int, hi: int) -> int {
    let span = hi - lo + 1;
    (if span > 26 {
        span - 26
    } else {
        0
    }) / 2
}

/// The column `(x, z)` of the cell `x0..=x1` by `z0..=z1` is filled to
/// narrow a hall: a north-south hall keeps walls along its west and east
/// sides, an east-west hall along its north and south sides, and a cell on
/// both runs keeps only its four corners.
pub open spec fn hall_filled(x0: int, x1: int, z0: int, z1: int, ns: bool, ew: bool, x: int, z: int) -> bool {
    let ix = hall_inset(x0, x1);
    let iz = hall_inset(z0, z1);
    let side_x = (x0 <= x <= x0 + ix) || (x1 - ix <= x <= x1);
    let side_z = (z0 <= z <= z0 + iz) || (z1 - iz <= z <= z1);
    let in_x = x0 <= x <= x1;
    let in_z = z0 <= z <= z1;
    if ns && !ew {
        side_x && in_z
    } else if ew && !ns {
        in_x && side_z
    } else if ns && ew {
        side_x && side_z
    } else {
        false
    }
}

/// Narrows the cell `x0..=x1` by `z0..=z1` into a hall for the runs it is
/// part of, filling the columns [`hall_filled`] names from the floor's top
/// to `wall_max_y` with `material`.
pub fn narrow_hall(
    grid: &mut VoxelGrid,
    x0: usize,
    x1: usize,
    z0: usize,
    z1: usize,
    wall_max_y: usize,
    ns: bool,
    ew: bool,
    material: u8,
)
    requires
        old(grid).wf(),
        x0 <= x1 < old(grid)@.width,
        z0 <= z1 < old(grid)@.depth,
        wall_max_y < old(grid)@.height,
    ensures
        final(grid).wf(),
        final(grid)@.same_shape(old(grid)@),
        final(grid)@.light == old(grid)@.light,
        final(grid)@.occlusion == old(grid)@.occlusion,
        forall|x: int, y: int, z: int|
            old(grid)@.in_bounds(x, y, z) ==> #[trigger] final(grid)@.material(x, y, z) == if hall_filled(
                x0 as int,
                x1 as int,
                z0 as int,
                z1 as int,
                ns,
                ew,
                x,
                z,
            ) && 1 <= y <= wall_max_y {
                material
            } else {
                old(grid)@.material(x, y, z)
            },
{
    let ghost start = grid@;
    let span_x = x1 - x0 + 1;
    let span_z = z1 - z0 + 1;
    let ix = (if span_x > 26 { span_x - 26 } else { 0 }) / 2;
    let iz = (if span_z > 26 { span_z - 26 } else { 0 }) / 2;
    proof {
        assert(ix == hall_inset(x0 as int, x1 as int));
        assert(iz == hall_inset(z0 as int, z1 as int));
    }
    if ns && !ew {
        fill_box(grid, x0, x0 + ix, 1, wall_max_y, z0, z1, material);
        fill_box(grid, x1 - ix, x1, 1, wall_max_y, z0, z1, material);
    } else if ew && !ns {
        fill_box(grid, x0, x1, 1, wall_max_y, z0, z0 + iz, material);
        fill_box(grid, x0, x1, 1, wall_max_y, z1 - iz, z1, material);
    } else if ns && ew {
        fill_box(grid, x0, x0 + ix, 1, wall_max_y, z0, z0 + iz, material);
        fill_box(grid, x1 - ix, x1, 1, wall_max_y, z0, z0 + iz, material);
        fill_box(grid, x0, x0 + ix, 1, wall_max_y, z1 - iz, z1, material);
        fill_box(grid, x1 - ix, x1, 1, wall_max_y, z1 - iz, z1, material);
    }
}

/// A coordinate of the corridor-light lattice: every 16 voxels from 8.
pub open spec fn on_light_lattice(v: int) -> bool {
    v >= 8 && (v - 8) % 16 == 0
}

/// Puts a light into the top layer wherever the corridor-light lattice
/// meets a ceiling above an open floor, and nowhere else.
pub fn light_corridors(grid: &mut VoxelGrid)
    requires
        old(grid).wf(),
        old(grid)@.height >= 2,
    ensures
        final(grid).wf(),
        final(grid)@.same_shape(old(grid)@),
        final(grid)@.light == old(grid)@.light,
        final(grid)@.occlusion == old(grid)@.occlusion,
        forall|x: int, y: int, z: int|
            old(grid)@.in_bounds(x, y, z) ==> #[trigger] final(grid)@.material(x, y, z) == if y == old(grid)@.height
                - 1 && on_light_lattice(x) && on_light_lattice(z) && old(grid)@.material(x, y, z) == VOXEL_CEILING
                && old(grid)@.material(x, 1, z) == VOXEL_AIR {
                VOXEL_LIGHT
            } else {
                old(grid)@.material(x, y, z)
            },
{
    let ghost start = grid@;
    let (w, h, d) = (grid.width(), grid.height(), grid.depth());
    let top = h - 1;
    let mut cz: usize = 8;
    while cz < d
        invariant
            grid.wf(),
            start.wf(),
            grid@.same_shape(start),
            grid@.light == start.light,
            grid@.occlusion == start.occlusion,
            w == start.width,
            h == start.height,
            d == start.depth,
            h >= 2,
            top == h - 1,
            cz >= 8,
            cz < d ==> on_light_lattice(cz as int),
            forall|x: int, y: int, z: int|
                start.in_bounds(x, y, z) ==> #[trigger] grid@.material(x, y, z) == if y == top && on_light_lattice(x)
                    && on_light_lattice(z) && z < cz && start.material(x, y, z) == VOXEL_CEILING && start.material(
                    x,
                    1,
                    z,
                ) == VOXEL_AIR {
                    VOXEL_LIGHT
                } else {
                    start.material(x, y, z)
                },
        decreases d - cz,
    {
        let mut cx: usize = 8;
        while cx < w
            invariant
                grid.wf(),
                start.wf(),
                grid@.same_shape(start),
                grid@.light == start.light,
                grid@.occlusion == start.occlusion,
                w == start.width,
                h == start.height,
                d == start.depth,
                h >= 2,
                top == h - 1,
                cz < d,
                on_light_lattice(cz as int),
                cx >= 8,
                cx < w ==> on_light_lattice(cx as int),
                forall|x: int, y: int, z: int|
                    start.in_bounds(x, y, z) ==> #[trigger] grid@.material(x, y, z) == if y == top
                        && on_light_lattice(x) && on_light_lattice(z) && (z < cz || (z == cz && x < cx))
                        && start.material(x, y, z) == VOXEL_CEILING && start.material(x, 1, z) == VOXEL_AIR {
                        VOXEL_LIGHT
                    } else {
                        start.material(x, y, z)
                    },
            decreases w - cx,
        {
            proof {
                assert(grid@.material(cx as int, top as int, cz as int) == start.material(cx as int, top as int, cz as int));
                if top != 1 {
                    assert(grid@.material(cx as int, 1, cz as int) == start.material(cx as int, 1, cz as int));
                }
            }
            if grid.get(cx, top, cz) == VOXEL_CEILING && grid.get(cx, 1, cz) == VOXEL_AIR {
                grid.set(cx, top, cz, VOXEL_LIGHT);
            }
            let next = if w - cx > 16 {
                cx + 16
            } else {
                w
            };
            proof {
                assert forall|x: int| cx < x < next implies !on_light_lattice(x) by {
                    assert(x - 8 < cx - 8 + 16);
                }
            }
            cx = next;
        }
        let next = if d - cz > 16 {
            cz + 16
        } else {
            d
        };
        proof {
            assert forall|z: int| cz < z < next implies !on_light_lattice(z) by {
                assert(z - 8 < cz - 8 + 16);
            }
        }
        cz = next;
    }
}

/// Whether a room's ceiling light falls at `(x, z)`: down the room's middle
/// column, in rows every 12 voxels from 8 past its near edge up to 8 short
/// of its far edge, each row a single light or, as a strip, four in a row
/// cut at the room's far edge.
pub open spec fn room_light_at(room: Room, is_strip: bool, x: int, z: int) -> bool {
    let first = room.z0 + 8;
    let t = z - first;
    let last = if room.z1 >= 8 {
        room.z1 - 8
    } else {
        0
    };
    &&& x == (room.x0 + room.x1) / 2
    &&& t >= 0
    &&& first + 12 * (t / 12) <= last
    &&& if is_strip {
        t % 12 < 4 && z <= room.z1
    } else {
        t % 12 == 0
    }
}

/// Hangs a room's ceiling lights in the top layer, as [`room_light_at`]
/// places them.
pub fn light_room_ceiling(grid: &mut VoxelGrid, room: &Room, is_strip: bool)
    requires
        old(grid).wf(),
        old(grid)@.height >= 1,
        room.x0 <= room.x1 < old(grid)@.width,
        room.z1 < old(grid)@.depth,
        room.z1 + 16 <= usize::MAX,
    ensures
        final(grid).wf(),
        final(grid)@.same_shape(old(grid)@),
        final(grid)@.light == old(grid)@.light,
        final(grid)@.occlusion == old(grid)@.occlusion,
        forall|x: int, y: int, z: int|
            old(grid)@.in_bounds(x, y, z) ==> #[trigger] final(grid)@.material(x, y, z) == if y == old(grid)@.height
                - 1 && room_light_at(*room, is_strip, x, z) {
                VOXEL_LIGHT
            } else {
                old(grid)@.material(x, y, z)
            },
{
    let ghost start = grid@;
    let top = grid.height() - 1;
    let cx = room.x0 + (room.x1 - room.x0) / 2;
    let last = if room.z1 >= 8 { room.z1 - 8 } else { 0 };
    if room.z0 > last {
        return;
    }
    let first = room.z0 + 8;
    let mut z = first;
    let ghost mut k: int = 0;
    while z <= last
        invariant
            grid.wf(),
            start.wf(),
            grid@.same_shape(start),
            grid@.light == start.light,
            grid@.occlusion == start.occlusion,
            top == start.height - 1,
            cx == (room.x0 + room.x1) / 2,
            cx < start.width,
            room.z1 < start.depth,
            room.z1 + 16 <= usize::MAX,
            last == (if room.z1 >= 8 { room.z1 - 8 } else { 0 }),
            first == room.z0 + 8,
            k >= 0,
            z == first + 12 * k,
            forall|x: int, y: int, zz: int|
                start.in_bounds(x, y, zz) ==> #[trigger] grid@.material(x, y, zz) == if y == top && room_light_at(
                    *room,
                    is_strip,
                    x,
                    zz,
                ) && (zz - first) / 12 < k {
                    VOXEL_LIGHT
                } else {
                    start.material(x, y, zz)
                },
        decreases last + 12 - z,
    {
        if is_strip {
            let mut offset: usize = 0;
            while offset < 4
                invariant
                    grid.wf(),
                    start.wf(),
                    grid@.same_shape(start),
                    grid@.light == start.light,
                    grid@.occlusion == start.occlusion,
                    top == start.height - 1,
                    cx == (room.x0 + room.x1) / 2,
                    cx < start.width,
                    room.z1 < start.depth,
                    room.z1 + 16 <= usize::MAX,
                    last == (if room.z1 >= 8 { room.z1 - 8 } else { 0 }),
                    first == room.z0 + 8,
                    k >= 0,
                    z == first + 12 * k,
                    z <= last,
                    is_strip,
                    0 <= offset <= 4,
                    forall|x: int, y: int, zz: int|
                        start.in_bounds(x, y, zz) ==> #[trigger] grid@.material(x, y, zz) == if y == top
                            && room_light_at(*room, is_strip, x, zz) && ((zz - first) / 12 < k || ((zz - first) / 12
                            == k && (zz - first) % 12 < offset)) {
                            VOXEL_LIGHT
                        } else {
                            start.material(x, y, zz)
                        },
                decreases 4 - offset,
            {
                proof {
                    vstd::arithmetic::div_mod::lemma_fundamental_div_mod_converse(
                        z + offset - first,
                        12,
                        k,
                        offset as int,
                    );
                }
                let ghost before = grid@;
                if z + offset <= room.z1 {
                    grid.set(cx, top, z + offset, VOXEL_LIGHT);
                }
                proof {
                    assert forall|x: int, y: int, zz: int| start.in_bounds(x, y, zz) implies #[trigger] grid@.material(
                        x,
                        y,
                        zz,
                    ) == if y == top && room_light_at(*room, is_strip, x, zz) && ((zz - first) / 12 < k || ((zz
                        - first) / 12 == k && (zz - first) % 12 < offset + 1)) {
                        VOXEL_LIGHT
                    } else {
                        start.material(x, y, zz)
                    } by {
                        vstd::arithmetic::div_mod::lemma_fundamental_div_mod(zz - first, 12);
                        assert(before.material(x, y, zz) == if y == top && room_light_at(*room, is_strip, x, zz) && ((zz
                            - first) / 12 < k || ((zz - first) / 12 == k && (zz - first) % 12 < offset)) {
                            VOXEL_LIGHT
                        } else {
                            start.material(x, y, zz)
                        });
                        if x == cx && y == top && zz == z + offset {
                            assert((zz - first) / 12 == k && (zz - first) % 12 == offset);
                            if z + offset <= room.z1 {
                                assert(room_light_at(*room, is_strip, x, zz));
                            } else {
                                assert(!room_light_at(*room, is_strip, x, zz));
                            }
                        } else {
                            assert(grid@.material(x, y, zz) == before.material(x, y, zz));
                            if (zz - first) / 12 == k && (zz - first) % 12 == offset {
                                assert(zz == z + offset);
                            }
                        }
                    }
                }
                offset = offset + 1;
            }
        } else {
            proof {
                vstd::arithmetic::div_mod::lemma_fundamental_div_mod_converse(z - first, 12, k, 0);
            }
            grid.set(cx, top, z, VOXEL_LIGHT);
        }
        proof {
            assert forall|x: int, y: int, zz: int|
                start.in_bounds(x, y, zz) && y == top && room_light_at(*room, is_strip, x, zz) && (zz - first) / 12
                    == k implies #[trigger] grid@.material(x, y, zz) == VOXEL_LIGHT by {
                if !is_strip {
                    vstd::arithmetic::div_mod::lemma_fundamental_div_mod(zz - first, 12);
                }
            }
        }
        z = z + 12;
        proof {
            k = k + 1;
        }
    }
    proof {
        assert forall|x: int, zz: int| room_light_at(*room, is_strip, x, zz) implies (zz - first) / 12 < k by {
            vstd::arithmetic::div_mod::lemma_fundamental_div_mod(zz - first, 12);
        }
    }
}

/// What the starting hub leaves at `(x, y, z)` of a grid of height `h`: a
/// ceiling over the whole top layer with a light every 20 voxels away from
/// the near edges, a floor under it, and everything between as it was.
pub open spec fn plaza_material(h: int, old: u8, x: int, y: int, z: int) -> u8 {
    if y == h - 1 {
        if x > 0 && z > 0 && x % 20 == 0 && z % 20 == 0 {
            VOXEL_LIGHT
        } else {
            VOXEL_CEILING
        }
    } else if y == 0 {
        VOXEL_FLOOR
    } else {
        old
    }
}

/// Lays out the starting hub: one open plaza, floored, ceilinged and lit.
pub fn draw_plaza(grid: &mut VoxelGrid)
    requires
        old(grid).wf(),
        old(grid)@.height >= 1,
    ensures
        final(grid).wf(),
        final(grid)@.same_shape(old(grid)@),
        final(grid)@.light == old(grid)@.light,
        final(grid)@.occlusion == old(grid)@.occlusion,
        forall|x: int, y: int, z: int|
            old(grid)@.in_bounds(x, y, z) ==> #[trigger] final(grid)@.material(x, y, z) == plaza_material(
                old(grid)@.height as int,
                old(grid)@.material(x, y, z),
                x,
                y,
                z,
            ),
{
    let ghost start = grid@;
    let (w, h, d) = (grid.width(), grid.height(), grid.depth());
    let top = h - 1;
    let mut z: usize = 0;
    while z < d
        invariant
            grid.wf(),
            start.wf(),
            grid@.same_shape(start),
            grid@.light == start.light,
            grid@.occlusion == start.occlusion,
            w == start.width,
            h == start.height,
            d == start.depth,
            top == h - 1,
            0 <= z <= d,
            forall|a: int, b: int, c: int|
                start.in_bounds(a, b, c) ==> #[trigger] grid@.material(a, b, c) == if c < z {
                    plaza_material(h as int, start.material(a, b, c), a, b, c)
                } else {
                    start.material(a, b, c)
                },
        decreases d - z,
    {
        let mut x: usize = 0;
        while x < w
            invariant
                grid.wf(),
                start.wf(),
                grid@.same_shape(start),
                grid@.light == start.light,
                grid@.occlusion == start.occlusion,
                w == start.width,
                h == start.height,
                d == start.depth,
                top == h - 1,
                z < d,
                0 <= x <= w,
                forall|a: int, b: int, c: int|
                    start.in_bounds(a, b, c) ==> #[trigger] grid@.material(a, b, c) == if c < z || (c == z && a < x) {
                        plaza_material(h as int, start.material(a, b, c), a, b, c)
                    } else {
                        start.material(a, b, c)
                    },
            decreases w - x,
        {
            grid.set(x, 0, z, VOXEL_FLOOR);
            grid.set(x, top, z, VOXEL_CEILING);
            if x > 0 && z > 0 && x % 20 == 0 && z % 20 == 0 {
                grid.set(x, top, z, VOXEL_LIGHT);
            }
            x = x + 1;
        }
        z = z + 1;
    }
}

/// The number of the lattice tile, `step` voxels each from `first`, that
/// holds coordinate `v`.
pub open spec fn tile_index(first: int, step: int, v: int) -> int {
    (v - first) / step
}

/// The first coordinate of the lattice tile holding `v`.
pub open spec fn tile_start(first: int, step: int, v: int) -> int {
    first + tile_index(first, step, v) * step
}

/// `a - b`, or zero when `b` is larger.
pub open spec fn sub_or_zero(a: int, b: int) -> int {
    if a >= b {
        a - b
    } else {
        0
    }
}

/// What furnishing `room` with `stamp` leaves at `(x, y, z)` of grid `g`.
/// The room is tiled from `spacing` inside its near corner with tiles of
/// the stamp's size plus `spacing`, as many as fit `spacing` inside its far
/// edges; the stamp goes down in each tile whose placement is valid, and
/// nothing else changes.
pub open spec fn furnished(g: GridView, room: Room, stamp: RoomStamp, spacing: int, x: int, y: int, z: int) -> u8 {
    let fx = room.x0 + spacing;
    let fz = room.z0 + spacing;
    let sx = tile_start(fx, stamp.width + spacing, x);
    let sz = tile_start(fz, stamp.depth + spacing, z);
    if x >= fx && z >= fz && sx + stamp.width <= sub_or_zero(room.x1 as int, spacing) && sz + stamp.depth
        <= sub_or_zero(room.z1 as int, spacing) && placement_ok(g, room, stamp, sx, sz) {
        stamped_material(stamp, sx, sz, g.height as int, g.material(x, y, z), x, y, z)
    } else {
        g.material(x, y, z)
    }
}

/// The coordinate `first + i * step + off` lies in tile `i`.
proof fn lemma_in_tile(first: int, step: int, i: int, off: int)
    requires
        step > 0,
        i >= 0,
        0 <= off < step,
    ensures
        tile_index(first, step, first + i * step + off) == i,
{
    vstd::arithmetic::div_mod::lemma_fundamental_div_mod_converse(i * step + off, step, i, off);
}

/// A coordinate in tile `j` or later has its tile start at or past the
/// start of tile `j`.
proof fn lemma_tile_start_at_least(first: int, step: int, j: int, v: int)
    requires
        step > 0,
        j >= 0,
        v >= first,
        tile_index(first, step, v) >= j,
    ensures
        tile_start(first, step, v) >= first + j * step,
{
    let t = tile_index(first, step, v);
    assert(t * step >= j * step) by (nonlinear_arith)
        requires
            t >= j,
            step > 0,
    ;
}

/// A coordinate in a tile before tile `i` lies before the start of tile
/// `i`, and one from the start of tile `i` on is in tile `i` or later.
proof fn lemma_tile_order(first: int, step: int, i: int, v: int)
    requires
        step > 0,
        i >= 0,
        v >= first,
    ensures
        tile_index(first, step, v) < i <==> v < first + i * step,
{
    let t = tile_index(first, step, v);
    vstd::arithmetic::div_mod::lemma_fundamental_div_mod(v - first, step);
    vstd::arithmetic::div_mod::lemma_mod_pos_bound(v - first, step);
    if t < i {
        assert(t * step + step <= i * step) by (nonlinear_arith)
            requires
                t < i,
                step > 0,
        ;
    } else {
        assert(t * step >= i * step) by (nonlinear_arith)
            requires
                t >= i,
                step > 0,
        ;
    }
    assert(step * t == t * step) by (nonlinear_arith);
}

/// Furnishes `room` with `stamp`: tiles the room as [`furnished`] describes
/// and puts the stamp down in every tile where the placement is valid.
pub fn furnish_room(grid: &mut VoxelGrid, room: &Room, stamp: &RoomStamp, spacing: usize)
    requires
        old(grid).wf(),
        stamp.wf(),
        room.x1 < old(grid)@.width,
        room.z1 < old(grid)@.depth,
        old(grid)@.height >= 4,
        room.x0 + spacing <= usize::MAX,
        room.z0 + spacing <= usize::MAX,
    ensures
        final(grid).wf(),
        final(grid)@.same_shape(old(grid)@),
        final(grid)@.light == old(grid)@.light,
        final(grid)@.occlusion == old(grid)@.occlusion,
        forall|x: int, y: int, z: int|
            old(grid)@.in_bounds(x, y, z) ==> #[trigger] final(grid)@.material(x, y, z) == furnished(
                old(grid)@,
                *room,
                *stamp,
                spacing as int,
                x,
                y,
                z,
            ),
{
    let ghost start = grid@;
    let fx = room.x0 + spacing;
    let fz = room.z0 + spacing;
    let limit_x = if room.x1 >= spacing { room.x1 - spacing } else { 0 };
    let limit_z = if room.z1 >= spacing { room.z1 - spacing } else { 0 };
    let ghost step_x: int = stamp.width + spacing;
    let ghost step_z: int = stamp.depth + spacing;
    let ghost sp = spacing as int;
    let mut start_x = fx;
    let ghost mut i: int = 0;
    while start_x <= limit_x && stamp.width <= limit_x - start_x
        invariant
            grid.wf(),
            start.wf(),
            stamp.wf(),
            grid@.same_shape(start),
            grid@.light == start.light,
            grid@.occlusion == start.occlusion,
            room.x1 < start.width,
            room.z1 < start.depth,
            start.height >= 4,
            fx == room.x0 + spacing,
            fz == room.z0 + spacing,
            limit_x == sub_or_zero(room.x1 as int, sp),
            limit_z == sub_or_zero(room.z1 as int, sp),
            sp == spacing,
            step_x == stamp.width + spacing,
            step_z == stamp.depth + spacing,
            i >= 0,
            start_x == fx + i * step_x,
            forall|x: int, y: int, z: int|
                start.in_bounds(x, y, z) ==> #[trigger] grid@.material(x, y, z) == if x >= fx && tile_index(
                    fx as int,
                    step_x,
                    x,
                ) < i {
                    furnished(start, *room, *stamp, sp, x, y, z)
                } else {
                    start.material(x, y, z)
                },
        decreases limit_x + step_x - start_x,
    {
        let mut start_z = fz;
        let ghost mut j: int = 0;
        while start_z <= limit_z && stamp.depth <= limit_z - start_z
            invariant
                grid.wf(),
                start.wf(),
                stamp.wf(),
                grid@.same_shape(start),
                grid@.light == start.light,
                grid@.occlusion == start.occlusion,
                room.x1 < start.width,
                room.z1 < start.depth,
                start.height >= 4,
                fx == room.x0 + spacing,
                fz == room.z0 + spacing,
                limit_x == sub_or_zero(room.x1 as int, sp),
                limit_z == sub_or_zero(room.z1 as int, sp),
                sp == spacing,
                step_x == stamp.width + spacing,
                step_z == stamp.depth + spacing,
                i >= 0,
                start_x == fx + i * step_x,
                start_x + stamp.width <= limit_x,
                j >= 0,
                start_z == fz + j * step_z,
                forall|x: int, y: int, z: int|
                    start.in_bounds(x, y, z) ==> #[trigger] grid@.material(x, y, z) == if x >= fx && (tile_index(
                        fx as int,
                        step_x,
                        x,
                    ) < i || (tile_index(fx as int, step_x, x) == i && z >= fz && tile_index(
                        fz as int,
                        step_z,
                        z,
                    ) < j)) {
                        furnished(start, *room, *stamp, sp, x, y, z)
                    } else {
                        start.material(x, y, z)
                    },
            decreases limit_z + step_z - start_z,
        {
            let ghost before = grid@;
            proof {
                assert forall|lx: int, lz: int| 0 <= lx < stamp.width && 0 <= lz < stamp.depth implies #[trigger] grid@.material(
                    start_x + lx,
                    1,
                    start_z + lz,
                ) == start.material(start_x + lx, 1, start_z + lz) by {
                    lemma_in_tile(fx as int, step_x, i, lx);
                    lemma_in_tile(fz as int, step_z, j, lz);
                }
                assert(placement_ok(grid@, *room, *stamp, start_x as int, start_z as int) == placement_ok(
                    start,
                    *room,
                    *stamp,
                    start_x as int,
                    start_z as int,
                ));
            }
            if validate_stamp_placement(grid, room, stamp, start_x, start_z) {
                place_stamp(grid, stamp, start_x, start_z);
            }
            proof {
                assert forall|x: int, y: int, z: int| start.in_bounds(x, y, z) implies #[trigger] grid@.material(
                    x,
                    y,
                    z,
                ) == if x >= fx && (tile_index(fx as int, step_x, x) < i || (tile_index(
                    fx as int,
                    step_x,
                    x,
                ) == i && z >= fz && tile_index(fz as int, step_z, z) < j + 1)) {
                    furnished(start, *room, *stamp, sp, x, y, z)
                } else {
                    start.material(x, y, z)
                } by {
                    if start_x <= x < start_x + stamp.width && start_z <= z < start_z + stamp.depth {
                        lemma_in_tile(fx as int, step_x, i, x - start_x);
                        lemma_in_tile(fz as int, step_z, j, z - start_z);
                    }
                    if x >= fx && z >= fz && tile_index(fx as int, step_x, x) == i && tile_index(
                        fz as int,
                        step_z,
                        z,
                    ) == j {
                        lemma_tile_order(fx as int, step_x, i, x);
                        lemma_tile_order(fx as int, step_x, i + 1, x);
                        lemma_tile_order(fz as int, step_z, j, z);
                        lemma_tile_order(fz as int, step_z, j + 1, z);
                    }
                }
            }
            start_z = start_z + stamp.depth + spacing;
            proof {
                assert((j + 1) * step_z == j * step_z + step_z) by (nonlinear_arith);
                j = j + 1;
            }
        }
        proof {
            assert forall|x: int, y: int, z: int| start.in_bounds(x, y, z) implies #[trigger] grid@.material(x, y, z)
                == if x >= fx && tile_index(fx as int, step_x, x) < i + 1 {
                furnished(start, *room, *stamp, sp, x, y, z)
            } else {
                start.material(x, y, z)
            } by {
                if x >= fx && tile_index(fx as int, step_x, x) == i && z >= fz && tile_index(
                    fz as int,
                    step_z,
                    z,
                ) >= j {
                    lemma_tile_start_at_least(fz as int, step_z, j, z);
                }
            }
        }
        start_x = start_x + stamp.width + spacing;
        proof {
            assert((i + 1) * step_x == i * step_x + step_x) by (nonlinear_arith);
            i = i + 1;
        }
    }
    proof {
        assert forall|x: int, y: int, z: int| start.in_bounds(x, y, z) implies #[trigger] grid@.material(x, y, z)
            == furnished(start, *room, *stamp, sp, x, y, z) by {
            if x >= fx && tile_index(fx as int, step_x, x) >= i {
                lemma_tile_start_at_least(fx as int, step_x, i, x);
            }
        }
    }
}

/// Calls `RngExt::random_ratio`: a draw that is true with probability
/// `numerator / denominator`. rand documents that it is always true when
/// the two are equal and always false when the numerator is zero, and that
/// it panics when the denominator is zero or smaller than the numerator,
/// which `requires` rules out. Which value comes back otherwise depends on
/// the generator's state and is not claimed.
#[verifier::external_body]
fn draw_ratio(rng: &mut StdRng, numerator: u32, denominator: u32) -> (r: bool)
    requires
        0 < denominator,
        numerator <= denominator,
    ensures
        numerator == denominator ==> r,
        numerator == 0 ==> !r,
{
    rng.random_ratio(numerator, denominator)
}

/// A maze cell's microbiome.
#[derive(Debug, Clone, Copy, PartialEq, Eq, Structural)]
pub enum MicrobiomeZone {
    Standard,
    Blackout,
    Holes,
    Atrium,
    PillarField,
    Arch,
    RedRoom,
}

/// A floor voxel of the cell `x0..=x1` by `z0..=z1` that a holed zone may
/// drop out: more than five voxels in from every edge.
pub open spec fn hole_interior(x0: int, x1: int, z0: int, z1: int, x: int, z: int) -> bool {
    x0 + 5 < x && x + 5 < x1 && z0 + 5 < z && z + 5 < z1
}

/// What a cell's slab leaves at `(x, y, z)` of a grid of height `h` that
/// held `old` there, `hole` telling whether that column's floor dropped
/// out. Inside the cell: a ceiling at `wall_max_y`, and outside an atrium
/// solid ceiling above it; a lamp below the ceiling every 10 voxels (none
/// in a blackout, red in a red room); the floor, or air where it dropped
/// out. Elsewhere nothing changes.
pub open spec fn slab_material(
    zone: MicrobiomeZone,
    x0: int,
    x1: int,
    z0: int,
    z1: int,
    wall_max_y: int,
    h: int,
    hole: bool,
    old: u8,
    x: int,
    y: int,
    z: int,
) -> u8 {
    let lamp = x % 10 == 0 && z % 10 == 0;
    if !(x0 <= x <= x1 && z0 <= z <= z1) {
        old
    } else if zone != MicrobiomeZone::Atrium && wall_max_y < y < h {
        VOXEL_CEILING
    } else if y == wall_max_y - 1 && lamp && zone != MicrobiomeZone::Blackout {
        if zone == MicrobiomeZone::RedRoom {
            VOXEL_RED_LIGHT
        } else {
            VOXEL_LIGHT
        }
    } else if y == wall_max_y {
        VOXEL_CEILING
    } else if y == 0 {
        if hole {
            VOXEL_AIR
        } else {
            VOXEL_FLOOR
        }
    } else {
        old
    }
}

/// `after` is `before` with the cell's slab laid, the floor dropped out
/// exactly over `holes`, all of them interior voxels of a holed zone.
pub open spec fn slab_drawn(
    before: GridView,
    after: GridView,
    zone: MicrobiomeZone,
    x0: int,
    x1: int,
    z0: int,
    z1: int,
    wall_max_y: int,
    holes: Set<(int, int)>,
) -> bool {
    &&& forall|x: int, z: int|
        #[trigger] holes.contains((x, z)) ==> zone == MicrobiomeZone::Holes && hole_interior(x0, x1, z0, z1, x, z)
    &&& forall|x: int, y: int, z: int|
        before.in_bounds(x, y, z) ==> #[trigger] after.material(x, y, z) == slab_material(
            zone,
            x0,
            x1,
            z0,
            z1,
            wall_max_y,
            before.height as int,
            holes.contains((x, z)),
            before.material(x, y, z),
            x,
            y,
            z,
        )
}

/// Lays the floor, ceiling and lamps of the cell `x0..=x1` by `z0..=z1`. In
/// a holed zone each interior floor voxel drops out with one chance in
/// twenty, drawn from `detail` in x-major, then z order; whatever the draws,
/// only interior floor voxels of a holed zone drop out.
pub fn draw_cell_slab(
    grid: &mut VoxelGrid,
    detail: &mut StdRng,
    zone: MicrobiomeZone,
    x0: usize,
    x1: usize,
    z0: usize,
    z1: usize,
    wall_max_y: usize,
)
    requires
        old(grid).wf(),
        x1 < old(grid)@.width,
        z1 < old(grid)@.depth,
        1 <= wall_max_y < old(grid)@.height,
    ensures
        final(grid).wf(),
        final(grid)@.same_shape(old(grid)@),
        final(grid)@.light == old(grid)@.light,
        final(grid)@.occlusion == old(grid)@.occlusion,
        exists|holes: Set<(int, int)>|
            #[trigger] slab_drawn(
                old(grid)@,
                final(grid)@,
                zone,
                x0 as int,
                x1 as int,
                z0 as int,
                z1 as int,
                wall_max_y as int,
                holes,
            ),
{
    let ghost start = grid@;
    let h = grid.height();
    let ghost mut holes: Set<(int, int)> = Set::empty();
    if x0 > x1 || z0 > z1 {
        proof {
            assert forall|x: int, y: int, z: int| start.in_bounds(x, y, z) implies #[trigger] grid@.material(x, y, z)
                == slab_material(
                zone,
                x0 as int,
                x1 as int,
                z0 as int,
                z1 as int,
                wall_max_y as int,
                h as int,
                holes.contains((x, z)),
                start.material(x, y, z),
                x,
                y,
                z,
            ) by {}
            assert(slab_drawn(start, grid@, zone, x0 as int, x1 as int, z0 as int, z1 as int, wall_max_y as int, holes));
        }
        return;
    }
    let mut vx = x0;
    while vx <= x1
        invariant
            grid.wf(),
            start.wf(),
            grid@.same_shape(start),
            grid@.light == start.light,
            grid@.occlusion == start.occlusion,
            h == start.height,
            x1 < start.width,
            z0 <= z1 < start.depth,
            1 <= wall_max_y < h,
            x0 <= vx <= x1 + 1,
            forall|x: int, z: int| #[trigger] holes.contains((x, z)) ==> zone == MicrobiomeZone::Holes && hole_interior(
                x0 as int,
                x1 as int,
                z0 as int,
                z1 as int,
                x,
                z,
            ) && x < vx,
            forall|x: int, y: int, z: int|
                start.in_bounds(x, y, z) ==> #[trigger] grid@.material(x, y, z) == if x < vx {
                    slab_material(
                        zone,
                        x0 as int,
                        x1 as int,
                        z0 as int,
                        z1 as int,
                        wall_max_y as int,
                        h as int,
                        holes.contains((x, z)),
                        start.material(x, y, z),
                        x,
                        y,
                        z,
                    )
                } else {
                    start.material(x, y, z)
                },
        decreases x1 + 1 - vx,
    {
        let mut vz = z0;
        while vz <= z1
            invariant
                grid.wf(),
                start.wf(),
                grid@.same_shape(start),
                grid@.light == start.light,
                grid@.occlusion == start.occlusion,
                h == start.height,
                x0 <= vx <= x1,
                x1 < start.width,
                z0 <= vz <= z1 + 1,
                z1 < start.depth,
                1 <= wall_max_y < h,
                forall|x: int, z: int| #[trigger] holes.contains((x, z)) ==> zone == MicrobiomeZone::Holes
                    && hole_interior(x0 as int, x1 as int, z0 as int, z1 as int, x, z) && (x < vx || (x == vx && z
                    < vz)),
                forall|x: int, y: int, z: int|
                    start.in_bounds(x, y, z) ==> #[trigger] grid@.material(x, y, z) == if x < vx || (x == vx && z
                        < vz) {
                        slab_material(
                            zone,
                            x0 as int,
                            x1 as int,
                            z0 as int,
                            z1 as int,
                            wall_max_y as int,
                            h as int,
                            holes.contains((x, z)),
                            start.material(x, y, z),
                            x,
                            y,
                            z,
                        )
                    } else {
                        start.material(x, y, z)
                    },
            decreases z1 + 1 - vz,
        {
            let ghost before = grid@;
            grid.set(vx, 0, vz, VOXEL_FLOOR);
            let mut hole = false;
            if zone == MicrobiomeZone::Holes && vx - x0 > 5 && x1 - vx > 5 && vz - z0 > 5 && z1 - vz > 5 {
                if draw_ratio(detail, 1, 20) {
                    grid.set(vx, 0, vz, VOXEL_AIR);
                    hole = true;
                }
            }
            grid.set(vx, wall_max_y, vz, VOXEL_CEILING);
            let lamp = vx % 10 == 0 && vz % 10 == 0;
            if zone != MicrobiomeZone::Atrium {
                if zone != MicrobiomeZone::Blackout && lamp {
                    let fixture = if zone == MicrobiomeZone::RedRoom {
                        VOXEL_RED_LIGHT
                    } else {
                        VOXEL_LIGHT
                    };
                    grid.set(vx, wall_max_y - 1, vz, fixture);
                }
                let mut y = wall_max_y + 1;
                while y < h
                    invariant
                        grid.wf(),
                        start.wf(),
                        grid@.same_shape(start),
                        grid@.light == start.light,
                        grid@.occlusion == start.occlusion,
                        vx < start.width,
                        vz < start.depth,
                        h == start.height,
                        wall_max_y + 1 <= y <= h,
                        forall|x: int, yy: int, z: int|
                            start.in_bounds(x, yy, z) && !(x == vx && z == vz) ==> #[trigger] grid@.material(x, yy, z)
                                == before.material(x, yy, z),
                        forall|yy: int| wall_max_y < yy < y ==> #[trigger] grid@.material(vx as int, yy, vz as int) == VOXEL_CEILING,
                        forall|yy: int|
                            0 <= yy <= wall_max_y ==> #[trigger] grid@.material(vx as int, yy, vz as int)
                                == old_column_value(before, hole, zone, lamp, wall_max_y as int, vx as int, yy, vz as int),
                    decreases h - y,
                {
                    grid.set(vx, y, vz, VOXEL_CEILING);
                    y = y + 1;
                }
            } else if lamp {
                grid.set(vx, wall_max_y - 1, vz, VOXEL_LIGHT);
            }
            proof {
                if hole {
                    holes = holes.insert((vx as int, vz as int));
                }
                assert forall|x: int, y: int, z: int| start.in_bounds(x, y, z) implies #[trigger] grid@.material(
                    x,
                    y,
                    z,
                ) == if x < vx || (x == vx && z < vz + 1) {
                    slab_material(
                        zone,
                        x0 as int,
                        x1 as int,
                        z0 as int,
                        z1 as int,
                        wall_max_y as int,
                        h as int,
                        holes.contains((x, z)),
                        start.material(x, y, z),
                        x,
                        y,
                        z,
                    )
                } else {
                    start.material(x, y, z)
                } by {
                    if x == vx && z == vz {
                        assert(before.material(x, y, z) == start.material(x, y, z));
                    }
                }
            }
            vz = vz + 1;
        }
        vx = vx + 1;
    }
    proof {
        assert(slab_drawn(start, grid@, zone, x0 as int, x1 as int, z0 as int, z1 as int, wall_max_y as int, holes));
    }
}

/// The slab column at `(vx, vz)` below and at the ceiling once its floor,
/// hole, ceiling and lamp are down, over what `before` held.
pub open spec fn old_column_value(
    before: GridView,
    hole: bool,
    zone: MicrobiomeZone,
    lamp: bool,
    wall_max_y: int,
    x: int,
    y: int,
    z: int,
) -> u8 {
    if y == wall_max_y - 1 && lamp && zone != MicrobiomeZone::Blackout {
        if zone == MicrobiomeZone::RedRoom {
            VOXEL_RED_LIGHT
        } else {
            VOXEL_LIGHT
        }
    } else if y == wall_max_y {
        VOXEL_CEILING
    } else if y == 0 {
        if hole {
            VOXEL_AIR
        } else {
            VOXEL_FLOOR
        }
    } else {
        before.material(x, y, z)
    }
}

/// A corner column of the cell `x0..=x1` by `z0..=z1`.
pub open spec fn cell_corner(x0: int, x1: int, z0: int, z1: int, x: int, z: int) -> bool {
    (x == x0 || x == x1) && (z == z0 || z == z1)
}

/// The centre column of the cell `x0..=x1` by `z0..=z1`.
pub open spec fn cell_centre(x0: int, x1: int, z0: int, z1: int, x: int, z: int) -> bool {
    x == (x0 + x1 + 1) / 2 && z == (z0 + z1 + 1) / 2
}

/// `after` is `before` with a pillar field's posts raised in the cell: its
/// four corner columns solid from the floor's top to `wall_max_y`, and its
/// centre column solid at exactly the heights in `raised`, all of them in
/// that range.
pub open spec fn pillars_drawn(
    before: GridView,
    after: GridView,
    x0: int,
    x1: int,
    z0: int,
    z1: int,
    wall_max_y: int,
    raised: Set<int>,
) -> bool {
    &&& forall|y: int| #[trigger] raised.contains(y) ==> 1 <= y <= wall_max_y
    &&& forall|x: int, y: int, z: int|
        before.in_bounds(x, y, z) ==> #[trigger] after.material(x, y, z) == if 1 <= y <= wall_max_y && (cell_corner(
            x0,
            x1,
            z0,
            z1,
            x,
            z,
        ) || (cell_centre(x0, x1, z0, z1, x, z) && raised.contains(y))) {
            VOXEL_WALL
        } else {
            before.material(x, y, z)
        }
}

/// Raises a pillar field's posts in the cell `x0..=x1` by `z0..=z1`: its
/// corners are solid to `wall_max_y`, and at each height the centre post
/// gets a voxel with three chances in ten, drawn from `detail` bottom up.
pub fn draw_pillars(
    grid: &mut VoxelGrid,
    detail: &mut StdRng,
    x0: usize,
    x1: usize,
    z0: usize,
    z1: usize,
    wall_max_y: usize,
)
    requires
        old(grid).wf(),
        x0 <= x1 < old(grid)@.width,
        z0 <= z1 < old(grid)@.depth,
        wall_max_y < old(grid)@.height,
    ensures
        final(grid).wf(),
        final(grid)@.same_shape(old(grid)@),
        final(grid)@.light == old(grid)@.light,
        final(grid)@.occlusion == old(grid)@.occlusion,
        exists|raised: Set<int>|
            #[trigger] pillars_drawn(
                old(grid)@,
                final(grid)@,
                x0 as int,
                x1 as int,
                z0 as int,
                z1 as int,
                wall_max_y as int,
                raised,
            ),
{
    let ghost start = grid@;
    let cx = x0 + (x1 - x0 + 1) / 2;
    let cz = z0 + (z1 - z0 + 1) / 2;
    let ghost mut raised: Set<int> = Set::empty();
    let mut y: usize = 1;
    while y <= wall_max_y
        invariant
            grid.wf(),
            start.wf(),
            grid@.same_shape(start),
            grid@.light == start.light,
            grid@.occlusion == start.occlusion,
            x0 <= x1 < start.width,
            z0 <= z1 < start.depth,
            wall_max_y < start.height,
            cx == (x0 + x1 + 1) / 2,
            cz == (z0 + z1 + 1) / 2,
            1 <= y <= wall_max_y + 1,
            forall|yy: int| #[trigger] raised.contains(yy) ==> 1 <= yy < y,
            forall|x: int, yy: int, z: int|
                start.in_bounds(x, yy, z) ==> #[trigger] grid@.material(x, yy, z) == if 1 <= yy < y && (cell_corner(
                    x0 as int,
                    x1 as int,
                    z0 as int,
                    z1 as int,
                    x,
                    z,
                ) || (cell_centre(x0 as int, x1 as int, z0 as int, z1 as int, x, z) && raised.contains(yy))) {
                    VOXEL_WALL
                } else {
                    start.material(x, yy, z)
                },
        decreases wall_max_y + 1 - y,
    {
        grid.set(x0, y, z0, VOXEL_WALL);
        grid.set(x1, y, z0, VOXEL_WALL);
        grid.set(x0, y, z1, VOXEL_WALL);
        grid.set(x1, y, z1, VOXEL_WALL);
        if draw_ratio(detail, 3, 10) {
            grid.set(cx, y, cz, VOXEL_WALL);
            proof {
                raised = raised.insert(y as int);
            }
        }
        y = y + 1;
    }
    proof {
        assert(pillars_drawn(start, grid@, x0 as int, x1 as int, z0 as int, z1 as int, wall_max_y as int, raised));
    }
}

} // verus!
