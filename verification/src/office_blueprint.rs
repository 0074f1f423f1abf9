//! The office blueprint generator's integer core: flyweight room stamps,
//! their placement into a voxel grid, organic room segmentation over the
//! maze's cell grid, and hallway reservation.
//!
//! The generator is a chunk-local maze with rooms carved out of it. Room
//! and hallway choices draw from a seeded `StdRng`, so a chunk replays
//! exactly for one seed; the structural guarantees below hold for every
//! draw.

use vstd::prelude::*;
use crate::voxel_grid::{VoxelGrid, GridView, VOXEL_AIR, VOXEL_FLOOR, VOXEL_WALL};
use rand::rngs::StdRng;
use rand::RngExt;
use rand::seq::SliceRandom;

verus! {

/// The furnishing patterns a room can be stamped with.
#[derive(Debug, Clone, Copy, PartialEq, Eq, Structural)]
pub enum StampKind {
    Cubicles,
    Showroom,
    Waiting,
    Storage,
    Lounge,
    ServerRoom,
    Cafeteria,
    Maintenance,
    Stairway,
}

/// Width and depth of each stamp, in voxels.
pub open spec fn stamp_dims(kind: StampKind) -> (usize, usize) {
    match kind {
        StampKind::Cubicles => (20, 20),
        StampKind::Showroom => (16, 16),
        StampKind::Waiting => (20, 20),
        StampKind::Storage => (12, 16),
        StampKind::Lounge => (18, 18),
        StampKind::ServerRoom => (14, 20),
        StampKind::Cafeteria => (24, 24),
        StampKind::Maintenance => (10, 10),
        StampKind::Stairway => (16, 16),
    }
}

pub open spec fn in_pair_set(v: int) -> bool {
    v == 4 || v == 5 || v == 10 || v == 11 || v == 16 || v == 17 || v == 20 || v == 21
}

/// The code a stamp carries at stamp-local `(x, z)`: 0 nothing, 1 a low
/// partition, 2 a full-height block, 3 a kerb, 4 a raised floor, 5 and 6
/// the two steps of a stair.
pub open spec fn stamp_value(kind: StampKind, x: int, z: int) -> u8 {
    match kind {
        StampKind::Cubicles => if (x == 5 && 2 <= z < 8) || (z == 5 && 2 <= x < 8) || (x == 15 && 12 <= z < 18) || (
        z == 15 && 12 <= x < 18) {
            1
        } else {
            0
        },
        StampKind::Showroom => if ((2 <= z < 6) || (10 <= z < 14)) && ((2 <= x < 6) || (10 <= x < 14)) {
            2
        } else {
            0
        },
        StampKind::Waiting => if (z == 6 || z == 14) && 4 <= x < 16 {
            3
        } else {
            0
        },
        StampKind::Storage => if 2 <= z < 14 && (x == 2 || x == 9) {
            1
        } else {
            0
        },
        StampKind::Lounge => if 6 <= z < 12 && 6 <= x < 12 && (z == 6 || z == 11 || x == 6 || x == 11) {
            3
        } else {
            0
        },
        StampKind::ServerRoom => if (x == 3 || x == 7 || x == 10) && 2 <= z < 18 && z % 4 != 0 {
            2
        } else {
            0
        },
        StampKind::Cafeteria => if in_pair_set(x) && in_pair_set(z) {
            1
        } else {
            0
        },
        StampKind::Maintenance => if (z == 2 || z == 7) && (x == 2 || x == 7) {
            2
        } else if (z == 4 || z == 5) && (x == 4 || x == 5) {
            3
        } else {
            0
        },
        StampKind::Stairway => if x > 9 {
            4
        } else if x == 9 {
            5
        } else if x == 8 {
            6
        } else {
            0
        },
    }
}

fn stamp_value_exec(kind: StampKind, x: usize, z: usize) -> (v: u8)
    ensures
        v == stamp_value(kind, x as int, z as int),
{
    match kind {
        StampKind::Cubicles => if (x == 5 && 2 <= z && z < 8) || (z == 5 && 2 <= x && x < 8) || (x == 15 && 12
            <= z && z < 18) || (z == 15 && 12 <= x && x < 18) {
            1
        } else {
            0
        },
        StampKind::Showroom => if ((2 <= z && z < 6) || (10 <= z && z < 14)) && ((2 <= x && x < 6) || (10 <= x
            && x < 14)) {
            2
        } else {
            0
        },
        StampKind::Waiting => if (z == 6 || z == 14) && 4 <= x && x < 16 {
            3
        } else {
            0
        },
        StampKind::Storage => if 2 <= z && z < 14 && (x == 2 || x == 9) {
            1
        } else {
            0
        },
        StampKind::Lounge => if 6 <= z && z < 12 && 6 <= x && x < 12 && (z == 6 || z == 11 || x == 6 || x
            == 11) {
            3
        } else {
            0
        },
        StampKind::ServerRoom => if (x == 3 || x == 7 || x == 10) && 2 <= z && z < 18 && z % 4 != 0 {
            2
        } else {
            0
        },
        StampKind::Cafeteria => {
            let px = x == 4 || x == 5 || x == 10 || x == 11 || x == 16 || x == 17 || x == 20 || x == 21;
            let pz = z == 4 || z == 5 || z == 10 || z == 11 || z == 16 || z == 17 || z == 20 || z == 21;
            if px && pz {
                1
            } else {
                0
            }
        },
        StampKind::Maintenance => if (z == 2 || z == 7) && (x == 2 || x == 7) {
            2
        } else if (z == 4 || z == 5) && (x == 4 || x == 5) {
            3
        } else {
            0
        },
        StampKind::Stairway => if x > 9 {
            4
        } else if x == 9 {
            5
        } else if x == 8 {
            6
        } else {
            0
        },
    }
}

/// A flyweight furnishing pattern, row-major by `(z, x)`.
#[derive(Debug, Clone)]
pub struct RoomStamp {
    pub width: usize,
    pub depth: usize,
    pub data: Vec<u8>,
}

impl RoomStamp {
    pub open spec fn wf(&self) -> bool {
        &&& self.data@.len() == self.width * self.depth
        &&& self.width > 0
        &&& self.depth > 0
    }

    /// The code at stamp-local `(x, z)`.
    pub open spec fn code(&self, x: int, z: int) -> u8 {
        self.data@[z * self.width + x]
    }

    /// The stamp is exactly the pattern of `kind`.
    pub open spec fn is_pattern(&self, kind: StampKind) -> bool {
        &&& self.wf()
        &&& (self.width, self.depth) == stamp_dims(kind)
        &&& forall|x: int, z: int|
            0 <= x < self.width && 0 <= z < self.depth ==> #[trigger] self.code(x, z) == stamp_value(kind, x, z)
    }

    fn build(kind: StampKind, width: usize, depth: usize) -> (stamp: Self)
        requires
            (width, depth) == stamp_dims(kind),
        ensures
            stamp.is_pattern(kind),
    {
        let n = width * depth;
        let mut data: Vec<u8> = Vec::new();
        let mut i: usize = 0;
        while i < n
            invariant
                0 <= i <= n,
                n == width * depth,
                width > 0,
                data@.len() == i,
                forall|j: int| 0 <= j < i ==> #[trigger] data@[j] == stamp_value(kind, j % (width as int), j / (width as int)),
            decreases n - i,
        {
            data.push(stamp_value_exec(kind, i % width, i / width));
            i = i + 1;
        }
        let stamp = RoomStamp { width, depth, data };
        proof {
            assert forall|x: int, z: int| 0 <= x < width && 0 <= z < depth implies #[trigger] stamp.code(x, z)
                == stamp_value(kind, x, z) by {
                let j = z * width + x;
                assert(0 <= z * width <= (depth - 1) * width) by (nonlinear_arith)
                    requires
                        0 <= z < depth,
                        width > 0,
                ;
                assert((depth - 1) * width + width == width * depth) by (nonlinear_arith);
                vstd::arithmetic::div_mod::lemma_fundamental_div_mod_converse(j, width as int, z, x);
            }
        }
        stamp
    }

    pub fn cubicles() -> (stamp: Self)
        ensures
            stamp.is_pattern(StampKind::Cubicles),
    {
        Self::build(StampKind::Cubicles, 20, 20)
    }

    pub fn showroom() -> (stamp: Self)
        ensures
            stamp.is_pattern(StampKind::Showroom),
    {
        Self::build(StampKind::Showroom, 16, 16)
    }

    pub fn waiting() -> (stamp: Self)
        ensures
            stamp.is_pattern(StampKind::Waiting),
    {
        Self::build(StampKind::Waiting, 20, 20)
    }

    pub fn storage() -> (stamp: Self)
        ensures
            stamp.is_pattern(StampKind::Storage),
    {
        Self::build(StampKind::Storage, 12, 16)
    }

    pub fn lounge() -> (stamp: Self)
        ensures
            stamp.is_pattern(StampKind::Lounge),
    {
        Self::build(StampKind::Lounge, 18, 18)
    }

    pub fn server_room() -> (stamp: Self)
        ensures
            stamp.is_pattern(StampKind::ServerRoom),
    {
        Self::build(StampKind::ServerRoom, 14, 20)
    }

    pub fn cafeteria() -> (stamp: Self)
        ensures
            stamp.is_pattern(StampKind::Cafeteria),
    {
        Self::build(StampKind::Cafeteria, 24, 24)
    }

    pub fn maintenance() -> (stamp: Self)
        ensures
            stamp.is_pattern(StampKind::Maintenance),
    {
        Self::build(StampKind::Maintenance, 10, 10)
    }

    pub fn stairway() -> (stamp: Self)
        ensures
            stamp.is_pattern(StampKind::Stairway),
    {
        Self::build(StampKind::Stairway, 16, 16)
    }
}

/// The inclusive voxel bounds of one room.
#[derive(Debug, Clone, Copy, PartialEq, Eq, Structural)]
pub struct Room {
    pub x0: usize,
    pub x1: usize,
    pub z0: usize,
    pub z1: usize,
}

/// The furnishing a room receives: the stairway, or one stamp of the
/// catalog by its index.
#[derive(Debug, Clone, Copy, PartialEq, Eq, Structural)]
pub enum StampPick {
    Stairway,
    Catalog(usize),
}

/// At least one copy of a `width x depth` stamp (a zero extent counting as
/// one) fits along both axes of the room.
pub open spec fn stamp_fits(room: Room, width: usize, depth: usize) -> bool {
    &&& room.x1 - room.x0 >= if width == 0 { 1 } else { width as int }
    &&& room.z1 - room.z0 >= if depth == 0 { 1 } else { depth as int }
}

/// The indices, in catalog order, of the first `n` stamps that fit the room.
pub open spec fn fitting_stamps(stamps: Seq<RoomStamp>, room: Room, n: nat) -> Seq<usize>
    decreases n,
{
    if n == 0 {
        Seq::empty()
    } else {
        let before = fitting_stamps(stamps, room, (n - 1) as nat);
        let s = stamps[n - 1];
        if stamp_fits(room, s.width, s.depth) {
            before.push((n - 1) as usize)
        } else {
            before
        }
    }
}

proof fn lemma_fitting_stamps_valid(stamps: Seq<RoomStamp>, room: Room, n: nat)
    requires
        n <= stamps.len(),
        stamps.len() <= usize::MAX,
    ensures
        forall|k: int| 0 <= k < fitting_stamps(stamps, room, n).len() ==> {
            let i = #[trigger] fitting_stamps(stamps, room, n)[k];
            &&& i < n
            &&& stamp_fits(room, stamps[i as int].width, stamps[i as int].depth)
        },
    decreases n,
{
    if n > 0 {
        lemma_fitting_stamps_valid(stamps, room, (n - 1) as nat);
        let before = fitting_stamps(stamps, room, (n - 1) as nat);
        let f = fitting_stamps(stamps, room, n);
        assert forall|k: int| 0 <= k < f.len() implies {
            let i = #[trigger] f[k];
            &&& i < n
            &&& stamp_fits(room, stamps[i as int].width, stamps[i as int].depth)
        } by {
            if k < before.len() {
                assert(f[k] == before[k]);
            }
        }
    }
}

/// Whether the room takes at least one copy of `stamp` along both axes.
fn stamp_fits_room(room: &Room, stamp: &RoomStamp) -> (fits: bool)
    requires
        room.x0 <= room.x1,
        room.z0 <= room.z1,
    ensures
        fits == stamp_fits(*room, stamp.width, stamp.depth),
{
    let w: usize = if stamp.width == 0 { 1 } else { stamp.width };
    let d: usize = if stamp.depth == 0 { 1 } else { stamp.depth };
    let across: usize = (room.x1 - room.x0) / w;
    let along: usize = (room.z1 - room.z0) / d;
    proof {
        let (a, b) = ((room.x1 - room.x0) as int, w as int);
        assert((a / b > 0) == (a >= b)) by (nonlinear_arith)
            requires
                a >= 0,
                b > 0,
        ;
        let (c, e) = ((room.z1 - room.z0) as int, d as int);
        assert((c / e > 0) == (c >= e)) by (nonlinear_arith)
            requires
                c >= 0,
                e > 0,
        ;
    }
    across > 0 && along > 0
}

/// Chooses a room's furnishing from the catalog and the two rolls drawn for
/// the room: nothing when no stamp fits; otherwise the stairway when
/// `stairs` is set, else the fitting stamp at `roll` modulo their count.
pub fn choose_stamp(stamps: &Vec<RoomStamp>, room: &Room, roll: usize, stairs: bool) -> (pick: Option<StampPick>)
    requires
        room.x0 <= room.x1,
        room.z0 <= room.z1,
    ensures
        ({
            let f = fitting_stamps(stamps@, *room, stamps@.len());
            &&& pick is None <==> f.len() == 0
            &&& f.len() > 0 ==> pick == Some(
                if stairs {
                    StampPick::Stairway
                } else {
                    StampPick::Catalog(f[roll as int % f.len() as int])
                },
            )
        }),
        pick matches Some(StampPick::Catalog(i)) ==> i < stamps@.len() && stamp_fits(
            *room,
            stamps@[i as int].width,
            stamps@[i as int].depth,
        ),
{
    let mut possible: Vec<usize> = Vec::new();
    let mut i: usize = 0;
    while i < stamps.len()
        invariant
            i <= stamps@.len(),
            room.x0 <= room.x1,
            room.z0 <= room.z1,
            possible@ == fitting_stamps(stamps@, *room, i as nat),
        decreases stamps@.len() - i,
    {
        if stamp_fits_room(room, &stamps[i]) {
            possible.push(i);
        }
        i = i + 1;
    }
    proof {
        lemma_fitting_stamps_valid(stamps@, *room, stamps@.len());
    }
    if possible.len() == 0 {
        return None;
    }
    if stairs {
        Some(StampPick::Stairway)
    } else {
        let k = roll % possible.len();
        proof {
            assert(possible@[k as int] == possible@[roll as int % possible@.len() as int]);
        }
        Some(StampPick::Catalog(possible[k]))
    }
}

/// A stamp placed at `(start_x, start_z)` fits the room and every cell it
/// furnishes is open floor at walking height.
pub open spec fn placement_ok(g: GridView, room: Room, stamp: RoomStamp, start_x: int, start_z: int) -> bool {
    &&& start_x >= room.x0
    &&& start_x + stamp.width <= room.x1
    &&& start_z >= room.z0
    &&& start_z + stamp.depth <= room.z1
    &&& forall|lx: int, lz: int|
        0 <= lx < stamp.width && 0 <= lz < stamp.depth && #[trigger] stamp.code(lx, lz) > 0 ==> {
            let m = g.material(start_x + lx, 1, start_z + lz);
            m == VOXEL_AIR || m == VOXEL_FLOOR
        }
}

pub fn validate_stamp_placement(grid: &VoxelGrid, room: &Room, stamp: &RoomStamp, start_x: usize, start_z: usize) -> (ok: bool)
    requires
        grid.wf(),
        stamp.wf(),
        room.x1 < grid@.width,
        room.z1 < grid@.depth,
        grid@.height >= 2,
        start_x + stamp.width <= usize::MAX,
        start_z + stamp.depth <= usize::MAX,
    ensures
        ok == placement_ok(grid@, *room, *stamp, start_x as int, start_z as int),
{
    if start_x < room.x0 || start_x + stamp.width > room.x1 || start_z < room.z0 || start_z + stamp.depth > room.z1 {
        return false;
    }
    let _len = stamp.data.len();
    let mut lz: usize = 0;
    while lz < stamp.depth
        invariant
            stamp.width * stamp.depth <= usize::MAX,
            grid.wf(),
            stamp.wf(),
            room.x1 < grid@.width,
            room.z1 < grid@.depth,
            grid@.height >= 2,
            start_x >= room.x0,
            start_x + stamp.width <= room.x1,
            start_z >= room.z0,
            start_z + stamp.depth <= room.z1,
            0 <= lz <= stamp.depth,
            forall|lx: int, lz2: int|
                0 <= lx < stamp.width && 0 <= lz2 < lz && #[trigger] stamp.code(lx, lz2) > 0 ==> {
                    let m = grid@.material(start_x + lx, 1, start_z + lz2);
                    m == VOXEL_AIR || m == VOXEL_FLOOR
                },
        decreases stamp.depth - lz,
    {
        let mut lx: usize = 0;
        while lx < stamp.width
            invariant
                stamp.width * stamp.depth <= usize::MAX,
                grid.wf(),
                stamp.wf(),
                room.x1 < grid@.width,
                room.z1 < grid@.depth,
                grid@.height >= 2,
                start_x >= room.x0,
                start_x + stamp.width <= room.x1,
                start_z >= room.z0,
                start_z + stamp.depth <= room.z1,
                0 <= lz < stamp.depth,
                0 <= lx <= stamp.width,
                forall|lx2: int, lz2: int|
                    0 <= lx2 < stamp.width && 0 <= lz2 < lz && #[trigger] stamp.code(lx2, lz2) > 0 ==> {
                        let m = grid@.material(start_x + lx2, 1, start_z + lz2);
                        m == VOXEL_AIR || m == VOXEL_FLOOR
                    },
                forall|lx2: int|
                    0 <= lx2 < lx && #[trigger] stamp.code(lx2, lz as int) > 0 ==> {
                        let m = grid@.material(start_x + lx2, 1, start_z + lz);
                        m == VOXEL_AIR || m == VOXEL_FLOOR
                    },
            decreases stamp.width - lx,
        {
            proof {
                assert(0 <= lz * stamp.width <= (stamp.depth - 1) * stamp.width) by (nonlinear_arith)
                    requires
                        0 <= lz < stamp.depth,
                ;
                assert((stamp.depth - 1) * stamp.width + stamp.width == stamp.width * stamp.depth) by (nonlinear_arith);
            }
            let code = stamp.data[lz * stamp.width + lx];
            let vx = start_x + lx;
            let vz = start_z + lz;
            if code > 0 {
                let m = grid.get(vx, 1, vz);
                if m != VOXEL_AIR && m != VOXEL_FLOOR {
                    proof {
                        assert(stamp.code(lx as int, lz as int) > 0);
                    }
                    return false;
                }
            }
            lx = lx + 1;
        }
        lz = lz + 1;
    }
    true
}

/// The material a stamp leaves at `(x, y, z)` of a grid of height `h` that
/// held `old` there.
pub open spec fn stamped_material(stamp: RoomStamp, start_x: int, start_z: int, h: int, old: u8, x: int, y: int, z: int) -> u8 {
    if start_x <= x < start_x + stamp.width && start_z <= z < start_z + stamp.depth {
        let v = stamp.code(x - start_x, z - start_z);
        if v == 1 && 1 <= y <= 3 {
            VOXEL_WALL
        } else if v == 2 && 1 <= y <= h - 2 {
            VOXEL_WALL
        } else if v == 3 && y == 1 {
            VOXEL_WALL
        } else if v == 4 && (y == 1 || y == 2) {
            VOXEL_FLOOR
        } else if v == 5 && y == 1 {
            VOXEL_FLOOR
        } else {
            old
        }
    } else {
        old
    }
}

/// Sets the column at `(x, z)` to `material` from `y_lo` to `y_hi`
/// inclusive.
pub(crate) fn fill_column(grid: &mut VoxelGrid, x: usize, z: usize, y_lo: usize, y_hi: usize, material: u8)
    requires
        old(grid).wf(),
        x < old(grid)@.width,
        z < old(grid)@.depth,
        y_lo <= y_hi < old(grid)@.height,
    ensures
        final(grid).wf(),
        final(grid)@.same_shape(old(grid)@),
        final(grid)@.light == old(grid)@.light,
        final(grid)@.occlusion == old(grid)@.occlusion,
        forall|a: int, b: int, c: int|
            old(grid)@.in_bounds(a, b, c) ==> #[trigger] final(grid)@.material(a, b, c) == if a == x && c == z
                && y_lo <= b <= y_hi {
                material
            } else {
                old(grid)@.material(a, b, c)
            },
{
    let ghost start = grid@;
    let mut y = y_lo;
    while y <= y_hi
        invariant
            grid.wf(),
            start.wf(),
            grid@.same_shape(start),
            grid@.light == start.light,
            grid@.occlusion == start.occlusion,
            x < start.width,
            z < start.depth,
            y_hi < start.height,
            y_lo <= y <= y_hi + 1,
            forall|a: int, b: int, c: int|
                start.in_bounds(a, b, c) ==> #[trigger] grid@.material(a, b, c) == if a == x && c == z && y_lo <= b
                    < y {
                    material
                } else {
                    start.material(a, b, c)
                },
        decreases y_hi + 1 - y,
    {
        grid.set(x, y, z, material);
        y = y + 1;
    }
}

/// Writes a stamp's furnishings into the grid with its corner at
/// `(start_x, start_z)`.
pub fn place_stamp(grid: &mut VoxelGrid, stamp: &RoomStamp, start_x: usize, start_z: usize)
    requires
        old(grid).wf(),
        stamp.wf(),
        start_x + stamp.width <= old(grid)@.width,
        start_z + stamp.depth <= old(grid)@.depth,
        old(grid)@.height >= 4,
    ensures
        final(grid).wf(),
        final(grid)@.same_shape(old(grid)@),
        final(grid)@.light == old(grid)@.light,
        final(grid)@.occlusion == old(grid)@.occlusion,
        forall|x: int, y: int, z: int|
            old(grid)@.in_bounds(x, y, z) ==> #[trigger] final(grid)@.material(x, y, z) == stamped_material(
                *stamp,
                start_x as int,
                start_z as int,
                old(grid)@.height as int,
                old(grid)@.material(x, y, z),
                x,
                y,
                z,
            ),
{
    let ghost start = grid@;
    let max_y = grid.height() - 2;
    let _len = stamp.data.len();
    let mut sz: usize = 0;
    while sz < stamp.depth
        invariant
            stamp.width * stamp.depth <= usize::MAX,
            grid.wf(),
            start.wf(),
            stamp.wf(),
            grid@.same_shape(start),
            grid@.light == start.light,
            grid@.occlusion == start.occlusion,
            start_x + stamp.width <= start.width,
            start_z + stamp.depth <= start.depth,
            start.height >= 4,
            max_y == start.height - 2,
            0 <= sz <= stamp.depth,
            forall|x: int, y: int, z: int|
                start.in_bounds(x, y, z) ==> #[trigger] grid@.material(x, y, z) == if z < start_z + sz {
                    stamped_material(*stamp, start_x as int, start_z as int, start.height as int, start.material(x, y, z), x, y, z)
                } else {
                    start.material(x, y, z)
                },
        decreases stamp.depth - sz,
    {
        let mut sx: usize = 0;
        while sx < stamp.width
            invariant
                stamp.width * stamp.depth <= usize::MAX,
                grid.wf(),
                start.wf(),
                stamp.wf(),
                grid@.same_shape(start),
                grid@.light == start.light,
                grid@.occlusion == start.occlusion,
                start_x + stamp.width <= start.width,
                start_z + stamp.depth <= start.depth,
                start.height >= 4,
                max_y == start.height - 2,
                0 <= sz < stamp.depth,
                0 <= sx <= stamp.width,
                forall|x: int, y: int, z: int|
                    start.in_bounds(x, y, z) ==> #[trigger] grid@.material(x, y, z) == if z < start_z + sz || (z == start_z
                        + sz && x < start_x + sx) {
                        stamped_material(*stamp, start_x as int, start_z as int, start.height as int, start.material(x, y, z), x, y, z)
                    } else {
                        start.material(x, y, z)
                    },
            decreases stamp.width - sx,
        {
            proof {
                assert(0 <= sz * stamp.width <= (stamp.depth - 1) * stamp.width) by (nonlinear_arith)
                    requires
                        0 <= sz < stamp.depth,
                ;
                assert((stamp.depth - 1) * stamp.width + stamp.width == stamp.width * stamp.depth) by (nonlinear_arith);
            }
            let val = stamp.data[sz * stamp.width + sx];
            let vx = start_x + sx;
            let vz = start_z + sz;
            let ghost before = grid@;
            if val == 1 {
                fill_column(grid, vx, vz, 1, 3, VOXEL_WALL);
            } else if val == 2 {
                fill_column(grid, vx, vz, 1, max_y, VOXEL_WALL);
            } else if val == 3 {
                fill_column(grid, vx, vz, 1, 1, VOXEL_WALL);
            } else if val == 4 {
                fill_column(grid, vx, vz, 1, 2, VOXEL_FLOOR);
            } else if val == 5 {
                fill_column(grid, vx, vz, 1, 1, VOXEL_FLOOR);
            }
            proof {
                assert(stamp.code(sx as int, sz as int) == val);
                assert forall|x: int, y: int, z: int| start.in_bounds(x, y, z) implies #[trigger] grid@.material(x, y, z)
                    == if z < start_z + sz || (z == start_z + sz && x < start_x + sx + 1) {
                    stamped_material(*stamp, start_x as int, start_z as int, start.height as int, start.material(x, y, z), x, y, z)
                } else {
                    start.material(x, y, z)
                } by {
                    assert(before.in_bounds(x, y, z));
                }
            }
            sx = sx + 1;
        }
        sz = sz + 1;
    }
}

// ---------------------------------------------------------------------------
// Randomness

#[verifier::external_type_specification]
#[verifier::external_body]
pub struct ExStdRng(StdRng);

/// Calls `RngExt::random_range` on the half-open range `lo..hi`. rand
/// documents a value drawn from that range and panics only when the range
/// is empty, which `requires` rules out. Which value comes back depends on
/// the generator's state, so nothing more is claimed of it.
#[verifier::external_body]
pub(crate) fn draw_below(rng: &mut StdRng, lo: usize, hi: usize) -> (r: usize)
    requires
        lo < hi,
    ensures
        lo <= r < hi,
{
    rng.random_range(lo..hi)
}

/// Calls `SliceRandom::shuffle`: rand documents an in-place shuffle, so the
/// items come back as a permutation of themselves. Their order depends on
/// the generator's state and is not claimed.
#[verifier::external_body]
fn shuffle_indices(items: &mut Vec<usize>, rng: &mut StdRng)
    ensures
        final(items)@.to_multiset() == old(items)@.to_multiset(),
{
    items.shuffle(rng)
}

// ---------------------------------------------------------------------------
// The maze's cell grid

/// One maze cell: walls north, east, south, west, and whether hallway
/// reservation claimed it.
#[derive(Debug, Clone, Copy, PartialEq, Eq)]
pub struct MazeCell {
    pub walls: [bool; 4],
    pub is_corridor: bool,
}

/// A room as a rectangle of maze cells.
#[derive(Debug, Clone, Copy, PartialEq, Eq, Structural)]
pub struct CellRoom {
    pub cx: usize,
    pub cz: usize,
    pub rw: usize,
    pub rd: usize,
}

pub open spec fn in_room(room: CellRoom, x: int, z: int) -> bool {
    room.cx <= x < room.cx + room.rw && room.cz <= z < room.cz + room.rd
}

/// A cell inside a room loses the walls it shares with the room's other
/// cells; walls on the room's boundary stay.
pub open spec fn carved(room: CellRoom, x: int, z: int, cell: MazeCell) -> MazeCell {
    MazeCell {
        walls: [
            if z > room.cz { false } else { cell.walls[0] },
            if x < room.cx + room.rw - 1 { false } else { cell.walls[1] },
            if z < room.cz + room.rd - 1 { false } else { cell.walls[2] },
            if x > room.cx { false } else { cell.walls[3] },
        ],
        is_corridor: cell.is_corridor,
    }
}

/// Rooms lie inside the `w` by `d` cell grid, and the room grid names for
/// each cell the one room that covers it, if any.
pub open spec fn rooms_wf(rooms: Seq<CellRoom>, room_grid: Seq<Option<usize>>, w: int, d: int) -> bool {
    &&& room_grid.len() == w * d
    &&& forall|r: int|
        0 <= r < rooms.len() ==> {
            &&& 1 <= (#[trigger] rooms[r]).rw <= 3
            &&& 1 <= rooms[r].rd <= 3
            &&& rooms[r].cx + rooms[r].rw <= w
            &&& rooms[r].cz + rooms[r].rd <= d
        }
    &&& forall|x: int, z: int|
        0 <= x < w && 0 <= z < d && (#[trigger] room_grid[z * w + x]) is Some ==> {
            &&& room_grid[z * w + x].unwrap() < rooms.len()
            &&& in_room(rooms[room_grid[z * w + x].unwrap() as int], x, z)
        }
    &&& forall|r: int, x: int, z: int|
        0 <= r < rooms.len() && #[trigger] in_room(rooms[r], x, z) ==> room_grid[z * w + x] == Some(r as usize)
}

proof fn lemma_cell_index(w: int, d: int, x: int, z: int)
    requires
        0 <= x < w,
        0 <= z < d,
    ensures
        0 <= z * w + x < w * d,
        (z * w + x) % w == x,
        (z * w + x) / w == z,
{
    assert(0 <= z * w <= (d - 1) * w) by (nonlinear_arith)
        requires
            0 <= z < d,
            w > 0,
    ;
    assert((d - 1) * w + w == w * d) by (nonlinear_arith);
    vstd::arithmetic::div_mod::lemma_fundamental_div_mod_converse(z * w + x, w, z, x);
}

proof fn lemma_cell_decode(w: int, d: int, i: int)
    requires
        w > 0,
        0 <= i < w * d,
    ensures
        0 <= i % w < w,
        0 <= i / w < d,
        i == (i / w) * w + i % w,
{
    vstd::arithmetic::div_mod::lemma_mod_pos_bound(i, w);
    vstd::arithmetic::div_mod::lemma_div_pos_is_pos(i, w);
    vstd::arithmetic::div_mod::lemma_multiply_divide_lt(i, w, d);
    vstd::arithmetic::div_mod::lemma_fundamental_div_mod(i, w);
    assert(w * (i / w) == (i / w) * w) by (nonlinear_arith);
}

/// Is any cell of the candidate rectangle already part of a room?
fn overlaps_room(room_grid: &Vec<Option<usize>>, w: usize, d: usize, room: CellRoom) -> (overlap: bool)
    requires
        room_grid@.len() == w * d,
        room.cx + room.rw <= w,
        room.cz + room.rd <= d,
    ensures
        overlap == exists|x: int, z: int| in_room(room, x, z) && (#[trigger] room_grid@[z * w + x]) is Some,
{
    let _n = room_grid.len();
    let mut i: usize = 0;
    while i < room.rw
        invariant
            room_grid@.len() == w * d,
            w * d <= usize::MAX,
            room.cx + room.rw <= w,
            room.cz + room.rd <= d,
            0 <= i <= room.rw,
            forall|x: int, z: int|
                room.cx <= x < room.cx + i && room.cz <= z < room.cz + room.rd ==> (#[trigger] room_grid@[z * w + x]) is None,
        decreases room.rw - i,
    {
        let mut j: usize = 0;
        while j < room.rd
            invariant
                room_grid@.len() == w * d,
                w * d <= usize::MAX,
                room.cx + room.rw <= w,
                room.cz + room.rd <= d,
                0 <= i < room.rw,
                0 <= j <= room.rd,
                forall|x: int, z: int|
                    room.cx <= x < room.cx + i && room.cz <= z < room.cz + room.rd ==> (#[trigger] room_grid@[z * w + x]) is None,
                forall|z: int| room.cz <= z < room.cz + j ==> (#[trigger] room_grid@[z * w + room.cx + i]) is None,
            decreases room.rd - j,
        {
            let x = room.cx + i;
            let z = room.cz + j;
            proof {
                lemma_cell_index(w as int, d as int, x as int, z as int);
            }
            if room_grid[z * w + x].is_some() {
                proof {
                    assert(in_room(room, x as int, z as int));
                    assert(room_grid@[z * w + x] is Some);
                }
                return true;
            }
            j = j + 1;
        }
        proof {
            assert forall|x: int, z: int|
                room.cx <= x < room.cx + i + 1 && room.cz <= z < room.cz + room.rd implies (#[trigger] room_grid@[z * w
                + x]) is None by {
                if x == room.cx + i {
                    assert(room_grid@[z * w + room.cx + i] is None);
                }
            }
        }
        i = i + 1;
    }
    false
}

/// Carves one candidate room out of the maze when it fits inside the grid
/// and touches no existing room: its cells join it in the room grid and
/// lose their interior walls. Returns whether it was placed; otherwise
/// nothing changes.
pub fn try_place_room(
    cells: &mut Vec<MazeCell>,
    room_grid: &mut Vec<Option<usize>>,
    rooms: &mut Vec<CellRoom>,
    w: usize,
    d: usize,
    room: CellRoom,
) -> (placed: bool)
    requires
        old(cells)@.len() == w * d,
        rooms_wf(old(rooms)@, old(room_grid)@, w as int, d as int),
        1 <= room.rw <= 3,
        1 <= room.rd <= 3,
        room.cx < w,
        room.cz < d,
    ensures
        placed == (room.cx + room.rw <= w && room.cz + room.rd <= d && !exists|x: int, z: int|
            in_room(room, x, z) && (#[trigger] old(room_grid)@[z * w + x]) is Some),
        rooms_wf(final(rooms)@, final(room_grid)@, w as int, d as int),
        final(cells)@.len() == w * d,
        !placed ==> final(rooms)@ == old(rooms)@ && final(room_grid)@ == old(room_grid)@ && final(cells)@
            == old(cells)@,
        placed ==> final(rooms)@ == old(rooms)@.push(room),
        placed ==> forall|x: int, z: int|
            0 <= x < w && 0 <= z < d ==> #[trigger] final(cells)@[z * w + x] == if in_room(room, x, z) {
                carved(room, x, z, old(cells)@[z * w + x])
            } else {
                old(cells)@[z * w + x]
            },
{
    if room.rw > w - room.cx || room.rd > d - room.cz {
        return false;
    }
    let _n = cells.len();
    if overlaps_room(room_grid, w, d, room) {
        return false;
    }
    let room_id = rooms.len();
    let ghost old_cells = cells@;
    let ghost old_grid = room_grid@;
    let ghost old_rooms = rooms@;
    rooms.push(room);
    let mut i: usize = 0;
    while i < room.rw
        invariant
            w > 0,
            w * d <= usize::MAX,
            cells@.len() == w * d,
            old_cells.len() == w * d,
            room_grid@.len() == w * d,
            rooms@ == old_rooms.push(room),
            room_id == old_rooms.len(),
            rooms_wf(old_rooms, old_grid, w as int, d as int),
            1 <= room.rw <= 3,
            1 <= room.rd <= 3,
            room.cx + room.rw <= w,
            room.cz + room.rd <= d,
            forall|x: int, z: int| in_room(room, x, z) ==> (#[trigger] old_grid[z * w + x]) is None,
            0 <= i <= room.rw,
            forall|x: int, z: int|
                0 <= x < w && 0 <= z < d ==> #[trigger] room_grid@[z * w + x] == if in_room(room, x, z) && x
                    < room.cx + i {
                    Some(room_id)
                } else {
                    old_grid[z * w + x]
                },
            forall|x: int, z: int|
                0 <= x < w && 0 <= z < d ==> #[trigger] cells@[z * w + x] == if in_room(room, x, z) && x < room.cx
                    + i {
                    carved(room, x, z, old_cells[z * w + x])
                } else {
                    old_cells[z * w + x]
                },
        decreases room.rw - i,
    {
        let mut j: usize = 0;
        while j < room.rd
            invariant
                w > 0,
                w * d <= usize::MAX,
                cells@.len() == w * d,
                old_cells.len() == w * d,
                room_grid@.len() == w * d,
                1 <= room.rw <= 3,
                1 <= room.rd <= 3,
                room.cx + room.rw <= w,
                room.cz + room.rd <= d,
                0 <= i < room.rw,
                0 <= j <= room.rd,
                forall|x: int, z: int|
                    0 <= x < w && 0 <= z < d ==> #[trigger] room_grid@[z * w + x] == if in_room(room, x, z) && (x
                        < room.cx + i || (x == room.cx + i && z < room.cz + j)) {
                        Some(room_id)
                    } else {
                        old_grid[z * w + x]
                    },
                forall|x: int, z: int|
                    0 <= x < w && 0 <= z < d ==> #[trigger] cells@[z * w + x] == if in_room(room, x, z) && (x
                        < room.cx + i || (x == room.cx + i && z < room.cz + j)) {
                        carved(room, x, z, old_cells[z * w + x])
                    } else {
                        old_cells[z * w + x]
                    },
            decreases room.rd - j,
        {
            let x = room.cx + i;
            let z = room.cz + j;
            proof {
                lemma_cell_index(w as int, d as int, x as int, z as int);
            }
            let k = z * w + x;
            let ghost grid_before = room_grid@;
            let ghost cells_before = cells@;
            room_grid.set(k, Some(room_id));
            let c = cells[k];
            let carved_cell = MazeCell {
                walls: [
                    if j > 0 { false } else { c.walls[0] },
                    if i < room.rw - 1 { false } else { c.walls[1] },
                    if j < room.rd - 1 { false } else { c.walls[2] },
                    if i > 0 { false } else { c.walls[3] },
                ],
                is_corridor: c.is_corridor,
            };
            cells.set(k, carved_cell);
            proof {
                assert(cells_before[k as int] == old_cells[k as int]);
                assert(carved_cell == carved(room, x as int, z as int, old_cells[k as int]));
                assert forall|a: int, b: int| 0 <= a < w && 0 <= b < d implies #[trigger] room_grid@[b * w + a] == if in_room(
                    room,
                    a,
                    b,
                ) && (a < room.cx + i || (a == room.cx + i && b < room.cz + j + 1)) {
                    Some(room_id)
                } else {
                    old_grid[b * w + a]
                } by {
                    lemma_cell_index(w as int, d as int, a, b);
                    if b * w + a == k {
                        assert(a == x && b == z);
                    } else {
                        assert(room_grid@[b * w + a] == grid_before[b * w + a]);
                    }
                }
                assert forall|a: int, b: int| 0 <= a < w && 0 <= b < d implies #[trigger] cells@[b * w + a] == if in_room(
                    room,
                    a,
                    b,
                ) && (a < room.cx + i || (a == room.cx + i && b < room.cz + j + 1)) {
                    carved(room, a, b, old_cells[b * w + a])
                } else {
                    old_cells[b * w + a]
                } by {
                    lemma_cell_index(w as int, d as int, a, b);
                    if b * w + a == k {
                        assert(a == x && b == z);
                    } else {
                        assert(cells@[b * w + a] == cells_before[b * w + a]);
                    }
                }
            }
            j = j + 1;
        }
        i = i + 1;
    }
    proof {
        let rs = rooms@;
        let rg = room_grid@;
        assert(rs[room_id as int] == room);
        assert forall|x: int, z: int| 0 <= x < w && 0 <= z < d && (#[trigger] rg[z * w + x]) is Some implies {
            &&& rg[z * w + x].unwrap() < rs.len()
            &&& in_room(rs[rg[z * w + x].unwrap() as int], x, z)
        } by {
            if !in_room(room, x, z) {
                assert(rg[z * w + x] == old_grid[z * w + x]);
                assert(rs[old_grid[z * w + x].unwrap() as int] == old_rooms[old_grid[z * w + x].unwrap() as int]);
            }
        }
        assert forall|r: int, x: int, z: int| 0 <= r < rs.len() && #[trigger] in_room(rs[r], x, z) implies rg[z * w
            + x] == Some(r as usize) by {
            if r < old_rooms.len() {
                assert(rs[r] == old_rooms[r]);
                assert(old_grid[z * w + x] == Some(r as usize));
                assert(!in_room(room, x, z));
            }
        }
        assert forall|r: int| 0 <= r < rs.len() implies {
            &&& 1 <= (#[trigger] rs[r]).rw <= 3
            &&& 1 <= rs[r].rd <= 3
            &&& rs[r].cx + rs[r].rw <= w
            &&& rs[r].cz + rs[r].rd <= d
        } by {
            if r < old_rooms.len() {
                assert(rs[r] == old_rooms[r]);
            }
        }
    }
    true
}

/// The candidate lies inside the `w` by `d` cell grid.
pub open spec fn fits_grid(room: CellRoom, w: int, d: int) -> bool {
    room.cx + room.rw <= w && room.cz + room.rd <= d
}

/// The candidate shares a cell with one of `rooms`.
pub open spec fn overlaps_any(rooms: Seq<CellRoom>, room: CellRoom) -> bool {
    exists|r: int, x: int, z: int| 0 <= r < rooms.len() && #[trigger] in_room(rooms[r], x, z) && #[trigger] in_room(room, x, z)
}

/// The rooms kept from the candidates, in order: each candidate that fits
/// the grid and overlaps no room kept before it.
pub open spec fn kept_rooms(candidates: Seq<CellRoom>, w: int, d: int) -> Seq<CellRoom>
    decreases candidates.len(),
{
    if candidates.len() == 0 {
        Seq::empty()
    } else {
        let before = kept_rooms(candidates.drop_last(), w, d);
        let c = candidates.last();
        if fits_grid(c, w, d) && !overlaps_any(before, c) {
            before.push(c)
        } else {
            before
        }
    }
}

/// A candidate room as the segmentation draws it: a cell of the grid and a
/// size of one to three cells per axis.
pub open spec fn drawable(room: CellRoom, w: int, d: int) -> bool {
    &&& room.cx < w
    &&& room.cz < d
    &&& 1 <= room.rw <= 3
    &&& 1 <= room.rd <= 3
}

/// Room placement attempts per chunk.
pub const ROOM_ATTEMPTS: usize = 15;

/// What the maze cells hold after segmentation: cells of a room are carved
/// for it, all others are as they were.
pub open spec fn segmented_cell(
    rooms: Seq<CellRoom>,
    room_grid: Seq<Option<usize>>,
    w: int,
    before: Seq<MazeCell>,
    x: int,
    z: int,
) -> MazeCell {
    if room_grid[z * w + x] is Some {
        carved(rooms[room_grid[z * w + x].unwrap() as int], x, z, before[z * w + x])
    } else {
        before[z * w + x]
    }
}

/// Within the grid, a candidate touches an occupied cell of the room grid
/// exactly when it overlaps one of the rooms the grid records.
proof fn lemma_overlap_matches_grid(rooms: Seq<CellRoom>, room_grid: Seq<Option<usize>>, w: int, d: int, room: CellRoom)
    requires
        rooms_wf(rooms, room_grid, w, d),
        fits_grid(room, w, d),
    ensures
        (exists|x: int, z: int| in_room(room, x, z) && (#[trigger] room_grid[z * w + x]) is Some) == overlaps_any(
            rooms,
            room,
        ),
{
    if exists|x: int, z: int| in_room(room, x, z) && (#[trigger] room_grid[z * w + x]) is Some {
        let (x, z) = choose|x: int, z: int| in_room(room, x, z) && (#[trigger] room_grid[z * w + x]) is Some;
        let r = room_grid[z * w + x].unwrap() as int;
        assert(in_room(rooms[r], x, z));
    }
    if overlaps_any(rooms, room) {
        let (r, x, z) = choose|r: int, x: int, z: int|
            0 <= r < rooms.len() && #[trigger] in_room(rooms[r], x, z) && #[trigger] in_room(room, x, z);
        assert(room_grid[z * w + x] == Some(r as usize));
    }
}

/// Organic room segmentation: a fixed number of attempts, each drawing a
/// cell and a size of one to three cells per axis, keeping the rooms that
/// fit and overlap nothing. Whatever the draws, the rooms are disjoint,
/// inside the grid and exactly recorded in the room grid, and only their
/// interior walls are removed.
pub fn segment_rooms(rng: &mut StdRng, cells: &mut Vec<MazeCell>, w: usize, d: usize) -> (r: (
    Vec<CellRoom>,
    Vec<Option<usize>>,
))
    requires
        old(cells)@.len() == w * d,
        w > 0,
        d > 0,
    ensures
        rooms_wf(r.0@, r.1@, w as int, d as int),
        r.0@.len() <= ROOM_ATTEMPTS,
        exists|draws: Seq<CellRoom>|
            draws.len() == ROOM_ATTEMPTS && (forall|a: int| 0 <= a < draws.len() ==> drawable(
                #[trigger] draws[a],
                w as int,
                d as int,
            )) && r.0@ == #[trigger] kept_rooms(draws, w as int, d as int),
        final(cells)@.len() == w * d,
        forall|x: int, z: int|
            0 <= x < w && 0 <= z < d ==> #[trigger] final(cells)@[z * w + x] == segmented_cell(
                r.0@,
                r.1@,
                w as int,
                old(cells)@,
                x,
                z,
            ),
{
    let n = cells.len();
    let ghost initial = cells@;
    let mut room_grid: Vec<Option<usize>> = Vec::new();
    let mut k: usize = 0;
    while k < n
        invariant
            0 <= k <= n,
            n == w * d,
            room_grid@.len() == k,
            forall|i: int| 0 <= i < k ==> #[trigger] room_grid@[i] is None,
        decreases n - k,
    {
        room_grid.push(None);
        k = k + 1;
    }
    let mut rooms: Vec<CellRoom> = Vec::new();
    proof {
        assert forall|x: int, z: int| 0 <= x < w && 0 <= z < d && (#[trigger] room_grid@[z * w + x]) is Some implies {
            &&& room_grid@[z * w + x].unwrap() < rooms@.len()
            &&& in_room(rooms@[room_grid@[z * w + x].unwrap() as int], x, z)
        } by {
            lemma_cell_index(w as int, d as int, x, z);
        }
    }
    let ghost mut draws: Seq<CellRoom> = Seq::empty();
    let mut attempt: usize = 0;
    while attempt < ROOM_ATTEMPTS
        invariant
            0 <= attempt <= ROOM_ATTEMPTS,
            draws.len() == attempt,
            forall|a: int| 0 <= a < draws.len() ==> drawable(#[trigger] draws[a], w as int, d as int),
            rooms@ == kept_rooms(draws, w as int, d as int),
            w > 0,
            d > 0,
            n == w * d,
            initial.len() == w * d,
            cells@.len() == w * d,
            rooms_wf(rooms@, room_grid@, w as int, d as int),
            rooms@.len() <= attempt,
            forall|x: int, z: int|
                0 <= x < w && 0 <= z < d ==> #[trigger] cells@[z * w + x] == segmented_cell(
                    rooms@,
                    room_grid@,
                    w as int,
                    initial,
                    x,
                    z,
                ),
        decreases ROOM_ATTEMPTS - attempt,
    {
        let cx = draw_below(rng, 0, w);
        let cz = draw_below(rng, 0, d);
        // `1..4` draws exactly as `1..=3` does.
        let rw = draw_below(rng, 1, 4);
        let rd = draw_below(rng, 1, 4);
        let room = CellRoom { cx, cz, rw, rd };
        let ghost cells_before = cells@;
        let ghost grid_before = room_grid@;
        let ghost rooms_before = rooms@;
        let placed = try_place_room(cells, &mut room_grid, &mut rooms, w, d, room);
        proof {
            if fits_grid(room, w as int, d as int) {
                lemma_overlap_matches_grid(rooms_before, grid_before, w as int, d as int, room);
            }
            let next = draws.push(room);
            assert(next.drop_last() =~= draws);
            draws = next;
            if placed {
                assert forall|x: int, z: int| 0 <= x < w && 0 <= z < d implies #[trigger] cells@[z * w + x]
                    == segmented_cell(rooms@, room_grid@, w as int, initial, x, z) by {
                    lemma_cell_index(w as int, d as int, x, z);
                    if in_room(room, x, z) {
                        assert(rooms@[rooms_before.len() as int] == room);
                        assert(room_grid@[z * w + x] == Some(rooms_before.len() as usize));
                        assert(grid_before[z * w + x] is None);
                        assert(cells_before[z * w + x] == initial[z * w + x]);
                    } else {
                        assert(cells@[z * w + x] == cells_before[z * w + x]);
                        if grid_before[z * w + x] is Some {
                            let r = grid_before[z * w + x].unwrap() as int;
                            assert(in_room(rooms_before[r], x, z));
                            assert(rooms@[r] == rooms_before[r]);
                            assert(room_grid@[z * w + x] == Some(r as usize));
                        } else {
                            if room_grid@[z * w + x] is Some {
                                let r = room_grid@[z * w + x].unwrap() as int;
                                assert(in_room(rooms@[r], x, z));
                                if r < rooms_before.len() {
                                    assert(rooms@[r] == rooms_before[r]);
                                }
                            }
                        }
                    }
                }
            }
        }
        attempt = attempt + 1;
    }
    (rooms, room_grid)
}

/// Cells that were not hallway before and are after.
pub open spec fn newly_marked(before: Seq<MazeCell>, after: Seq<MazeCell>) -> Set<int> {
    Set::new(|i: int| 0 <= i < before.len() && !before[i].is_corridor && after[i].is_corridor)
}

/// Hallway reservation only ever marks cells: walls stay, marks stay, and
/// no cell of a room becomes hallway.
pub open spec fn hallway_ok(before: Seq<MazeCell>, after: Seq<MazeCell>, room_grid: Seq<Option<usize>>) -> bool {
    &&& after.len() == before.len()
    &&& forall|i: int| 0 <= i < before.len() ==> (#[trigger] after[i]).walls == before[i].walls
    &&& forall|i: int| 0 <= i < before.len() && before[i].is_corridor ==> (#[trigger] after[i]).is_corridor
    &&& forall|i: int|
        0 <= i < before.len() && (#[trigger] room_grid[i]) is Some ==> after[i].is_corridor == before[i].is_corridor
}

pub open spec fn hall_inv(before: Seq<MazeCell>, cur: Seq<MazeCell>, room_grid: Seq<Option<usize>>, count: int) -> bool {
    &&& hallway_ok(before, cur, room_grid)
    &&& newly_marked(before, cur).finite()
    &&& count == newly_marked(before, cur).len()
}

proof fn lemma_hall_start(before: Seq<MazeCell>, room_grid: Seq<Option<usize>>)
    ensures
        hall_inv(before, before, room_grid, 0),
{
    assert(newly_marked(before, before) =~= Set::<int>::empty());
}

proof fn lemma_mark(before: Seq<MazeCell>, cur: Seq<MazeCell>, room_grid: Seq<Option<usize>>, count: int, k: int)
    requires
        hall_inv(before, cur, room_grid, count),
        0 <= k < cur.len(),
        !cur[k].is_corridor,
        room_grid[k] is None,
    ensures
        hall_inv(before, cur.update(k, MazeCell { walls: cur[k].walls, is_corridor: true }), room_grid, count + 1),
        count + 1 <= cur.len(),
{
    let next = cur.update(k, MazeCell { walls: cur[k].walls, is_corridor: true });
    let marked = newly_marked(before, cur);
    assert(newly_marked(before, next) =~= marked.insert(k));
    assert(!marked.contains(k));
    vstd::set_lib::lemma_int_range(0, cur.len() as int);
    assert(marked.insert(k).subset_of(vstd::set_lib::set_int_range(0, cur.len() as int)));
    vstd::set_lib::lemma_len_subset(marked.insert(k), vstd::set_lib::set_int_range(0, cur.len() as int));
    assert forall|i: int| 0 <= i < before.len() implies (#[trigger] next[i]).walls == before[i].walls by {
        assert(cur[i].walls == before[i].walls);
    }
}

/// A cell claimed as hallway, its walls unchanged.
pub open spec fn claimed(cell: MazeCell) -> MazeCell {
    MazeCell { walls: cell.walls, is_corridor: true }
}

/// The grid has a cell one step from `(x, z)` in direction `dir` (0 north,
/// 1 east, 2 south, 3 west).
pub open spec fn can_step(w: int, d: int, x: int, z: int, dir: int) -> bool {
    if dir == 0 {
        z > 0
    } else if dir == 2 {
        z + 1 < d
    } else if dir == 3 {
        x > 0
    } else {
        x + 1 < w
    }
}

/// Column of the cell one step from column `x` in direction `dir`.
pub open spec fn step_x(x: int, dir: int) -> int {
    if dir == 0 || dir == 2 {
        x
    } else if dir == 3 {
        x - 1
    } else {
        x + 1
    }
}

/// Row of the cell one step from row `z` in direction `dir`.
pub open spec fn step_z(z: int, dir: int) -> int {
    if dir == 0 {
        z - 1
    } else if dir == 2 {
        z + 1
    } else {
        z
    }
}

/// A hallway run from `(x, z)` in direction `dir`: through each open wall
/// it claims the next cell, and it stops at a wall, the grid's edge, a room
/// or a cell that is hallway already. The cells afterwards, and how many
/// the run claimed.
pub open spec fn run_from(
    cells: Seq<MazeCell>,
    room_grid: Seq<Option<usize>>,
    w: int,
    d: int,
    x: int,
    z: int,
    dir: int,
) -> (Seq<MazeCell>, nat)
    decreases (if dir == 0 {
        z
    } else if dir == 2 {
        d - z
    } else if dir == 3 {
        x
    } else {
        w - x
    }),
{
    if !can_step(w, d, x, z, dir) || cells[z * w + x].walls[dir] {
        (cells, 0)
    } else {
        let (nx, nz) = (step_x(x, dir), step_z(z, dir));
        let i = nz * w + nx;
        if room_grid[i] is Some || cells[i].is_corridor {
            (cells, 0)
        } else {
            let rest = run_from(cells.update(i, claimed(cells[i])), room_grid, w, d, nx, nz, dir);
            (rest.0, rest.1 + 1)
        }
    }
}

/// Hallway reservation over the visiting order `order`, from its position
/// `t` on with `count` cells claimed so far, until `target` are: each cell
/// of the order not yet hallway is claimed and runs north, south, west and
/// east. The cells afterwards, and the number claimed in all.
pub open spec fn claim_from(
    cells: Seq<MazeCell>,
    room_grid: Seq<Option<usize>>,
    order: Seq<usize>,
    t: int,
    count: nat,
    target: int,
    w: int,
    d: int,
) -> (Seq<MazeCell>, nat)
    decreases order.len() - t,
{
    if t < 0 || t >= order.len() || count >= target {
        (cells, count)
    } else {
        let idx = order[t] as int;
        if cells[idx].is_corridor {
            claim_from(cells, room_grid, order, t + 1, count, target, w, d)
        } else {
            let (x, z) = (idx % w, idx / w);
            let north = run_from(cells.update(idx, claimed(cells[idx])), room_grid, w, d, x, z, 0);
            let south = run_from(north.0, room_grid, w, d, x, z, 2);
            let west = run_from(south.0, room_grid, w, d, x, z, 3);
            let east = run_from(west.0, room_grid, w, d, x, z, 1);
            claim_from(
                east.0,
                room_grid,
                order,
                t + 1,
                count + 1 + north.1 + south.1 + west.1 + east.1,
                target,
                w,
                d,
            )
        }
    }
}

/// The cells among the first `n` that no room claimed, in row-major order.
pub open spec fn free_cells_upto(room_grid: Seq<Option<usize>>, n: int) -> Seq<usize>
    decreases n,
{
    if n <= 0 {
        Seq::empty()
    } else if room_grid[n - 1] is None {
        free_cells_upto(room_grid, n - 1).push((n - 1) as usize)
    } else {
        free_cells_upto(room_grid, n - 1)
    }
}

/// The cells no room claimed, in row-major order.
pub open spec fn free_cells(room_grid: Seq<Option<usize>>) -> Seq<usize> {
    free_cells_upto(room_grid, room_grid.len() as int)
}

fn mark_corridor(cells: &mut Vec<MazeCell>, k: usize)
    requires
        k < old(cells)@.len(),
    ensures
        final(cells)@ == old(cells)@.update(k as int, MazeCell { walls: old(cells)@[k as int].walls, is_corridor: true }),
{
    let c = cells[k];
    cells.set(k, MazeCell { walls: c.walls, is_corridor: true });
}

/// Extends a hallway from `(x0, z0)` through open walls in one direction
/// (0 north, 1 east, 2 south, 3 west) until it meets a wall, a room, an
/// existing hallway or the grid's edge.
fn extend_run(
    cells: &mut Vec<MazeCell>,
    room_grid: &Vec<Option<usize>>,
    w: usize,
    d: usize,
    x0: usize,
    z0: usize,
    dir: usize,
    count: &mut usize,
    Ghost(before): Ghost<Seq<MazeCell>>,
)
    requires
        old(cells)@.len() == w * d,
        room_grid@.len() == w * d,
        w * d <= usize::MAX,
        x0 < w,
        z0 < d,
        dir < 4,
        hall_inv(before, old(cells)@, room_grid@, *old(count) as int),
    ensures
        final(cells)@.len() == w * d,
        hall_inv(before, final(cells)@, room_grid@, *final(count) as int),
        final(cells)@ == run_from(old(cells)@, room_grid@, w as int, d as int, x0 as int, z0 as int, dir as int).0,
        *final(count) == *old(count) + run_from(old(cells)@, room_grid@, w as int, d as int, x0 as int, z0 as int, dir as int).1,
{
    let ghost run = run_from(cells@, room_grid@, w as int, d as int, x0 as int, z0 as int, dir as int);
    let ghost count0 = *count as int;
    let mut x = x0;
    let mut z = z0;
    loop
        invariant
            cells@.len() == w * d,
            room_grid@.len() == w * d,
            w * d <= usize::MAX,
            x < w,
            z < d,
            dir < 4,
            hall_inv(before, cells@, room_grid@, *count as int),
            run_from(cells@, room_grid@, w as int, d as int, x as int, z as int, dir as int).0 == run.0,
            *count + run_from(cells@, room_grid@, w as int, d as int, x as int, z as int, dir as int).1 == count0 + run.1,
        ensures
            cells@.len() == w * d,
            hall_inv(before, cells@, room_grid@, *count as int),
            cells@ == run.0,
            *count == count0 + run.1,
        decreases (if dir == 0 { z as int } else if dir == 2 { d - z } else if dir == 3 { x as int } else { w - x }),
    {
        proof {
            lemma_cell_index(w as int, d as int, x as int, z as int);
        }
        let here = z * w + x;
        let can_move = if dir == 0 {
            z > 0
        } else if dir == 2 {
            z + 1 < d
        } else if dir == 3 {
            x > 0
        } else {
            x + 1 < w
        };
        if !can_move || cells[here].walls[dir] {
            break;
        }
        let (nx, nz) = if dir == 0 {
            (x, z - 1)
        } else if dir == 2 {
            (x, z + 1)
        } else if dir == 3 {
            (x - 1, z)
        } else {
            (x + 1, z)
        };
        proof {
            lemma_cell_index(w as int, d as int, nx as int, nz as int);
        }
        let i = nz * w + nx;
        if room_grid[i].is_some() || cells[i].is_corridor {
            break;
        }
        proof {
            lemma_mark(before, cells@, room_grid@, *count as int, i as int);
        }
        mark_corridor(cells, i);
        *count = *count + 1;
        x = nx;
        z = nz;
    }
}

/// Hallway reservation over a cell visiting order: each unclaimed cell in
/// the order becomes hallway and extends its run in all four directions,
/// until `target` cells have been claimed. Returns how many were claimed.
pub fn extend_corridors(
    cells: &mut Vec<MazeCell>,
    room_grid: &Vec<Option<usize>>,
    order: &Vec<usize>,
    target: usize,
    w: usize,
    d: usize,
) -> (count: usize)
    requires
        old(cells)@.len() == w * d,
        room_grid@.len() == w * d,
        w > 0,
        d > 0,
        forall|k: int| 0 <= k < order@.len() ==> #[trigger] order@[k] < w * d && room_grid@[order@[k] as int] is None,
    ensures
        hallway_ok(old(cells)@, final(cells)@, room_grid@),
        count == newly_marked(old(cells)@, final(cells)@).len(),
        final(cells)@ == claim_from(old(cells)@, room_grid@, order@, 0, 0, target as int, w as int, d as int).0,
        count == claim_from(old(cells)@, room_grid@, order@, 0, 0, target as int, w as int, d as int).1,
{
    let ghost before = cells@;
    let ghost claim = claim_from(before, room_grid@, order@, 0, 0, target as int, w as int, d as int);
    let _n = cells.len();
    let mut count: usize = 0;
    proof {
        lemma_hall_start(before, room_grid@);
    }
    let mut t: usize = 0;
    while t < order.len()
        invariant
            cells@.len() == w * d,
            room_grid@.len() == w * d,
            w * d <= usize::MAX,
            w > 0,
            d > 0,
            before.len() == w * d,
            forall|k: int| 0 <= k < order@.len() ==> #[trigger] order@[k] < w * d && room_grid@[order@[k] as int] is None,
            hall_inv(before, cells@, room_grid@, count as int),
            0 <= t <= order@.len(),
            claim_from(cells@, room_grid@, order@, t as int, count as nat, target as int, w as int, d as int) == claim,
        ensures
            hall_inv(before, cells@, room_grid@, count as int),
            cells@ == claim.0,
            count == claim.1,
        decreases order@.len() - t,
    {
        if count >= target {
            break;
        }
        let idx = order[t];
        proof {
            assert(order@[t as int] < w * d);
            lemma_cell_decode(w as int, d as int, idx as int);
        }
        let cx = idx % w;
        let cz = idx / w;
        if !cells[idx].is_corridor {
            proof {
                lemma_mark(before, cells@, room_grid@, count as int, idx as int);
            }
            mark_corridor(cells, idx);
            count = count + 1;
            extend_run(cells, room_grid, w, d, cx, cz, 0, &mut count, Ghost(before));
            extend_run(cells, room_grid, w, d, cx, cz, 2, &mut count, Ghost(before));
            extend_run(cells, room_grid, w, d, cx, cz, 3, &mut count, Ghost(before));
            extend_run(cells, room_grid, w, d, cx, cz, 1, &mut count, Ghost(before));
        }
        t = t + 1;
    }
    count
}

/// The cells no room claimed, in row-major order.
pub fn non_room_cells(room_grid: &Vec<Option<usize>>) -> (free: Vec<usize>)
    ensures
        free@ == free_cells(room_grid@),
        forall|k: int| 0 <= k < free@.len() ==> #[trigger] free@[k] < room_grid@.len() && room_grid@[free@[k] as int] is None,
        forall|i: int| 0 <= i < room_grid@.len() && (#[trigger] room_grid@[i]) is None ==> free@.contains(i as usize),
{
    let mut free: Vec<usize> = Vec::new();
    let mut i: usize = 0;
    while i < room_grid.len()
        invariant
            0 <= i <= room_grid@.len(),
            forall|k: int| 0 <= k < free@.len() ==> #[trigger] free@[k] < room_grid@.len() && room_grid@[free@[k] as int] is None,
            forall|j: int| 0 <= j < i && (#[trigger] room_grid@[j]) is None ==> free@.contains(j as usize),
            free@ == free_cells_upto(room_grid@, i as int),
        decreases room_grid@.len() - i,
    {
        if room_grid[i].is_none() {
            let ghost prev = free@;
            free.push(i);
            proof {
                assert forall|j: int| 0 <= j < i && (#[trigger] room_grid@[j]) is None implies free@.contains(j as usize) by {
                    let k = choose|k: int| 0 <= k < prev.len() && prev[k] == j as usize;
                    assert(free@[k] == j as usize);
                }
                assert(free@[free@.len() - 1] == i);
            }
        }
        i = i + 1;
    }
    free
}

/// Hallway reservation: the cells no room claimed are visited in a shuffled
/// order and grown into hallway runs until `target` cells are claimed.
/// Whatever the shuffle, walls never change, rooms never become hallway,
/// and the count returned is the number of cells claimed.
pub fn reserve_hallways(
    rng: &mut StdRng,
    cells: &mut Vec<MazeCell>,
    room_grid: &Vec<Option<usize>>,
    target: usize,
    w: usize,
    d: usize,
) -> (count: usize)
    requires
        old(cells)@.len() == w * d,
        room_grid@.len() == w * d,
        w > 0,
        d > 0,
    ensures
        hallway_ok(old(cells)@, final(cells)@, room_grid@),
        count == newly_marked(old(cells)@, final(cells)@).len(),
        exists|order: Seq<usize>|
            #[trigger] order.to_multiset() == free_cells(room_grid@).to_multiset() && final(cells)@ == claim_from(
                old(cells)@,
                room_grid@,
                order,
                0,
                0,
                target as int,
                w as int,
                d as int,
            ).0 && count == claim_from(old(cells)@, room_grid@, order, 0, 0, target as int, w as int, d as int).1,
{
    let mut order = non_room_cells(room_grid);
    let ghost listed = order@;
    shuffle_indices(&mut order, rng);
    proof {
        assert forall|k: int| 0 <= k < order@.len() implies #[trigger] order@[k] < w * d && room_grid@[order@[k] as int]
            is None by {
            let v = order@[k];
            assert(order@.to_multiset().contains(v)) by {
                vstd::seq_lib::to_multiset_contains(order@, v);
            }
            assert(listed.to_multiset().contains(v));
            vstd::seq_lib::to_multiset_contains(listed, v);
            let j = choose|j: int| 0 <= j < listed.len() && listed[j] == v;
            assert(listed[j] < room_grid@.len());
        }
    }
    extend_corridors(cells, room_grid, &order, target, w, d)
}

} // verus!
