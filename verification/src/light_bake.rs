//! The integer stages of a voxel light bake: erasing the previous bake,
//! finding where ceiling fixtures may seed light, and walking a cell's face
//! neighbours in a fixed order.
//!
//! Fixtures emit only through their downward face: a fixture on the floor,
//! buried below a solid, or exposed only on a side seeds nothing.

use vstd::prelude::*;
use crate::voxel_grid::{VoxelGrid, GridView, VOXEL_AIR};

verus! {

/// Why a set of bake settings was refused.
#[derive(Debug, Clone, Copy, PartialEq, Eq, Structural)]
pub enum InvalidVoxelLightingSettings {
    VoxelSize,
    MaxRange,
}

impl InvalidVoxelLightingSettings {
    /// The message shown for this refusal.
    pub fn message(&self) -> (text: &'static str)
        ensures
            *self == InvalidVoxelLightingSettings::VoxelSize ==> text@
                == "voxel size must be finite and greater than zero"@,
            *self == InvalidVoxelLightingSettings::MaxRange ==> text@
                == "maximum light range must be finite and greater than zero"@,
    {
        match self {
            InvalidVoxelLightingSettings::VoxelSize => "voxel size must be finite and greater than zero",
            InvalidVoxelLightingSettings::MaxRange => "maximum light range must be finite and greater than zero",
        }
    }
}

#[derive(Debug, Clone, Copy, PartialEq, Eq, Structural)]
pub struct VoxelCoord {
    pub x: usize,
    pub y: usize,
    pub z: usize,
}

#[derive(Debug, Clone, Copy, PartialEq, Eq, Structural)]
pub struct GridDimensions {
    pub width: usize,
    pub height: usize,
    pub depth: usize,
}

impl GridDimensions {
    pub open spec fn contains(self, c: VoxelCoord) -> bool {
        c.x < self.width && c.y < self.height && c.z < self.depth
    }

    pub fn of(grid: &VoxelGrid) -> (dims: Self)
        ensures
            dims.width == grid@.width,
            dims.height == grid@.height,
            dims.depth == grid@.depth,
    {
        GridDimensions { width: grid.width(), height: grid.height(), depth: grid.depth() }
    }

    pub fn volume(self) -> (n: usize)
        requires
            self.width * self.height * self.depth <= usize::MAX,
        ensures
            n == self.width * self.height * self.depth,
    {
        proof {
            assert(self.width * self.height <= self.width * self.height * self.depth || self.depth == 0) by (nonlinear_arith);
        }
        if self.depth == 0 {
            return 0;
        }
        self.width * self.height * self.depth
    }

    /// The grid's y-major, then z, then x storage order.
    pub fn index(self, coord: VoxelCoord) -> (i: usize)
        requires
            self.contains(coord),
            self.width * self.height * self.depth <= usize::MAX,
        ensures
            i == coord.y * (self.width * self.depth) + coord.z * self.width + coord.x,
            i < self.width * self.height * self.depth,
    {
        proof {
            let (w, h, d) = (self.width as int, self.height as int, self.depth as int);
            let (x, y, z) = (coord.x as int, coord.y as int, coord.z as int);
            assert(0 <= z * w + x < d * w) by (nonlinear_arith)
                requires
                    0 <= x < w,
                    0 <= z < d,
            ;
            assert(0 <= y * (w * d) <= (h - 1) * (w * d)) by (nonlinear_arith)
                requires
                    0 <= y < h,
                    0 <= w,
                    0 <= d,
            ;
            assert((h - 1) * (w * d) + w * d == w * h * d) by (nonlinear_arith);
            assert(d * w == w * d) by (nonlinear_arith);
            assert(w * d <= w * h * d) by (nonlinear_arith)
                requires
                    1 <= h,
                    0 <= w,
                    0 <= d,
            ;
        }
        coord.y * (self.width * self.depth) + coord.z * self.width + coord.x
    }
}

/// The in-bounds face neighbours of `coord`, in the fixed order +x, -x, +y,
/// -y, +z, -z.
pub open spec fn face_neighbors_spec(coord: VoxelCoord, dims: GridDimensions) -> Seq<VoxelCoord> {
    let px = if coord.x + 1 < dims.width { seq![VoxelCoord { x: (coord.x + 1) as usize, ..coord }] } else { seq![] };
    let nx = if coord.x > 0 { seq![VoxelCoord { x: (coord.x - 1) as usize, ..coord }] } else { seq![] };
    let py = if coord.y + 1 < dims.height { seq![VoxelCoord { y: (coord.y + 1) as usize, ..coord }] } else { seq![] };
    let ny = if coord.y > 0 { seq![VoxelCoord { y: (coord.y - 1) as usize, ..coord }] } else { seq![] };
    let pz = if coord.z + 1 < dims.depth { seq![VoxelCoord { z: (coord.z + 1) as usize, ..coord }] } else { seq![] };
    let nz = if coord.z > 0 { seq![VoxelCoord { z: (coord.z - 1) as usize, ..coord }] } else { seq![] };
    px + nx + py + ny + pz + nz
}

/// The six face-sharing cells in a fixed order, skipping those off the grid.
/// The order makes a bake reproducible.
pub fn face_neighbors(coord: VoxelCoord, dims: GridDimensions) -> (neighbors: Vec<VoxelCoord>)
    requires
        dims.contains(coord),
    ensures
        neighbors@ == face_neighbors_spec(coord, dims),
{
    let mut neighbors: Vec<VoxelCoord> = Vec::new();
    if coord.x + 1 < dims.width {
        neighbors.push(VoxelCoord { x: coord.x + 1, ..coord });
    }
    let ghost a = neighbors@;
    if coord.x > 0 {
        neighbors.push(VoxelCoord { x: coord.x - 1, ..coord });
    }
    let ghost b = neighbors@;
    if coord.y + 1 < dims.height {
        neighbors.push(VoxelCoord { y: coord.y + 1, ..coord });
    }
    let ghost c = neighbors@;
    if coord.y > 0 {
        neighbors.push(VoxelCoord { y: coord.y - 1, ..coord });
    }
    let ghost e = neighbors@;
    if coord.z + 1 < dims.depth {
        neighbors.push(VoxelCoord { z: coord.z + 1, ..coord });
    }
    let ghost f = neighbors@;
    if coord.z > 0 {
        neighbors.push(VoxelCoord { z: coord.z - 1, ..coord });
    }
    proof {
        assert(neighbors@ =~= face_neighbors_spec(coord, dims));
    }
    neighbors
}

/// Erases every light sample of the previous bake; materials and face
/// occlusion are untouched.
pub fn clear_previous_bake(grid: &mut VoxelGrid)
    requires
        old(grid).wf(),
    ensures
        final(grid).wf(),
        final(grid)@.same_shape(old(grid)@),
        final(grid)@.materials == old(grid)@.materials,
        final(grid)@.occlusion == old(grid)@.occlusion,
        forall|x: int, y: int, z: int|
            old(grid)@.in_bounds(x, y, z) ==> #[trigger] final(grid)@.light_at(x, y, z) == [0u8, 0u8, 0u8],
{
    let ghost start = grid@;
    let n = grid.volume();
    let mut i: usize = 0;
    while i < n
        invariant
            0 <= i <= n,
            n == start.volume(),
            grid.wf(),
            grid@.same_shape(start),
            grid@.materials == start.materials,
            grid@.occlusion == start.occlusion,
            grid@.light.len() == n,
            forall|j: int| 0 <= j < i ==> #[trigger] grid@.light[j] == [0u8, 0u8, 0u8],
        decreases n - i,
    {
        let (x, y, z) = grid.coords_of(i);
        grid.set_light_rgb(x, y, z, [0u8, 0u8, 0u8]);
        i = i + 1;
    }
    proof {
        assert forall|x: int, y: int, z: int| start.in_bounds(x, y, z) implies #[trigger] grid@.light_at(x, y, z) == [
            0u8,
            0u8,
            0u8,
        ] by {
            crate::voxel_grid::lemma_index_in_range(start, x, y, z);
        }
    }
}

/// A fixture of material `m` at `(x, y, z)` has an exposed underside: it is
/// not on the floor and the cell below it is air.
pub open spec fn emits_below(g: GridView, x: int, y: int, z: int, m: u8) -> bool {
    y > 0 && g.material(x, y, z) == m && g.material(x, y - 1, z) == VOXEL_AIR
}

/// The single air cell through which a ceiling fixture may seed light.
pub fn exposed_air_cell_below(grid: &VoxelGrid, emitter: VoxelCoord, expected_material: u8) -> (cell: Option<VoxelCoord>)
    requires
        grid.wf(),
        grid@.in_bounds(emitter.x as int, emitter.y as int, emitter.z as int),
    ensures
        cell is Some <==> emits_below(grid@, emitter.x as int, emitter.y as int, emitter.z as int, expected_material),
        cell is Some ==> cell == Some(VoxelCoord { y: (emitter.y - 1) as usize, ..emitter }),
{
    if emitter.y == 0 || grid.get(emitter.x, emitter.y, emitter.z) != expected_material {
        return None;
    }
    let air_cell = VoxelCoord { y: emitter.y - 1, ..emitter };
    if grid.get(air_cell.x, air_cell.y, air_cell.z) == VOXEL_AIR {
        Some(air_cell)
    } else {
        None
    }
}

/// Cell `a` comes before cell `b` in z-major, then y, then x order.
pub open spec fn coord_before(a: VoxelCoord, b: VoxelCoord) -> bool {
    a.z < b.z || (a.z == b.z && (a.y < b.y || (a.y == b.y && a.x < b.x)))
}

/// The fixture above cell `c` comes before the voxel at `(x, y, z)` in
/// z-major, then y, then x order.
pub open spec fn fixture_before(c: VoxelCoord, x: int, y: int, z: int) -> bool {
    c.z < z || (c.z == z && (c.y + 1 < y || (c.y + 1 == y && c.x < x)))
}

/// The air cells immediately below every exposed fixture of material `m`,
/// visited z-major, then y, then x. Nothing else is listed, every such cell
/// is, once, and in that order.
pub fn exposed_downward_air_cells(grid: &VoxelGrid, m: u8) -> (cells: Vec<VoxelCoord>)
    requires
        grid.wf(),
    ensures
        forall|k: int|
            0 <= k < cells@.len() ==> {
                let c = #[trigger] cells@[k];
                &&& grid@.in_bounds(c.x as int, c.y + 1, c.z as int)
                &&& emits_below(grid@, c.x as int, c.y + 1, c.z as int, m)
            },
        forall|x: int, y: int, z: int|
            grid@.in_bounds(x, y, z) && #[trigger] emits_below(grid@, x, y, z, m) ==> cells@.contains(
                VoxelCoord { x: x as usize, y: (y - 1) as usize, z: z as usize },
            ),
        forall|i: int, j: int| 0 <= i < j < cells@.len() ==> coord_before(#[trigger] cells@[i], #[trigger] cells@[j]),
{
    let (w, h, d) = (grid.width(), grid.height(), grid.depth());
    let mut cells: Vec<VoxelCoord> = Vec::new();
    let mut z: usize = 0;
    while z < d
        invariant
            grid.wf(),
            w == grid@.width,
            h == grid@.height,
            d == grid@.depth,
            0 <= z <= d,
            forall|k: int|
                0 <= k < cells@.len() ==> {
                    let c = #[trigger] cells@[k];
                    &&& grid@.in_bounds(c.x as int, c.y + 1, c.z as int)
                    &&& emits_below(grid@, c.x as int, c.y + 1, c.z as int, m)
                },
            forall|x: int, y: int, zz: int|
                grid@.in_bounds(x, y, zz) && zz < z && #[trigger] emits_below(grid@, x, y, zz, m) ==> cells@.contains(
                    VoxelCoord { x: x as usize, y: (y - 1) as usize, z: zz as usize },
                ),
            forall|i: int, j: int| 0 <= i < j < cells@.len() ==> coord_before(#[trigger] cells@[i], #[trigger] cells@[j]),
            forall|k: int| 0 <= k < cells@.len() ==> fixture_before(#[trigger] cells@[k], 0, 0, z as int),
        decreases d - z,
    {
        let mut y: usize = 0;
        while y < h
            invariant
                grid.wf(),
                w == grid@.width,
                h == grid@.height,
                d == grid@.depth,
                0 <= z < d,
                0 <= y <= h,
                forall|k: int|
                    0 <= k < cells@.len() ==> {
                        let c = #[trigger] cells@[k];
                        &&& grid@.in_bounds(c.x as int, c.y + 1, c.z as int)
                        &&& emits_below(grid@, c.x as int, c.y + 1, c.z as int, m)
                    },
                forall|x: int, yy: int, zz: int|
                    grid@.in_bounds(x, yy, zz) && (zz < z || (zz == z && yy < y)) && #[trigger] emits_below(
                        grid@,
                        x,
                        yy,
                        zz,
                        m,
                    ) ==> cells@.contains(VoxelCoord { x: x as usize, y: (yy - 1) as usize, z: zz as usize }),
                forall|i: int, j: int|
                    0 <= i < j < cells@.len() ==> coord_before(#[trigger] cells@[i], #[trigger] cells@[j]),
                forall|k: int| 0 <= k < cells@.len() ==> fixture_before(#[trigger] cells@[k], 0, y as int, z as int),
            decreases h - y,
        {
            let mut x: usize = 0;
            while x < w
                invariant
                    grid.wf(),
                    w == grid@.width,
                    h == grid@.height,
                    d == grid@.depth,
                    0 <= z < d,
                    0 <= y < h,
                    0 <= x <= w,
                    forall|k: int|
                        0 <= k < cells@.len() ==> {
                            let c = #[trigger] cells@[k];
                            &&& grid@.in_bounds(c.x as int, c.y + 1, c.z as int)
                            &&& emits_below(grid@, c.x as int, c.y + 1, c.z as int, m)
                        },
                    forall|xx: int, yy: int, zz: int|
                        grid@.in_bounds(xx, yy, zz) && (zz < z || (zz == z && yy < y) || (zz == z && yy == y && xx
                            < x)) && #[trigger] emits_below(grid@, xx, yy, zz, m) ==> cells@.contains(
                            VoxelCoord { x: xx as usize, y: (yy - 1) as usize, z: zz as usize },
                        ),
                    forall|i: int, j: int|
                        0 <= i < j < cells@.len() ==> coord_before(#[trigger] cells@[i], #[trigger] cells@[j]),
                    forall|k: int|
                        0 <= k < cells@.len() ==> fixture_before(#[trigger] cells@[k], x as int, y as int, z as int),
                decreases w - x,
            {
                let ghost prev = cells@;
                if let Some(air_cell) = exposed_air_cell_below(grid, VoxelCoord { x, y, z }, m) {
                    cells.push(air_cell);
                    proof {
                        assert(cells@[cells@.len() - 1] == air_cell);
                        assert forall|xx: int, yy: int, zz: int|
                            grid@.in_bounds(xx, yy, zz) && (zz < z || (zz == z && yy < y) || (zz == z && yy == y
                                && xx < x + 1)) && #[trigger] emits_below(grid@, xx, yy, zz, m) implies cells@.contains(
                            VoxelCoord { x: xx as usize, y: (yy - 1) as usize, z: zz as usize },
                        ) by {
                            let key = VoxelCoord { x: xx as usize, y: (yy - 1) as usize, z: zz as usize };
                            if !(xx == x && yy == y && zz == z) {
                                let k = choose|k: int| 0 <= k < prev.len() && prev[k] == key;
                                assert(cells@[k] == key);
                            }
                        }
                    }
                }
                x = x + 1;
            }
            y = y + 1;
        }
        z = z + 1;
    }
    cells
}

} // verus!
