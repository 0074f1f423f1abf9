//! The levels a chunk can be generated for, and what one generation pass
//! hands back.
//!
//! Level 1, the Habitable Zone, is carved into functional sectors on a fixed
//! world lattice; the sector of a lattice cell is a pure function of the
//! seed and the cell, so chunks tile seamlessly in any streaming order.

use vstd::prelude::*;
use crate::voxel_grid::VoxelGrid;
use crate::determinism::{hash, hash_spec};

verus! {

/// Well-known level ids.
pub const LEVEL_BACKROOMS: u32 = 0;
/// Level 1, the Habitable Zone: concrete warehouse and parking structure.
pub const LEVEL_HABITABLE: u32 = 1;
pub const LEVEL_GRASSLAND: u32 = 34;
/// The office maze level drawn from the office blueprint.
pub const LEVEL_OFFICES: u32 = 90;

/// Side of one Level 1 sector cell, world units.
pub const SECTOR_CELL_UNITS: i64 = 96;

/// Level 0, the Backrooms proper.
pub struct BackroomsLevel;

/// Level 1, the Habitable Zone.
pub struct HabitableLevel;

/// Level 34-B, the Grassland.
pub struct GrasslandLevel;

/// The output of one generator invocation: the voxel grid and the
/// non-spatial entities exported by the same pass.
pub struct GeneratedChunk<E> {
    pub grid: VoxelGrid,
    pub entities: E,
}

impl<E: Default> GeneratedChunk<E> {
    /// A chunk around `grid` with no exported entities yet: the entity
    /// collection is its type's default.
    pub fn new(grid: VoxelGrid) -> (chunk: Self)
        ensures
            chunk.grid == grid,
            call_ensures(E::default, (), chunk.entities),
    {
        GeneratedChunk { grid, entities: E::default() }
    }
}

/// The functional sub-regions of Level 1.
#[derive(Debug, Clone, Copy, PartialEq, Eq, Hash, Structural)]
pub enum Sector {
    Aquila,
    Gild,
    Gothic,
    Construction,
}

pub const SECTOR_SALT: u64 = 0x1EE1_5EC7_0A00_0001;

/// The sector of lattice cell `(cell_x, cell_z)`: the arrival cell is always
/// Aquila, every other cell rolls its hash into the four sectors at
/// 35 / 28 / 19 / 18 percent.
pub open spec fn sector_of_cell(seed: u32, cell_x: i64, cell_z: i64) -> Sector {
    let roll = hash_spec(seed, SECTOR_SALT, cell_x, cell_z) % 100;
    if cell_x == 0 && cell_z == 0 {
        Sector::Aquila
    } else if roll <= 34 {
        Sector::Aquila
    } else if roll <= 62 {
        Sector::Gild
    } else if roll <= 81 {
        Sector::Gothic
    } else {
        Sector::Construction
    }
}

impl Sector {
    /// Deterministic sector of one lattice cell.
    pub fn at_cell(seed: u32, cell_x: i64, cell_z: i64) -> (sector: Self)
        ensures
            sector == sector_of_cell(seed, cell_x, cell_z),
    {
        let roll = hash(seed, SECTOR_SALT, cell_x, cell_z) % 100;
        // The arrival cell is always Aquila: the wanderer steps out of the
        // door into readable parking-lot openness.
        if cell_x == 0 && cell_z == 0 {
            return Sector::Aquila;
        }
        if roll <= 34 {
            Sector::Aquila
        } else if roll <= 62 {
            Sector::Gild
        } else if roll <= 81 {
            Sector::Gothic
        } else {
            Sector::Construction
        }
    }

    /// HUD name of this sector.
    pub fn name(&self) -> (name: &'static str)
        ensures
            *self == Sector::Aquila ==> name@ == "AQUILA SECTOR"@,
            *self == Sector::Gild ==> name@ == "GILD SECTOR"@,
            *self == Sector::Gothic ==> name@ == "GOTHIC SECTOR"@,
            *self == Sector::Construction ==> name@ == "CONSTRUCTION SECTOR"@,
    {
        match self {
            Sector::Aquila => "AQUILA SECTOR",
            Sector::Gild => "GILD SECTOR",
            Sector::Gothic => "GOTHIC SECTOR",
            Sector::Construction => "CONSTRUCTION SECTOR",
        }
    }
}

pub const SUPPLY_SALT: u64 = 0x5A17_AB1E_0000_0000;

/// Stable id of a supply item at a lattice anchor; never zero.
pub fn supply_id(seed: u32, cell_x: i64, cell_z: i64, salt: u64) -> (id: u64)
    ensures
        id == hash_spec(seed, SUPPLY_SALT ^ salt, cell_x, cell_z) | 1,
        id != 0,
{
    let h = hash(seed, SUPPLY_SALT ^ salt, cell_x, cell_z);
    proof {
        assert(h | 1 != 0) by (bit_vector);
    }
    h | 1
}

} // verus!
