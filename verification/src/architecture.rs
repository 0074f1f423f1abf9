//! Small integer decisions of the architecture: what furniture is built
//! from, which habitual room a world commits to, and which side of a Red
//! Room loop opens.

use vstd::prelude::*;
use crate::voxel_grid::{VOXEL_FURNITURE, VOXEL_SEAT, VOXEL_SHELVING};
use crate::determinism::{rotl64, rotl64_spec};

verus! {

/// The kinds of furniture an assembly can place.
#[derive(Debug, Clone, Copy, PartialEq, Eq, Structural)]
pub enum FurnitureKind {
    Desk,
    Chair,
    Table,
    Shelving,
    Cabinet,
    Fixture,
}

pub open spec fn furniture_material_spec(kind: FurnitureKind) -> u8 {
    match kind {
        FurnitureKind::Chair => VOXEL_SEAT,
        FurnitureKind::Shelving => VOXEL_SHELVING,
        _ => VOXEL_FURNITURE,
    }
}

/// Which voxel a furniture kind is built from. Casework and seating are
/// separated so a desk and the chair at it do not merge into one block.
pub fn furniture_material(kind: FurnitureKind) -> (m: u8)
    ensures
        m == furniture_material_spec(kind),
{
    match kind {
        FurnitureKind::Chair => VOXEL_SEAT,
        FurnitureKind::Shelving => VOXEL_SHELVING,
        FurnitureKind::Desk | FurnitureKind::Table | FurnitureKind::Cabinet | FurnitureKind::Fixture => VOXEL_FURNITURE,
    }
}

/// The character of a world's habitual room; a seed commits to one.
#[derive(Debug, Clone, Copy, PartialEq, Eq, Hash, Structural)]
pub enum Signature {
    /// Empty rooms ringed with far too many doors.
    DoorGlut,
    /// One opening, one fixture, nothing else.
    Minimal,
    /// Repeating columns, endless rhythm, no destination.
    Colonnade,
    /// A warren of small cells.
    Cellular,
    /// Ceilings pressed lower than the span asks for.
    Pressed,
    /// Ceilings lifted higher than the span asks for.
    Lofty,
}

pub open spec fn signature_of(index: u32) -> Signature {
    let k = index % 6;
    if k == 0 {
        Signature::DoorGlut
    } else if k == 1 {
        Signature::Minimal
    } else if k == 2 {
        Signature::Colonnade
    } else if k == 3 {
        Signature::Cellular
    } else if k == 4 {
        Signature::Pressed
    } else {
        Signature::Lofty
    }
}

impl Signature {
    pub fn of(index: u32) -> (signature: Self)
        ensures
            signature == signature_of(index),
    {
        match index % 6 {
            0 => Signature::DoorGlut,
            1 => Signature::Minimal,
            2 => Signature::Colonnade,
            3 => Signature::Cellular,
            4 => Signature::Pressed,
            _ => Signature::Lofty,
        }
    }
}

/// The seed hash behind a world's motif: hashed off the seed alone, so a
/// world has one signature everywhere.
pub open spec fn motif_hash(seed: u32) -> u32 {
    let a = seed ^ 0x5EED_0417u32;
    let b = a ^ (a >> 16u32);
    let c = b.wrapping_mul(0x7FEB_352Du32);
    c ^ (c >> 15u32)
}

/// The signature a world commits to.
pub fn signature_for(seed: u32) -> (signature: Signature)
    ensures
        signature == signature_of(motif_hash(seed)),
{
    let mut h = seed ^ 0x5EED_0417u32;
    h = h ^ (h >> 16u32);
    h = h.wrapping_mul(0x7FEB_352Du32);
    h = h ^ (h >> 15u32);
    Signature::of(h)
}

pub open spec fn stable_bit_spec(instance_id: u64, epoch: u32) -> bool {
    let v0 = instance_id ^ rotl64_spec(epoch as u64, 29) ^ 0xE5CA_9E5C_A9E5_CA9Eu64;
    let v1 = v0 ^ (v0 >> 30u64);
    let v2 = v1.wrapping_mul(0xBF58_476D_1CE4_E5B9u64);
    let v3 = v2 ^ (v2 >> 27u64);
    v3 & 1 == 1
}

/// Which of a Red Room loop's two symmetric walls opens at this epoch: a
/// hash of the instance and the epoch, stable for both.
pub fn stable_bit(instance_id: u64, epoch: u32) -> (bit: bool)
    ensures
        bit == stable_bit_spec(instance_id, epoch),
{
    let mut value = instance_id ^ rotl64(epoch as u64, 29) ^ 0xE5CA_9E5C_A9E5_CA9Eu64;
    value = value ^ (value >> 30u64);
    value = value.wrapping_mul(0xBF58_476D_1CE4_E5B9u64);
    value = value ^ (value >> 27u64);
    value & 1 == 1
}

} // verus!
