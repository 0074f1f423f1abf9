use vackrooms::architecture::{furniture_material, signature_for, stable_bit, FurnitureKind, Signature};
use vackrooms::voxel_grid::{VOXEL_FURNITURE, VOXEL_SEAT, VOXEL_SHELVING};

#[test]
fn casework_and_seating_are_separate_materials() {
    assert_eq!(furniture_material(FurnitureKind::Chair), VOXEL_SEAT);
    assert_eq!(furniture_material(FurnitureKind::Shelving), VOXEL_SHELVING);
    for kind in [FurnitureKind::Desk, FurnitureKind::Table, FurnitureKind::Cabinet, FurnitureKind::Fixture] {
        assert_eq!(furniture_material(kind), VOXEL_FURNITURE);
    }
}

#[test]
fn signatures_cycle_through_six_characters() {
    let all = [
        Signature::DoorGlut,
        Signature::Minimal,
        Signature::Colonnade,
        Signature::Cellular,
        Signature::Pressed,
        Signature::Lofty,
    ];
    for (i, expected) in all.iter().enumerate() {
        assert_eq!(Signature::of(i as u32), *expected);
        assert_eq!(Signature::of(i as u32 + 6), *expected);
    }
}

#[test]
fn a_world_has_one_signature_and_seeds_vary_it() {
    assert_eq!(signature_for(42), signature_for(42));
    let mut h = 42u32 ^ 0x5EED_0417;
    h ^= h >> 16;
    h = h.wrapping_mul(0x7FEB_352D);
    h ^= h >> 15;
    assert_eq!(signature_for(42), Signature::of(h));
    let distinct: std::collections::HashSet<_> = (0..200u32).map(signature_for).collect();
    assert_eq!(distinct.len(), 6);
}

#[test]
fn the_open_side_is_stable_and_varies() {
    assert_eq!(stable_bit(0xABCD, 3), stable_bit(0xABCD, 3));
    let ones = (0..64u32).filter(|&e| stable_bit(0xABCD, e)).count();
    assert!(ones > 0 && ones < 64);
}
