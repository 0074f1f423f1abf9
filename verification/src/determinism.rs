//! Integer-first deterministic primitives. A candidate's identity depends on
//! the world seed and its stable lattice anchor, never on which region or
//! chunk happened to ask.

use vstd::prelude::*;

verus! {

/// Families of anomaly a world can plan.
#[derive(Debug, Clone, Copy, PartialEq, Eq, Hash)]
pub enum AnomalyKind {
    PillarExpanse,
    BlackoutExpanse,
    PitLattice,
    ArchwayRoom,
    RedRoom,
}

/// The numeric code a kind contributes to identity hashes (its declaration
/// index).
pub open spec fn kind_code(kind: AnomalyKind) -> u64 {
    match kind {
        AnomalyKind::PillarExpanse => 0,
        AnomalyKind::BlackoutExpanse => 1,
        AnomalyKind::PitLattice => 2,
        AnomalyKind::ArchwayRoom => 3,
        AnomalyKind::RedRoom => 4,
    }
}

pub fn anomaly_kind_code(kind: AnomalyKind) -> (code: u64)
    ensures
        code == kind_code(kind),
{
    match kind {
        AnomalyKind::PillarExpanse => 0,
        AnomalyKind::BlackoutExpanse => 1,
        AnomalyKind::PitLattice => 2,
        AnomalyKind::ArchwayRoom => 3,
        AnomalyKind::RedRoom => 4,
    }
}

/// SplitMix64's finalizer: a bijective avalanche of all 64 bits.
pub open spec fn mix64_spec(value: u64) -> u64 {
    let a = value ^ (value >> 30u64);
    let b = a.wrapping_mul(0xBF58_476D_1CE4_E5B9u64);
    let c = b ^ (b >> 27u64);
    let d = c.wrapping_mul(0x94D0_49BB_1331_11EBu64);
    d ^ (d >> 31u64)
}

pub fn mix64(value: u64) -> (r: u64)
    ensures
        r == mix64_spec(value),
{
    let mut v = value;
    v = v ^ (v >> 30u64);
    v = v.wrapping_mul(0xBF58_476D_1CE4_E5B9u64);
    v = v ^ (v >> 27u64);
    v = v.wrapping_mul(0x94D0_49BB_1331_11EBu64);
    v ^ (v >> 31u64)
}

/// Left rotation of a 64-bit word by `k` places, `0 < k < 64`.
pub open spec fn rotl64_spec(x: u64, k: u64) -> u64 {
    (x << k) | (x >> (64u64 - k))
}

pub fn rotl64(x: u64, k: u64) -> (r: u64)
    requires
        0 < k < 64,
    ensures
        r == rotl64_spec(x, k),
{
    (x << k) | (x >> (64u64 - k))
}

/// The lattice hash every planner shares.
pub open spec fn hash_spec(seed: u32, salt: u64, x: i64, z: i64) -> u64 {
    mix64_spec(
        (seed as u64) ^ salt ^ (x as u64).wrapping_mul(0x9E37_79B9_7F4A_7C15u64) ^ rotl64_spec(
            z as u64,
            31,
        ),
    )
}

pub fn hash(seed: u32, salt: u64, x: i64, z: i64) -> (r: u64)
    ensures
        r == hash_spec(seed, salt, x, z),
{
    let zr = rotl64(z as u64, 31);
    mix64((seed as u64) ^ salt ^ (x as u64).wrapping_mul(0x9E37_79B9_7F4A_7C15u64) ^ zr)
}

pub open spec fn stable_id_spec(seed: u32, kind: AnomalyKind, anchor_x: i64, anchor_z: i64) -> u64 {
    hash_spec(seed, 0xA110_4A1E_0000_0000u64 | kind_code(kind), anchor_x, anchor_z)
}

/// Identity of an anomaly candidate at a lattice anchor.
pub fn stable_id(seed: u32, kind: AnomalyKind, anchor_x: i64, anchor_z: i64) -> (id: u64)
    ensures
        id == stable_id_spec(seed, kind, anchor_x, anchor_z),
{
    let code = anomaly_kind_code(kind);
    hash(seed, 0xA110_4A1E_0000_0000u64 | code, anchor_x, anchor_z)
}

} // verus!
