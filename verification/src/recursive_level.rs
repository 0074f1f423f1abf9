//! Addressing for the Level 0 world reached through a committed Red Room.
//!
//! A Red Room addresses a distant, deterministic copy of Level 0. The
//! address is derived with integer avalanche hashes over all 64 bits of the
//! instance identity, and region keys are translated exactly, so no
//! floating-point rounding ever participates in identity.

use vstd::prelude::*;
use crate::anomaly::{AnomalyStateStamp, RealitySnapshot, RedRoomPhase, phase_rank};
use crate::determinism::{mix64, mix64_spec};

verus! {

/// "REDROOM\0"
pub const ADDRESS_DOMAIN: u64 = 0x5245_4452_4F4F_4D00;
pub const MIN_TRANSLATION_REGIONS: i64 = 64;
pub const TRANSLATION_REGION_SPAN: u64 = 192;
/// World units per planning region.
pub const REGION_SIZE_UNITS: i64 = 80;

/// Stable procedural address of the recursive Level 0 associated with one
/// Red Room instance.
#[derive(Clone, Copy, Debug, PartialEq, Eq, Hash, Structural)]
pub struct RecursiveLevelAddress {
    instance_id: u64,
    derived_seed: u32,
    translation_x: i64,
    translation_z: i64,
}

/// Signed offset, in regions, along one axis: a magnitude in
/// `64 .. 64 + 192` whose sign is the top bit of the axis hash.
pub open spec fn translation_component_spec(root: u64, axis_domain: u64) -> i64 {
    let h = mix64_spec(root ^ axis_domain);
    let magnitude = MIN_TRANSLATION_REGIONS + (h % TRANSLATION_REGION_SPAN) as int;
    if h & 0x8000_0000_0000_0000u64 == 0 {
        magnitude as i64
    } else {
        (-magnitude) as i64
    }
}

pub open spec fn address_root(world_seed: u32, instance_id: u64) -> u64 {
    mix64_spec(
        ADDRESS_DOMAIN ^ instance_id ^ (world_seed as u64).wrapping_mul(0x9E37_79B9_7F4A_7C15u64),
    )
}

pub open spec fn derived_seed_spec(world_seed: u32, instance_id: u64) -> u32 {
    let seed_hash = mix64_spec(address_root(world_seed, instance_id) ^ 0x5EED_5EED_A11C_0DE5u64);
    (seed_hash as u32) ^ ((seed_hash >> 32u64) as u32)
}

pub open spec fn translations_spec(world_seed: u32, instance_id: u64) -> (i64, i64) {
    let root = address_root(world_seed, instance_id);
    (
        translation_component_spec(root, 0x5841_5849_5300_0001u64),
        translation_component_spec(root, 0x5A41_5849_5300_0002u64),
    )
}

/// `address` is the one derived for `instance_id` in the world `world_seed`.
pub open spec fn is_derived_address(address: RecursiveLevelAddress, world_seed: u32, instance_id: u64) -> bool {
    &&& address.spec_instance_id() == instance_id
    &&& address.spec_derived_seed() == derived_seed_spec(world_seed, instance_id)
    &&& address.spec_translation_regions() == translations_spec(world_seed, instance_id)
}

/// `a + b` clamped into `i64`.
pub open spec fn saturating_add_spec(a: i64, b: i64) -> i64 {
    if a + b > i64::MAX {
        i64::MAX
    } else if a + b < i64::MIN {
        i64::MIN
    } else {
        (a + b) as i64
    }
}

/// `a - b` clamped into `i64`.
pub open spec fn saturating_sub_spec(a: i64, b: i64) -> i64 {
    if a - b > i64::MAX {
        i64::MAX
    } else if a - b < i64::MIN {
        i64::MIN
    } else {
        (a - b) as i64
    }
}

fn saturating_add_i64(a: i64, b: i64) -> (r: i64)
    ensures
        r == saturating_add_spec(a, b),
{
    match a.checked_add(b) {
        Some(v) => v,
        None => {
            if b > 0 {
                i64::MAX
            } else {
                i64::MIN
            }
        },
    }
}

fn saturating_sub_i64(a: i64, b: i64) -> (r: i64)
    ensures
        r == saturating_sub_spec(a, b),
{
    match a.checked_sub(b) {
        Some(v) => v,
        None => {
            if b < 0 {
                i64::MAX
            } else {
                i64::MIN
            }
        },
    }
}

pub fn translation_component(root: u64, axis_domain: u64) -> (t: i64)
    ensures
        t == translation_component_spec(root, axis_domain),
        64 <= t < 256 || -256 < t <= -64,
{
    let h = mix64(root ^ axis_domain);
    let magnitude = MIN_TRANSLATION_REGIONS + (h % TRANSLATION_REGION_SPAN) as i64;
    if h & 0x8000_0000_0000_0000u64 == 0 {
        magnitude
    } else {
        -magnitude
    }
}

impl RecursiveLevelAddress {
    pub closed spec fn spec_instance_id(self) -> u64 {
        self.instance_id
    }

    pub closed spec fn spec_derived_seed(self) -> u32 {
        self.derived_seed
    }

    pub closed spec fn spec_translation_regions(self) -> (i64, i64) {
        (self.translation_x, self.translation_z)
    }

    /// Derives an address using integer avalanche hashes only. Both halves of
    /// the 64-bit instance id participate in the seed and in each axis.
    pub fn derive(world_seed: u32, instance_id: u64) -> (address: Self)
        ensures
            is_derived_address(address, world_seed, instance_id),
    {
        let root = mix64(
            ADDRESS_DOMAIN ^ instance_id ^ (world_seed as u64).wrapping_mul(0x9E37_79B9_7F4A_7C15u64),
        );
        let seed_hash = mix64(root ^ 0x5EED_5EED_A11C_0DE5u64);
        let derived_seed = (seed_hash as u32) ^ ((seed_hash >> 32u64) as u32);
        let tx = translation_component(root, 0x5841_5849_5300_0001u64);
        let tz = translation_component(root, 0x5A41_5849_5300_0002u64);
        RecursiveLevelAddress { instance_id, derived_seed, translation_x: tx, translation_z: tz }
    }

    /// Selects the committed Red Room of a snapshot, then derives its address.
    pub fn from_reality(world_seed: u32, reality: &RealitySnapshot) -> (r: Option<
        (Self, &AnomalyStateStamp),
    >)
        ensures
            r is None <==> !has_committed_red_room(reality@),
            r matches Some((address, state)) ==> {
                &&& is_active_red_room(reality@, *state)
                &&& is_derived_address(address, world_seed, state.instance_id)
            },
    {
        match active_red_room(reality) {
            Some(state) => Some((Self::derive(world_seed, state.instance_id), state)),
            None => None,
        }
    }

    pub fn instance_id(self) -> (id: u64)
        ensures
            id == self.spec_instance_id(),
    {
        self.instance_id
    }

    pub fn derived_seed(self) -> (seed: u32)
        ensures
            seed == self.spec_derived_seed(),
    {
        self.derived_seed
    }

    pub fn translation_regions(self) -> (t: (i64, i64))
        ensures
            t == self.spec_translation_regions(),
    {
        (self.translation_x, self.translation_z)
    }

    /// Exact transform of a region key into the recursive branch.
    pub fn to_recursive_region(self, source_region: (i64, i64)) -> (r: (i64, i64))
        ensures
            r.0 == saturating_add_spec(source_region.0, self.spec_translation_regions().0),
            r.1 == saturating_add_spec(source_region.1, self.spec_translation_regions().1),
    {
        (
            saturating_add_i64(source_region.0, self.translation_x),
            saturating_add_i64(source_region.1, self.translation_z),
        )
    }

    /// Exact transform of a recursive region key back to the source world.
    pub fn to_source_region(self, recursive_region: (i64, i64)) -> (r: (i64, i64))
        ensures
            r.0 == saturating_sub_spec(recursive_region.0, self.spec_translation_regions().0),
            r.1 == saturating_sub_spec(recursive_region.1, self.spec_translation_regions().1),
    {
        (
            saturating_sub_i64(recursive_region.0, self.translation_x),
            saturating_sub_i64(recursive_region.1, self.translation_z),
        )
    }

    /// The translation in whole world units: an exact multiple of the
    /// region lattice, so portals and plan geometry survive it unchanged.
    pub fn translation_world_units(self) -> (t: (i64, i64))
        requires
            -256 < self.spec_translation_regions().0 < 256,
            -256 < self.spec_translation_regions().1 < 256,
        ensures
            t.0 == self.spec_translation_regions().0 * REGION_SIZE_UNITS,
            t.1 == self.spec_translation_regions().1 * REGION_SIZE_UNITS,
    {
        (
            self.translation_x * REGION_SIZE_UNITS,
            self.translation_z * REGION_SIZE_UNITS,
        )
    }
}

/// Every address this module derives translates by fewer than 256 regions
/// per axis, and by at least 64.
pub proof fn law_derived_translation_bounds(world_seed: u32, instance_id: u64)
    ensures
        ({
            let t = translations_spec(world_seed, instance_id);
            &&& (64 <= t.0 < 256 || -256 < t.0 <= -64)
            &&& (64 <= t.1 < 256 || -256 < t.1 <= -64)
        }),
{
    let root = address_root(world_seed, instance_id);
    let hx = mix64_spec(root ^ 0x5841_5849_5300_0001u64);
    let hz = mix64_spec(root ^ 0x5A41_5849_5300_0002u64);
    assert(hx % TRANSLATION_REGION_SPAN < 192);
    assert(hz % TRANSLATION_REGION_SPAN < 192);
}

/// Mapping a region key into the recursive branch and back returns it, for
/// every key whose translation does not saturate the `i64` range.
pub proof fn law_region_round_trip(address: RecursiveLevelAddress, source: (i64, i64))
    requires
        i64::MIN <= source.0 + address.spec_translation_regions().0 <= i64::MAX,
        i64::MIN <= source.1 + address.spec_translation_regions().1 <= i64::MAX,
    ensures
        ({
            let r = (
                saturating_add_spec(source.0, address.spec_translation_regions().0),
                saturating_add_spec(source.1, address.spec_translation_regions().1),
            );
            (
                saturating_sub_spec(r.0, address.spec_translation_regions().0),
                saturating_sub_spec(r.1, address.spec_translation_regions().1),
            ) == source
        }),
{
}

// ---------------------------------------------------------------------------
// Active selection

/// The recency key of a stamp: epoch, then phase, loop count, last gate and
/// finally the stable identity as tie-break.
pub open spec fn key_lt(a: AnomalyStateStamp, b: AnomalyStateStamp) -> bool {
    ||| a.epoch < b.epoch
    ||| a.epoch == b.epoch && phase_rank(a.phase) < phase_rank(b.phase)
    ||| a.epoch == b.epoch && a.phase == b.phase && a.loop_count < b.loop_count
    ||| a.epoch == b.epoch && a.phase == b.phase && a.loop_count == b.loop_count
        && a.last_gate_id < b.last_gate_id
    ||| a.epoch == b.epoch && a.phase == b.phase && a.loop_count == b.loop_count
        && a.last_gate_id == b.last_gate_id && a.instance_id < b.instance_id
}

pub open spec fn key_le(a: AnomalyStateStamp, b: AnomalyStateStamp) -> bool {
    !key_lt(b, a)
}

pub open spec fn same_key(a: AnomalyStateStamp, b: AnomalyStateStamp) -> bool {
    &&& a.epoch == b.epoch
    &&& a.phase == b.phase
    &&& a.loop_count == b.loop_count
    &&& a.last_gate_id == b.last_gate_id
    &&& a.instance_id == b.instance_id
}

/// A stamp the selection may choose from: any encounter past its threshold.
pub open spec fn is_committed(s: AnomalyStateStamp) -> bool {
    s.phase != RedRoomPhase::Outside
}

pub open spec fn has_committed_red_room(stamps: Seq<AnomalyStateStamp>) -> bool {
    exists|i: int| 0 <= i < stamps.len() && is_committed(#[trigger] stamps[i])
}

/// `s` is a committed stamp of the snapshot whose key no other committed
/// stamp exceeds.
pub open spec fn is_active_red_room(stamps: Seq<AnomalyStateStamp>, s: AnomalyStateStamp) -> bool {
    &&& stamps.contains(s)
    &&& is_committed(s)
    &&& forall|j: int| 0 <= j < stamps.len() && is_committed(#[trigger] stamps[j]) ==> key_le(stamps[j], s)
}

/// Position `k` holds the stamp `max_by_key` keeps: a committed stamp of
/// greatest key, and every committed stamp after it has a strictly smaller
/// key (so it is the last of equally great ones).
pub open spec fn is_last_active_at(stamps: Seq<AnomalyStateStamp>, k: int) -> bool {
    &&& 0 <= k < stamps.len()
    &&& is_committed(stamps[k])
    &&& forall|j: int| 0 <= j < stamps.len() && is_committed(#[trigger] stamps[j]) ==> key_le(stamps[j], stamps[k])
    &&& forall|j: int| k < j < stamps.len() && is_committed(#[trigger] stamps[j]) ==> !key_le(stamps[k], stamps[j])
}

proof fn lemma_key_le_trans(a: AnomalyStateStamp, b: AnomalyStateStamp, c: AnomalyStateStamp)
    requires
        key_le(a, b),
        key_le(b, c),
    ensures
        key_le(a, c),
{
}

fn phase_rank_exec(phase: RedRoomPhase) -> (r: u8)
    ensures
        r as int == phase_rank(phase),
{
    match phase {
        RedRoomPhase::Outside => 0,
        RedRoomPhase::Sealed => 1,
        RedRoomPhase::EscapeOpen => 2,
    }
}

/// `key(b) <= key(a)`.
fn key_at_least(a: &AnomalyStateStamp, b: &AnomalyStateStamp) -> (r: bool)
    ensures
        r == key_le(*b, *a),
{
    let pa = phase_rank_exec(a.phase);
    let pb = phase_rank_exec(b.phase);
    if a.epoch != b.epoch {
        return a.epoch > b.epoch;
    }
    if pa != pb {
        return pa > pb;
    }
    if a.loop_count != b.loop_count {
        return a.loop_count > b.loop_count;
    }
    if a.last_gate_id != b.last_gate_id {
        return a.last_gate_id > b.last_gate_id;
    }
    a.instance_id >= b.instance_id
}

/// Chooses one committed Red Room without depending on snapshot insertion
/// order: the committed stamp with the greatest recency key (the last of
/// equally great ones).
pub fn active_red_room(reality: &RealitySnapshot) -> (r: Option<&AnomalyStateStamp>)
    ensures
        r is None <==> !has_committed_red_room(reality@),
        r matches Some(s) ==> is_active_red_room(reality@, *s),
        r matches Some(s) ==> exists|k: int| is_last_active_at(reality@, k) && reality@[k] == *s,
        r matches Some(s) ==> forall|j: int|
            0 <= j < reality@.len() && (#[trigger] reality@[j]).phase != RedRoomPhase::Outside ==> reality@[j].epoch
                <= s.epoch,
{
    let stamps = reality.stamps();
    let n = stamps.len();
    let mut best: Option<usize> = None;
    let mut i: usize = 0;
    while i < n
        invariant
            n == stamps@.len(),
            stamps@ == reality@,
            i <= n,
            best matches Some(b) ==> {
                &&& b < i
                &&& is_committed(stamps@[b as int])
                &&& forall|j: int| 0 <= j < i && is_committed(#[trigger] stamps@[j]) ==> key_le(stamps@[j], stamps@[b as int])
                &&& forall|j: int| b < j < i && is_committed(#[trigger] stamps@[j]) ==> !key_le(stamps@[b as int], stamps@[j])
            },
            best is None ==> forall|j: int| 0 <= j < i ==> !is_committed(#[trigger] stamps@[j]),
        decreases n - i,
    {
        let s = &stamps[i];
        if s.phase != RedRoomPhase::Outside {
            match best {
                None => {
                    best = Some(i);
                },
                Some(b) => {
                    if key_at_least(s, &stamps[b]) {
                        proof {
                            assert forall|j: int| 0 <= j < i && is_committed(#[trigger] stamps@[j]) implies key_le(
                                stamps@[j],
                                stamps@[i as int],
                            ) by {
                                lemma_key_le_trans(stamps@[j], stamps@[b as int], stamps@[i as int]);
                            }
                        }
                        best = Some(i);
                    }
                },
            }
        }
        i = i + 1;
    }
    match best {
        Some(b) => {
            proof {
                assert(stamps@.contains(stamps@[b as int]));
                assert(is_last_active_at(reality@, b as int));
                assert forall|j: int|
                    0 <= j < reality@.len() && (#[trigger] reality@[j]).phase != RedRoomPhase::Outside implies reality@[j].epoch
                        <= stamps@[b as int].epoch by {
                    assert(stamps@.contains(reality@[j]));
                    law_active_room_is_most_recent(reality@, stamps@[b as int], reality@[j]);
                }
            }
            Some(&stamps[b])
        },
        None => None,
    }
}

/// The active Red Room is the most recent committed encounter, compared
/// epoch first: no committed stamp has a later epoch; among equal epochs an
/// open escape outranks a sealed room; then the higher loop count, then the
/// higher last gate, and finally the higher instance id wins.
pub proof fn law_active_room_is_most_recent(stamps: Seq<AnomalyStateStamp>, s: AnomalyStateStamp, t: AnomalyStateStamp)
    requires
        is_active_red_room(stamps, s),
        stamps.contains(t),
        t.phase != RedRoomPhase::Outside,
    ensures
        t.epoch <= s.epoch,
        t.epoch == s.epoch && t.phase == RedRoomPhase::EscapeOpen ==> s.phase == RedRoomPhase::EscapeOpen,
        t.epoch == s.epoch && t.phase == s.phase ==> t.loop_count <= s.loop_count,
        t.epoch == s.epoch && t.phase == s.phase && t.loop_count == s.loop_count ==> t.last_gate_id
            <= s.last_gate_id,
        t.epoch == s.epoch && t.phase == s.phase && t.loop_count == s.loop_count && t.last_gate_id
            == s.last_gate_id ==> t.instance_id <= s.instance_id,
{
    let j = choose|j: int| 0 <= j < stamps.len() && stamps[j] == t;
    assert(is_committed(stamps[j]));
    assert(key_le(stamps[j], s));
}

/// A committed stamp whose epoch is later than that of every other
/// committed stamp is the active Red Room, whatever its phase.
pub proof fn law_latest_epoch_is_active(stamps: Seq<AnomalyStateStamp>, k: int, s: AnomalyStateStamp)
    requires
        0 <= k < stamps.len(),
        stamps[k].phase != RedRoomPhase::Outside,
        forall|j: int|
            0 <= j < stamps.len() && j != k && (#[trigger] stamps[j]).phase != RedRoomPhase::Outside ==> stamps[j].epoch
                < stamps[k].epoch,
        is_active_red_room(stamps, s),
    ensures
        s == stamps[k],
{
    assert(stamps.contains(stamps[k]));
    law_active_room_is_most_recent(stamps, s, stamps[k]);
    let j = choose|j: int| 0 <= j < stamps.len() && stamps[j] == s;
    if j != k {
        assert(stamps[j].phase != RedRoomPhase::Outside);
    }
}

proof fn lemma_permutation_contains(a: Seq<AnomalyStateStamp>, b: Seq<AnomalyStateStamp>, x: AnomalyStateStamp)
    requires
        a.to_multiset() == b.to_multiset(),
        a.contains(x),
    ensures
        b.contains(x),
{
    a.to_multiset_ensures();
    b.to_multiset_ensures();
    assert(a.to_multiset().count(x) > 0);
    assert(b.to_multiset().count(x) > 0);
}

/// Insertion-order independence: two snapshots holding the same stamps in
/// any order select the same committed Red Room, provided no two distinct
/// committed stamps share a whole recency key.
pub proof fn law_active_selection_order_independent(
    a: Seq<AnomalyStateStamp>,
    b: Seq<AnomalyStateStamp>,
    sa: AnomalyStateStamp,
    sb: AnomalyStateStamp,
)
    requires
        a.to_multiset() == b.to_multiset(),
        forall|i: int, j: int|
            0 <= i < b.len() && 0 <= j < b.len() && is_committed(b[i]) && is_committed(b[j])
                && same_key(b[i], b[j]) ==> b[i] == b[j],
        is_active_red_room(a, sa),
        is_active_red_room(b, sb),
    ensures
        sa == sb,
{
    lemma_permutation_contains(a, b, sa);
    lemma_permutation_contains(b, a, sb);
    let ia = choose|i: int| 0 <= i < b.len() && b[i] == sa;
    let ib = choose|i: int| 0 <= i < b.len() && b[i] == sb;
    let ja = choose|i: int| 0 <= i < a.len() && a[i] == sb;
    assert(key_le(b[ia], sb));
    assert(key_le(a[ja], sa));
    assert(same_key(b[ia], b[ib]));
}

/// Whether a committed Red Room exists never depends on arrival order.
pub proof fn law_active_presence_order_independent(a: Seq<AnomalyStateStamp>, b: Seq<AnomalyStateStamp>)
    requires
        a.to_multiset() == b.to_multiset(),
    ensures
        has_committed_red_room(a) == has_committed_red_room(b),
{
    if has_committed_red_room(a) {
        let i = choose|i: int| 0 <= i < a.len() && is_committed(#[trigger] a[i]);
        assert(a.contains(a[i]));
        lemma_permutation_contains(a, b, a[i]);
    }
    if has_committed_red_room(b) {
        let i = choose|i: int| 0 <= i < b.len() && is_committed(#[trigger] b[i]);
        assert(b.contains(b[i]));
        lemma_permutation_contains(b, a, b[i]);
    }
}

} // verus!
