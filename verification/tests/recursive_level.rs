use vackrooms::anomaly::{AnomalyStateStamp, Axis2, AxisDirection, RealitySnapshot, RedRoomPhase};
use vackrooms::recursive_level::{active_red_room, RecursiveLevelAddress, REGION_SIZE_UNITS};

fn state(instance_id: u64, epoch: u32, phase: RedRoomPhase) -> AnomalyStateStamp {
    AnomalyStateStamp::new(
        instance_id,
        epoch,
        12.4f32.to_bits(),
        Axis2::Z,
        AxisDirection::Positive,
        phase,
        epoch as u8,
        instance_id.rotate_left(7),
    )
}

#[test]
fn full_instance_identity_changes_the_recursive_address() {
    let low = RecursiveLevelAddress::derive(42, 0x0000_0001_1234_5678);
    let high = RecursiveLevelAddress::derive(42, 0x8000_0001_1234_5678);
    assert_ne!(low, high);
    assert_ne!(low.derived_seed(), high.derived_seed());
}

#[test]
fn translation_is_region_aligned_and_round_trips_region_keys() {
    let address = RecursiveLevelAddress::derive(42, 0xDEAD_BEEF_1234_5678);
    let source = (-91, 207);
    let recursive = address.to_recursive_region(source);
    assert_eq!(address.to_source_region(recursive), source);

    let offset = address.translation_world_units();
    assert_eq!(offset.0 / REGION_SIZE_UNITS, address.translation_regions().0);
    assert_eq!(offset.1 / REGION_SIZE_UNITS, address.translation_regions().1);
    assert_eq!(offset.0 % REGION_SIZE_UNITS, 0);
    assert_eq!(offset.1 % REGION_SIZE_UNITS, 0);
}

#[test]
fn active_selection_is_insertion_order_independent() {
    let outside = state(3, 99, RedRoomPhase::Outside);
    let older = state(8, 2, RedRoomPhase::Sealed);
    let active = state(5, 4, RedRoomPhase::EscapeOpen);
    let a = RealitySnapshot::new(vec![outside, older, active]);
    let b = RealitySnapshot::new(vec![active, outside, older]);

    assert_eq!(active_red_room(&a), Some(&active));
    assert_eq!(active_red_room(&b), Some(&active));
    assert_eq!(
        RecursiveLevelAddress::from_reality(42, &a).map(|pair| pair.0),
        RecursiveLevelAddress::from_reality(42, &b).map(|pair| pair.0),
    );
}

#[test]
fn a_snapshot_without_committed_rooms_has_no_active_room() {
    let a = RealitySnapshot::new(vec![state(3, 99, RedRoomPhase::Outside)]);
    assert_eq!(active_red_room(&a), None);
    assert!(RecursiveLevelAddress::from_reality(42, &a).is_none());
    let empty = RealitySnapshot::new(Vec::new());
    assert_eq!(active_red_room(&empty), None);
}

#[test]
fn derived_translation_stays_between_sixty_four_and_two_hundred_fifty_six_regions() {
    for id in [0u64, 1, 7, 0xDEAD_BEEF, u64::MAX] {
        let address = RecursiveLevelAddress::derive(42, id);
        let (tx, tz) = address.translation_regions();
        assert!(tx.abs() >= 64 && tx.abs() < 256);
        assert!(tz.abs() >= 64 && tz.abs() < 256);
        assert_eq!(address.instance_id(), id);
        assert_eq!(address, RecursiveLevelAddress::derive(42, id));
    }
}

#[test]
fn region_keys_saturate_at_the_edges_of_the_address_space() {
    let address = RecursiveLevelAddress::derive(42, 9);
    let (tx, _) = address.translation_regions();
    let far = address.to_recursive_region((i64::MAX, 0));
    if tx > 0 {
        assert_eq!(far.0, i64::MAX);
    } else {
        assert_eq!(far.0, i64::MAX + tx);
    }
}

#[test]
fn equal_recency_keys_select_the_last_committed_stamp() {
    let first = state(5, 3, RedRoomPhase::Sealed);
    let mut second = first;
    second.gate_plane_bits = 7.5f32.to_bits();
    second.axis = Axis2::X;
    let snapshot = RealitySnapshot::new(vec![first, state(1, 1, RedRoomPhase::Outside), second]);
    let chosen = active_red_room(&snapshot).expect("a committed room");
    assert_eq!(chosen.gate_plane_bits, 7.5f32.to_bits());
    assert_eq!(chosen.axis, Axis2::X);
    let reversed = RealitySnapshot::new(vec![second, first]);
    assert_eq!(active_red_room(&reversed), Some(&first));
}
