use vackrooms::levels::{supply_id, Sector};

#[test]
fn sectors_are_deterministic_and_all_four_exist_nearby() {
    let mut seen = std::collections::HashSet::new();
    for cz in -6i64..=6 {
        for cx in -6i64..=6 {
            // World point (cx * 96 + 10, cz * 96 + 10) lies in cell (cx, cz).
            assert_eq!(Sector::at_cell(42, cx, cz), Sector::at_cell(42, cx, cz));
            seen.insert(Sector::at_cell(42, cx, cz));
        }
    }
    assert_eq!(seen.len(), 4, "all four sectors within 13x13 cells");
    assert_eq!(Sector::at_cell(42, 0, 0), Sector::Aquila, "arrival cell");
}

#[test]
fn sector_names_are_the_hud_labels() {
    assert_eq!(Sector::Aquila.name(), "AQUILA SECTOR");
    assert_eq!(Sector::Gild.name(), "GILD SECTOR");
    assert_eq!(Sector::Gothic.name(), "GOTHIC SECTOR");
    assert_eq!(Sector::Construction.name(), "CONSTRUCTION SECTOR");
}

#[test]
fn the_arrival_cell_is_aquila_for_every_seed() {
    for seed in [0u32, 1, 42, 7777, u32::MAX] {
        assert_eq!(Sector::at_cell(seed, 0, 0), Sector::Aquila);
    }
}

#[test]
fn supply_ids_are_odd_and_stable() {
    for attempt in 0..4u64 {
        let id = supply_id(42, 3, -5, attempt);
        assert_eq!(id & 1, 1);
        assert_eq!(id, supply_id(42, 3, -5, attempt));
    }
    assert_ne!(supply_id(42, 3, -5, 0), supply_id(42, 3, -5, 1));
}
