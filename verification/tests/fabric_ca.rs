use vackrooms::fabric_ca::{
    evolve, evolve_sheet, generation_of, is_structural, step, MAX_GENERATIONS, PADDED, PADDED_CELLS,
};

fn index(x: i64, z: i64) -> usize {
    (z * PADDED + x) as usize
}

#[test]
fn epochs_past_the_cap_start_a_new_era() {
    let (g_at_cap, era_at_cap) = generation_of(MAX_GENERATIONS);
    let (g_past, era_past) = generation_of(MAX_GENERATIONS + 1);
    assert_eq!(g_at_cap, MAX_GENERATIONS);
    assert_eq!(g_past, 0);
    assert!(era_past > era_at_cap, "a new era must start a new run");
    assert_eq!(generation_of(0), (0, 0));
    assert_eq!(generation_of(23), (2, 3));
}

#[test]
fn structural_edges_sit_on_multiples_of_sixteen() {
    assert!(is_structural(0));
    assert!(is_structural(16));
    assert!(is_structural(-32));
    assert!(!is_structural(8));
    assert!(!is_structural(-1));
    assert!(!is_structural(17));
}

#[test]
fn an_isolated_wall_erodes_and_a_surrounded_gap_fills() {
    let mut state = vec![false; PADDED_CELLS];
    state[index(3, 3)] = true;
    // A ring of eight walls around (10, 10), which itself is open.
    for dz in -1i64..=1 {
        for dx in -1i64..=1 {
            if dx != 0 || dz != 0 {
                state[index(10 + dx, 10 + dz)] = true;
            }
        }
    }
    let next = step(&state);
    assert!(!next[index(3, 3)], "a lone wall has no company");
    assert!(next[index(10, 10)], "eight walled neighbours bloom");
    // A corner of the ring has only two walled neighbours and erodes.
    assert!(!next[index(9, 9)]);
    // An edge cell of the ring has four walled neighbours and stands.
    assert!(next[index(10, 9)]);
}

#[test]
fn a_wall_with_four_neighbours_stands_but_a_gap_needs_five() {
    let mut state = vec![false; PADDED_CELLS];
    for (x, z) in [(4, 5), (6, 5), (5, 4), (5, 6)] {
        state[index(x, z)] = true;
    }
    let next = step(&state);
    assert!(!next[index(5, 5)], "four is not enough to bloom");
    state[index(5, 5)] = true;
    let next = step(&state);
    assert!(next[index(5, 5)], "four is enough to stand");
}

#[test]
fn structure_never_erodes() {
    let mut seeded = vec![false; PADDED_CELLS];
    let mut firm = vec![false; PADDED_CELLS];
    seeded[index(3, 3)] = true;
    firm[index(3, 3)] = true;
    seeded[index(20, 20)] = true;
    for generations in 0..=MAX_GENERATIONS {
        let state = evolve(&seeded, &firm, generations);
        assert!(state[index(3, 3)], "a firm wall must survive generation {generations}");
        if generations > 0 {
            assert!(!state[index(20, 20)], "an unsupported wall erodes");
        }
    }
    assert_eq!(evolve(&seeded, &firm, 0), seeded);
}

#[test]
fn both_lattices_evolve_independently() {
    let mut west = vec![false; PADDED_CELLS];
    let north = vec![true; PADDED_CELLS];
    let firm = vec![false; PADDED_CELLS];
    west[index(1, 1)] = true;
    let sheet = evolve_sheet(&west, &firm, &north, &firm, 2);
    assert_eq!(sheet.at(1, 1), (false, true));
    assert_eq!(sheet.at(-1, 0), (false, false));
    assert_eq!(sheet.at(PADDED, 0), (false, false));
    // The sheet's corners have only three neighbours, so even a full
    // lattice erodes at its edges; the sheet is exactly two generations.
    assert!(!sheet.north[0]);
    assert!(sheet.north[index(1, 1)]);
    assert_eq!(sheet.north, step(&step(&north)));
}
