//! Cellular-automata environmental decay: dampness creeps, wallpaper ages,
//! aged walls crumble.
//!
//! One step is a pure, synchronous transition over the horizontal Moore
//! neighborhood (the eight same-height neighbors): every decision reads the
//! previous generation only, so stepping is order-independent and
//! deterministic.

use vstd::prelude::*;
use crate::voxel_grid::{
    GridView, VoxelGrid, VOXEL_AGED_WALLPAPER, VOXEL_AIR, VOXEL_DAMAGED_WALL, VOXEL_DRY_CARPET,
    VOXEL_FLUID, VOXEL_STICKY_CARPET, VOXEL_WALL, VOXEL_WATER, lemma_decode, lemma_index_in_range,
    lemma_index_injective,
};

verus! {

/// Thresholds for the three transition rules, in damp-neighbor counts out of
/// the eight horizontal neighbors.
#[derive(Debug, Clone, Copy)]
pub struct DecayRules {
    /// Dry carpet saturates into sticky carpet at this many damp neighbors.
    pub carpet_saturates_at: u8,
    /// Exposed wall (at least one air neighbor) grows aged wallpaper at this
    /// many.
    pub wall_ages_at: u8,
    /// Aged wallpaper crumbles into damaged wall at this many.
    pub wallpaper_crumbles_at: u8,
}

impl DecayRules {
    pub fn default() -> (rules: Self)
        ensures
            rules.carpet_saturates_at == 3,
            rules.wall_ages_at == 2,
            rules.wallpaper_crumbles_at == 4,
    {
        DecayRules { carpet_saturates_at: 3, wall_ages_at: 2, wallpaper_crumbles_at: 4 }
    }
}

/// Materials that radiate dampness onto their neighbors.
pub open spec fn is_damp(material: u8) -> bool {
    material == VOXEL_STICKY_CARPET || material == VOXEL_FLUID || material == VOXEL_WATER
}

/// The material of the horizontal neighbor at `(x + dx, y, z + dz)`, if it
/// lies inside the grid.
pub open spec fn neighbor(g: GridView, x: int, y: int, z: int, dx: int, dz: int) -> Option<u8> {
    if 0 <= x + dx < g.width && 0 <= z + dz < g.depth {
        Some(g.material(x + dx, y, z + dz))
    } else {
        None
    }
}

pub open spec fn damp_term(g: GridView, x: int, y: int, z: int, dx: int, dz: int) -> nat {
    match neighbor(g, x, y, z, dx, dz) {
        Some(m) => if is_damp(m) { 1 } else { 0 },
        None => 0,
    }
}

pub open spec fn air_term(g: GridView, x: int, y: int, z: int, dx: int, dz: int) -> nat {
    match neighbor(g, x, y, z, dx, dz) {
        Some(m) => if m == VOXEL_AIR { 1 } else { 0 },
        None => 0,
    }
}

/// Damp neighbors among the eight horizontal ones.
pub open spec fn damp_count(g: GridView, x: int, y: int, z: int) -> nat {
    damp_term(g, x, y, z, -1, -1) + damp_term(g, x, y, z, 0, -1) + damp_term(g, x, y, z, 1, -1)
        + damp_term(g, x, y, z, -1, 0) + damp_term(g, x, y, z, 1, 0) + damp_term(g, x, y, z, -1, 1)
        + damp_term(g, x, y, z, 0, 1) + damp_term(g, x, y, z, 1, 1)
}

/// Air neighbors among the eight horizontal ones.
pub open spec fn air_count(g: GridView, x: int, y: int, z: int) -> nat {
    air_term(g, x, y, z, -1, -1) + air_term(g, x, y, z, 0, -1) + air_term(g, x, y, z, 1, -1)
        + air_term(g, x, y, z, -1, 0) + air_term(g, x, y, z, 1, 0) + air_term(g, x, y, z, -1, 1)
        + air_term(g, x, y, z, 0, 1) + air_term(g, x, y, z, 1, 1)
}

/// The next state of one cell, or `None` when it keeps its material.
pub open spec fn transition_spec(rules: DecayRules, current: u8, damp: nat, air: nat) -> Option<u8> {
    if current == VOXEL_DRY_CARPET && damp >= rules.carpet_saturates_at {
        Some(VOXEL_STICKY_CARPET)
    } else if current == VOXEL_WALL && air >= 1 && damp >= rules.wall_ages_at {
        Some(VOXEL_AGED_WALLPAPER)
    } else if current == VOXEL_AGED_WALLPAPER && damp >= rules.wallpaper_crumbles_at {
        Some(VOXEL_DAMAGED_WALL)
    } else {
        None
    }
}

/// What the rule decides for the cell at `(x, y, z)` of grid `g`.
pub open spec fn cell_transition(rules: DecayRules, g: GridView, x: int, y: int, z: int) -> Option<u8> {
    transition_spec(rules, g.material(x, y, z), damp_count(g, x, y, z), air_count(g, x, y, z))
}

/// The material the cell holds one generation later.
pub open spec fn next_material(rules: DecayRules, g: GridView, x: int, y: int, z: int) -> u8 {
    match cell_transition(rules, g, x, y, z) {
        Some(m) => m,
        None => g.material(x, y, z),
    }
}

pub open spec fn changes_at_slot(rules: DecayRules, g: GridView, i: int) -> bool {
    let c = g.decode(i);
    cell_transition(rules, g, c.0, c.1, c.2) is Some
}

/// How many of the first `n` storage slots change in one generation.
pub open spec fn changes_below(rules: DecayRules, g: GridView, n: int) -> nat
    decreases n,
{
    if n <= 0 {
        0
    } else {
        changes_below(rules, g, n - 1) + if changes_at_slot(rules, g, n - 1) { 1nat } else { 0nat }
    }
}

/// The census of one horizontal neighbor: (damp, air).
fn tally(grid: &VoxelGrid, x: usize, y: usize, z: usize, dx: i8, dz: i8) -> (r: (u8, u8))
    requires
        grid.wf(),
        grid@.in_bounds(x as int, y as int, z as int),
        -1 <= dx <= 1,
        -1 <= dz <= 1,
    ensures
        r.0 as nat == damp_term(grid@, x as int, y as int, z as int, dx as int, dz as int),
        r.1 as nat == air_term(grid@, x as int, y as int, z as int, dx as int, dz as int),
{
    if dx == -1 && x == 0 {
        return (0, 0);
    }
    if dz == -1 && z == 0 {
        return (0, 0);
    }
    if dx == 1 && x + 1 >= grid.width() {
        return (0, 0);
    }
    if dz == 1 && z + 1 >= grid.depth() {
        return (0, 0);
    }
    let nx = if dx == -1 {
        x - 1
    } else if dx == 1 {
        x + 1
    } else {
        x
    };
    let nz = if dz == -1 {
        z - 1
    } else if dz == 1 {
        z + 1
    } else {
        z
    };
    let material = grid.get(nx, y, nz);
    if material == VOXEL_STICKY_CARPET || material == VOXEL_FLUID || material == VOXEL_WATER {
        (1, 0)
    } else if material == VOXEL_AIR {
        (0, 1)
    } else {
        (0, 0)
    }
}

/// The horizontal Moore neighborhood census at `(x, y, z)`: (damp, air).
pub fn census(grid: &VoxelGrid, x: usize, y: usize, z: usize) -> (r: (u8, u8))
    requires
        grid.wf(),
        grid@.in_bounds(x as int, y as int, z as int),
    ensures
        r.0 as nat == damp_count(grid@, x as int, y as int, z as int),
        r.1 as nat == air_count(grid@, x as int, y as int, z as int),
{
    let mut damp: u8 = 0;
    let mut air: u8 = 0;
    let t = tally(grid, x, y, z, -1, -1);
    damp = damp + t.0;
    air = air + t.1;
    let t = tally(grid, x, y, z, 0, -1);
    damp = damp + t.0;
    air = air + t.1;
    let t = tally(grid, x, y, z, 1, -1);
    damp = damp + t.0;
    air = air + t.1;
    let t = tally(grid, x, y, z, -1, 0);
    damp = damp + t.0;
    air = air + t.1;
    let t = tally(grid, x, y, z, 1, 0);
    damp = damp + t.0;
    air = air + t.1;
    let t = tally(grid, x, y, z, -1, 1);
    damp = damp + t.0;
    air = air + t.1;
    let t = tally(grid, x, y, z, 0, 1);
    damp = damp + t.0;
    air = air + t.1;
    let t = tally(grid, x, y, z, 1, 1);
    damp = damp + t.0;
    air = air + t.1;
    (damp, air)
}

/// The next state of one cell, or `None` when it keeps its material.
pub fn transition(rules: &DecayRules, current: u8, damp: u8, air: u8) -> (next: Option<u8>)
    ensures
        next == transition_spec(*rules, current, damp as nat, air as nat),
{
    if current == VOXEL_DRY_CARPET && damp >= rules.carpet_saturates_at {
        Some(VOXEL_STICKY_CARPET)
    } else if current == VOXEL_WALL && air >= 1 && damp >= rules.wall_ages_at {
        Some(VOXEL_AGED_WALLPAPER)
    } else if current == VOXEL_AGED_WALLPAPER && damp >= rules.wallpaper_crumbles_at {
        Some(VOXEL_DAMAGED_WALL)
    } else {
        None
    }
}

/// Advances the automaton one generation in place and returns how many cells
/// changed. Every cell's next material is decided from the previous
/// generation alone.
pub fn step_cellular_decay(grid: &mut VoxelGrid, rules: &DecayRules) -> (changed: usize)
    requires
        old(grid).wf(),
    ensures
        final(grid).wf(),
        final(grid)@.same_shape(old(grid)@),
        final(grid)@.light == old(grid)@.light,
        final(grid)@.occlusion == old(grid)@.occlusion,
        forall|x: int, y: int, z: int|
            old(grid)@.in_bounds(x, y, z) ==> #[trigger] final(grid)@.material(x, y, z)
                == next_material(*rules, old(grid)@, x, y, z),
        changed == changes_below(*rules, old(grid)@, old(grid)@.volume() as int),
{
    let ghost g = grid@;
    let volume = grid.volume();
    // Read the whole previous generation before the first write.
    let mut decisions: Vec<Option<u8>> = Vec::new();
    let mut count: usize = 0;
    let mut i: usize = 0;
    while i < volume
        invariant
            grid@ == g,
            grid.wf(),
            volume == g.volume(),
            i <= volume,
            decisions@.len() == i,
            forall|j: int|
                0 <= j < i ==> #[trigger] decisions@[j] == cell_transition(
                    *rules,
                    g,
                    g.decode(j).0,
                    g.decode(j).1,
                    g.decode(j).2,
                ),
            count == changes_below(*rules, g, i as int),
            count <= i,
        decreases volume - i,
    {
        let (x, y, z) = grid.coords_of(i);
        let current = grid.get(x, y, z);
        let (damp, air) = census(grid, x, y, z);
        let next = transition(rules, current, damp, air);
        if next.is_some() {
            count = count + 1;
        }
        decisions.push(next);
        i = i + 1;
    }
    let mut i: usize = 0;
    while i < volume
        invariant
            grid.wf(),
            grid@.same_shape(g),
            grid@.light == g.light,
            grid@.occlusion == g.occlusion,
            volume == g.volume(),
            i <= volume,
            decisions@.len() == volume,
            forall|j: int|
                0 <= j < volume ==> #[trigger] decisions@[j] == cell_transition(
                    *rules,
                    g,
                    g.decode(j).0,
                    g.decode(j).1,
                    g.decode(j).2,
                ),
            forall|j: int|
                0 <= j < i ==> #[trigger] grid@.materials[j] == match decisions@[j] {
                    Some(m) => m,
                    None => g.materials[j],
                },
            forall|j: int| i <= j < volume ==> #[trigger] grid@.materials[j] == g.materials[j],
            g.wf(),
        decreases volume - i,
    {
        if let Some(material) = decisions[i] {
            let (x, y, z) = grid.coords_of(i);
            grid.set(x, y, z, material);
        }
        i = i + 1;
    }
    proof {
        assert forall|x: int, y: int, z: int| g.in_bounds(x, y, z) implies #[trigger] grid@.material(
            x,
            y,
            z,
        ) == next_material(*rules, g, x, y, z) by {
            lemma_index_in_range(g, x, y, z);
            let j = g.index(x, y, z);
            lemma_decode(g, j);
            let c = g.decode(j);
            lemma_index_injective(g, x, y, z, c.0, c.1, c.2);
        }
    }
    count
}

/// A grid in which no rule applies anywhere is a fixpoint: one step changes
/// no cell and reports zero changes.
pub proof fn law_quiet_grid_is_fixpoint(rules: DecayRules, g: GridView)
    requires
        g.wf(),
        forall|x: int, y: int, z: int|
            g.in_bounds(x, y, z) ==> #[trigger] cell_transition(rules, g, x, y, z) is None,
    ensures
        forall|x: int, y: int, z: int|
            g.in_bounds(x, y, z) ==> #[trigger] next_material(rules, g, x, y, z) == g.material(x, y, z),
        changes_below(rules, g, g.volume() as int) == 0,
{
    lemma_no_changes_below(rules, g, g.volume() as int);
}

/// The three decay rules, each judged against its own threshold: dry
/// carpet turns sticky exactly when at least `carpet_saturates_at` of its
/// neighbours are damp; a wall turns to aged wallpaper exactly when it has
/// an air neighbour and at least `wall_ages_at` damp ones; aged wallpaper
/// crumbles to damaged wall exactly when at least `wallpaper_crumbles_at`
/// neighbours are damp, whatever the other thresholds; every other material
/// stays as it is.
pub proof fn law_each_rule_uses_its_own_threshold(rules: DecayRules, current: u8, damp: nat, air: nat)
    ensures
        current == VOXEL_DRY_CARPET ==> transition_spec(rules, current, damp, air) == if damp
            >= rules.carpet_saturates_at {
            Some(VOXEL_STICKY_CARPET)
        } else {
            None
        },
        current == VOXEL_WALL ==> transition_spec(rules, current, damp, air) == if air >= 1 && damp
            >= rules.wall_ages_at {
            Some(VOXEL_AGED_WALLPAPER)
        } else {
            None
        },
        current == VOXEL_AGED_WALLPAPER ==> transition_spec(rules, current, damp, air) == if damp
            >= rules.wallpaper_crumbles_at {
            Some(VOXEL_DAMAGED_WALL)
        } else {
            None
        },
        current != VOXEL_DRY_CARPET && current != VOXEL_WALL && current != VOXEL_AGED_WALLPAPER ==> transition_spec(
            rules,
            current,
            damp,
            air,
        ) is None,
{
}

/// On a grid, one step crumbles an aged-wallpaper cell into damaged wall
/// exactly when at least `wallpaper_crumbles_at` of its eight horizontal
/// neighbours are damp, saturates dry carpet exactly when at least
/// `carpet_saturates_at` are, and ages a wall exactly when it touches air
/// and at least `wall_ages_at` are damp; otherwise the cell keeps its
/// material.
pub proof fn law_step_applies_the_thresholds(rules: DecayRules, g: GridView, x: int, y: int, z: int)
    ensures
        g.material(x, y, z) == VOXEL_AGED_WALLPAPER ==> next_material(rules, g, x, y, z) == if damp_count(
            g,
            x,
            y,
            z,
        ) >= rules.wallpaper_crumbles_at {
            VOXEL_DAMAGED_WALL
        } else {
            VOXEL_AGED_WALLPAPER
        },
        g.material(x, y, z) == VOXEL_DRY_CARPET ==> next_material(rules, g, x, y, z) == if damp_count(g, x, y, z)
            >= rules.carpet_saturates_at {
            VOXEL_STICKY_CARPET
        } else {
            VOXEL_DRY_CARPET
        },
        g.material(x, y, z) == VOXEL_WALL ==> next_material(rules, g, x, y, z) == if air_count(g, x, y, z) >= 1
            && damp_count(g, x, y, z) >= rules.wall_ages_at {
            VOXEL_AGED_WALLPAPER
        } else {
            VOXEL_WALL
        },
{
    law_each_rule_uses_its_own_threshold(rules, g.material(x, y, z), damp_count(g, x, y, z), air_count(g, x, y, z));
}

/// How many more decay changes a cell of this material can still undergo:
/// dry carpet once (it turns sticky), a bare wall twice (it ages, then
/// crumbles), aged wallpaper once, and any other material never.
pub open spec fn decay_budget(m: u8) -> nat {
    if m == VOXEL_DRY_CARPET {
        1
    } else if m == VOXEL_WALL {
        2
    } else if m == VOXEL_AGED_WALLPAPER {
        1
    } else {
        0
    }
}

/// The decay budget of the first `n` storage slots together.
pub open spec fn budget_below(g: GridView, n: int) -> nat
    decreases n,
{
    if n <= 0 {
        0
    } else {
        budget_below(g, n - 1) + decay_budget(g.materials[n - 1])
    }
}

/// `after` is what one step of the automaton makes of `before`.
pub open spec fn is_decay_step(rules: DecayRules, before: GridView, after: GridView) -> bool {
    &&& after.wf()
    &&& after.same_shape(before)
    &&& forall|x: int, y: int, z: int|
        before.in_bounds(x, y, z) ==> #[trigger] after.material(x, y, z) == next_material(rules, before, x, y, z)
}

/// A cell that changes spends exactly one unit of its decay budget, and one
/// that does not keeps its material: no rule ever restores dry carpet or a
/// bare wall, so a cell changes at most twice however long the automaton runs.
pub proof fn law_change_spends_budget(rules: DecayRules, g: GridView, x: int, y: int, z: int)
    ensures
        cell_transition(rules, g, x, y, z) is Some ==> decay_budget(next_material(rules, g, x, y, z)) + 1
            == decay_budget(g.material(x, y, z)),
        cell_transition(rules, g, x, y, z) is None ==> next_material(rules, g, x, y, z) == g.material(x, y, z),
{
}

proof fn lemma_step_budget_below(rules: DecayRules, g: GridView, g2: GridView, n: int)
    requires
        g.wf(),
        is_decay_step(rules, g, g2),
        0 <= n <= g.volume(),
    ensures
        budget_below(g2, n) + changes_below(rules, g, n) == budget_below(g, n),
    decreases n,
{
    if n > 0 {
        lemma_step_budget_below(rules, g, g2, n - 1);
        let i = n - 1;
        lemma_decode(g, i);
        let c = g.decode(i);
        law_change_spends_budget(rules, g, c.0, c.1, c.2);
        assert(g2.material(c.0, c.1, c.2) == g2.materials[i]);
        assert(g.material(c.0, c.1, c.2) == g.materials[i]);
    }
}

proof fn lemma_budget_bounded(g: GridView, n: int)
    requires
        n >= 0,
    ensures
        budget_below(g, n) <= 2 * n,
    decreases n,
{
    if n > 0 {
        lemma_budget_bounded(g, n - 1);
    }
}

/// One step reports exactly the budget it spends: the grid's remaining
/// budget falls by the number of changed cells, and no grid holds more than
/// two units per cell.
pub proof fn law_step_spends_budget(rules: DecayRules, g: GridView, g2: GridView)
    requires
        g.wf(),
        is_decay_step(rules, g, g2),
    ensures
        budget_below(g2, g2.volume() as int) + changes_below(rules, g, g.volume() as int) == budget_below(
            g,
            g.volume() as int,
        ),
        budget_below(g, g.volume() as int) <= 2 * g.volume(),
{
    lemma_step_budget_below(rules, g, g2, g.volume() as int);
    lemma_budget_bounded(g, g.volume() as int);
}

/// Changes reported by the first `k` steps of a run.
pub open spec fn run_changes(rules: DecayRules, run: Seq<GridView>, k: int) -> nat
    decreases k,
{
    if k <= 0 {
        0
    } else {
        run_changes(rules, run, k - 1) + changes_below(rules, run[k - 1], run[k - 1].volume() as int)
    }
}

/// How many of the first `k` steps of a run changed at least one cell.
pub open spec fn busy_steps(rules: DecayRules, run: Seq<GridView>, k: int) -> nat
    decreases k,
{
    if k <= 0 {
        0
    } else {
        busy_steps(rules, run, k - 1) + if changes_below(rules, run[k - 1], run[k - 1].volume() as int) > 0 {
            1nat
        } else {
            0nat
        }
    }
}

/// Over any run of steps, each step applied to the grid the last one left,
/// the reported changes add up to at most twice the grid's volume, so
/// stepping until nothing changes stops after at most `2 * volume + 1`
/// steps.
pub proof fn law_decay_run_is_bounded(rules: DecayRules, run: Seq<GridView>)
    requires
        run.len() >= 1,
        run[0].wf(),
        forall|k: int| 0 <= k < run.len() - 1 ==> #[trigger] is_decay_step(rules, run[k], run[k + 1]),
    ensures
        run_changes(rules, run, run.len() - 1) + budget_below(run.last(), run.last().volume() as int)
            == budget_below(run[0], run[0].volume() as int),
        run_changes(rules, run, run.len() - 1) <= 2 * run[0].volume(),
        busy_steps(rules, run, run.len() - 1) <= 2 * run[0].volume(),
{
    lemma_run_prefix(rules, run, run.len() - 1);
    lemma_budget_bounded(run[0], run[0].volume() as int);
}

proof fn lemma_run_prefix(rules: DecayRules, run: Seq<GridView>, k: int)
    requires
        0 <= k < run.len(),
        run[0].wf(),
        forall|j: int| 0 <= j < run.len() - 1 ==> #[trigger] is_decay_step(rules, run[j], run[j + 1]),
    ensures
        run[k].wf(),
        run[k].volume() == run[0].volume(),
        run_changes(rules, run, k) + budget_below(run[k], run[k].volume() as int) == budget_below(
            run[0],
            run[0].volume() as int,
        ),
        busy_steps(rules, run, k) <= run_changes(rules, run, k),
    decreases k,
{
    if k > 0 {
        lemma_run_prefix(rules, run, k - 1);
        let j = k - 1;
        assert(is_decay_step(rules, run[j], run[j + 1]));
        assert(j + 1 == k);
        law_step_spends_budget(rules, run[k - 1], run[k]);
    }
}

proof fn lemma_no_changes_below(rules: DecayRules, g: GridView, n: int)
    requires
        0 <= n <= g.volume(),
        forall|x: int, y: int, z: int|
            g.in_bounds(x, y, z) ==> #[trigger] cell_transition(rules, g, x, y, z) is None,
    ensures
        changes_below(rules, g, n) == 0,
    decreases n,
{
    if n > 0 {
        lemma_no_changes_below(rules, g, n - 1);
        lemma_decode(g, n - 1);
        let c = g.decode(n - 1);
        assert(cell_transition(rules, g, c.0, c.1, c.2) is None);
    }
}

} // verus!
