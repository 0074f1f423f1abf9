//! The fabric as a cellular automaton: walls that grew, not walls that were
//! rolled.
//!
//! A cell's walls at generation `t` depend on its neighbours at `t - 1`.
//! Each sheet of fabric cells is solved with a margin of `MAX_GENERATIONS`
//! cells on every side, under the "4-5" smoothing rule: a wall stands where
//! it has at least four walled neighbours and blooms where it has five.
//! Structural edges, the top of the subdivision hierarchy, never erode.

use vstd::prelude::*;

verus! {

/// Fabric cells per solved sheet, per axis.
pub const SHEET: i64 = 16;
/// Generations the automaton will actually run.
pub const MAX_GENERATIONS: u32 = 6;
/// Padded side of a solved sheet: `SHEET + 2 * MAX_GENERATIONS`.
pub const PADDED: i64 = 28;
/// Cells of a padded sheet.
pub const PADDED_CELLS: usize = 784;
/// Epochs per era: generations `0 ..= MAX_GENERATIONS`.
pub const ERA_EPOCHS: u32 = 7;
/// Levels of the subdivision hierarchy above the fabric cell.
pub const LEVELS: u32 = 4;

/// Solved wall state for one padded sheet, row-major by `(z, x)`.
#[derive(Debug, Clone)]
pub struct Sheet {
    pub west: Vec<bool>,
    pub north: Vec<bool>,
}

impl Sheet {
    pub open spec fn wf(&self) -> bool {
        self.west@.len() == PADDED_CELLS && self.north@.len() == PADDED_CELLS
    }

    /// The walls of padded cell `(ix, iz)`; cells off the sheet are open.
    pub fn at(&self, ix: i64, iz: i64) -> (walls: (bool, bool))
        requires
            self.wf(),
        ensures
            !(0 <= ix < PADDED && 0 <= iz < PADDED) ==> walls == (false, false),
            0 <= ix < PADDED && 0 <= iz < PADDED ==> walls == (
                self.west@[iz * PADDED + ix],
                self.north@[iz * PADDED + ix],
            ),
    {
        if ix < 0 || iz < 0 || ix >= PADDED || iz >= PADDED {
            return (false, false);
        }
        let i = (iz * PADDED + ix) as usize;
        (self.west[i], self.north[i])
    }
}

/// How many generations an epoch has run, and the era whose salt seeds the
/// initial fill: epochs past the cap re-seed rather than deepen.
pub fn generation_of(epoch: u32) -> (r: (u32, u32))
    ensures
        r.0 == epoch % ERA_EPOCHS,
        r.1 == epoch / ERA_EPOCHS,
        r.0 <= MAX_GENERATIONS,
        r.1 * ERA_EPOCHS + r.0 == epoch,
{
    let era = epoch / ERA_EPOCHS;
    let generation = epoch % ERA_EPOCHS;
    (generation, era)
}

/// Is an edge at this coordinate structure rather than partition: does the
/// coordinate have at least `LEVELS` trailing zero bits?
pub open spec fn is_structural_spec(along: i64) -> bool {
    along % 16 == 0
}

pub fn is_structural(along: i64) -> (r: bool)
    ensures
        r == is_structural_spec(along),
{
    proof {
        assert((along & 15i64 == 0i64) == (along % 16 == 0)) by (bit_vector);
    }
    along & 15 == 0
}

/// 1 when padded cell `(x, z)` lies on the sheet and is set, else 0.
pub open spec fn lit(state: Seq<bool>, x: int, z: int) -> nat {
    if 0 <= x < PADDED && 0 <= z < PADDED && state[z * PADDED + x] {
        1
    } else {
        0
    }
}

/// Set cells among the eight neighbours of `(x, z)`.
pub open spec fn alive_around(state: Seq<bool>, x: int, z: int) -> nat {
    lit(state, x - 1, z - 1) + lit(state, x, z - 1) + lit(state, x + 1, z - 1) + lit(state, x - 1, z)
        + lit(state, x + 1, z) + lit(state, x - 1, z + 1) + lit(state, x, z + 1) + lit(state, x + 1, z + 1)
}

/// The "4-5" rule at one cell.
pub open spec fn rule_at(state: Seq<bool>, x: int, z: int) -> bool {
    let alive = alive_around(state, x, z);
    alive >= 5 || (state[z * PADDED + x] && alive >= 4)
}

/// One synchronous generation over a padded sheet.
pub open spec fn step_spec(state: Seq<bool>) -> Seq<bool> {
    Seq::new(PADDED_CELLS as nat, |i: int| rule_at(state, i % (PADDED as int), i / (PADDED as int)))
}

/// Structural cells take back their seeded state.
pub open spec fn restore(state: Seq<bool>, seeded: Seq<bool>, firm: Seq<bool>) -> Seq<bool> {
    Seq::new(state.len(), |i: int| if firm[i] { seeded[i] } else { state[i] })
}

/// The sheet after `generations` steps from `seeded`.
pub open spec fn evolve_spec(seeded: Seq<bool>, firm: Seq<bool>, generations: nat) -> Seq<bool>
    decreases generations,
{
    if generations == 0 {
        seeded
    } else {
        restore(step_spec(evolve_spec(seeded, firm, (generations - 1) as nat)), seeded, firm)
    }
}

fn lit_at(state: &Vec<bool>, x: i64, z: i64) -> (r: u8)
    requires
        state@.len() == PADDED_CELLS,
        -1 <= x <= PADDED,
        -1 <= z <= PADDED,
    ensures
        r == lit(state@, x as int, z as int),
{
    if 0 <= x && x < PADDED && 0 <= z && z < PADDED && state[(z * PADDED + x) as usize] {
        1
    } else {
        0
    }
}

/// One synchronous generation of the smoothing rule.
pub fn step(state: &Vec<bool>) -> (next: Vec<bool>)
    requires
        state@.len() == PADDED_CELLS,
    ensures
        next@ == step_spec(state@),
{
    let mut next: Vec<bool> = Vec::new();
    let mut iz: i64 = 0;
    while iz < PADDED
        invariant
            0 <= iz <= PADDED,
            state@.len() == PADDED_CELLS,
            next@.len() == iz * PADDED,
            forall|j: int| 0 <= j < next@.len() ==> #[trigger] next@[j] == rule_at(state@, j % (PADDED as int), j / (PADDED as int)),
        decreases PADDED - iz,
    {
        let mut ix: i64 = 0;
        while ix < PADDED
            invariant
                0 <= ix <= PADDED,
                0 <= iz < PADDED,
                state@.len() == PADDED_CELLS,
                next@.len() == iz * PADDED + ix,
                forall|j: int| 0 <= j < next@.len() ==> #[trigger] next@[j] == rule_at(state@, j % (PADDED as int), j / (PADDED as int)),
            decreases PADDED - ix,
        {
            let alive = lit_at(state, ix - 1, iz - 1) + lit_at(state, ix, iz - 1) + lit_at(state, ix + 1, iz - 1)
                + lit_at(state, ix - 1, iz) + lit_at(state, ix + 1, iz) + lit_at(state, ix - 1, iz + 1)
                + lit_at(state, ix, iz + 1) + lit_at(state, ix + 1, iz + 1);
            let i = (iz * PADDED + ix) as usize;
            let value = alive >= 5 || (state[i] && alive >= 4);
            proof {
                vstd::arithmetic::div_mod::lemma_fundamental_div_mod_converse(
                    i as int,
                    PADDED as int,
                    iz as int,
                    ix as int,
                );
                assert(value == rule_at(state@, ix as int, iz as int));
            }
            next.push(value);
            ix = ix + 1;
        }
        iz = iz + 1;
    }
    proof {
        assert(next@ =~= step_spec(state@));
    }
    next
}

/// Runs the automaton for `generations` steps from the seeded fill,
/// restoring the structural cells after every step.
pub fn evolve(seeded: &Vec<bool>, firm: &Vec<bool>, generations: u32) -> (state: Vec<bool>)
    requires
        seeded@.len() == PADDED_CELLS,
        firm@.len() == PADDED_CELLS,
    ensures
        state@ == evolve_spec(seeded@, firm@, generations as nat),
{
    let mut state: Vec<bool> = Vec::new();
    let mut i: usize = 0;
    while i < PADDED_CELLS
        invariant
            0 <= i <= PADDED_CELLS,
            seeded@.len() == PADDED_CELLS,
            state@ == seeded@.take(i as int),
        decreases PADDED_CELLS - i,
    {
        state.push(seeded[i]);
        proof {
            assert(state@ =~= seeded@.take(i + 1));
        }
        i = i + 1;
    }
    proof {
        assert(state@ =~= seeded@);
    }
    let mut g: u32 = 0;
    while g < generations
        invariant
            0 <= g <= generations,
            seeded@.len() == PADDED_CELLS,
            firm@.len() == PADDED_CELLS,
            state@ == evolve_spec(seeded@, firm@, g as nat),
            state@.len() == PADDED_CELLS,
        decreases generations - g,
    {
        let stepped = step(&state);
        let ghost before = stepped@;
        state = stepped;
        let mut k: usize = 0;
        while k < PADDED_CELLS
            invariant
                0 <= k <= PADDED_CELLS,
                seeded@.len() == PADDED_CELLS,
                firm@.len() == PADDED_CELLS,
                before.len() == PADDED_CELLS,
                state@.len() == PADDED_CELLS,
                forall|j: int| 0 <= j < k ==> #[trigger] state@[j] == (if firm@[j] { seeded@[j] } else { before[j] }),
                forall|j: int| k <= j < PADDED_CELLS ==> #[trigger] state@[j] == before[j],
            decreases PADDED_CELLS - k,
        {
            if firm[k] {
                state.set(k, seeded[k]);
            }
            k = k + 1;
        }
        proof {
            assert(state@ =~= restore(before, seeded@, firm@));
        }
        g = g + 1;
    }
    state
}

/// Runs both edge lattices of one sheet; the second half of solving a sheet,
/// after its generation-0 fill and structural masks are known.
pub fn evolve_sheet(
    seeded_west: &Vec<bool>,
    firm_west: &Vec<bool>,
    seeded_north: &Vec<bool>,
    firm_north: &Vec<bool>,
    generation: u32,
) -> (sheet: Sheet)
    requires
        seeded_west@.len() == PADDED_CELLS,
        firm_west@.len() == PADDED_CELLS,
        seeded_north@.len() == PADDED_CELLS,
        firm_north@.len() == PADDED_CELLS,
    ensures
        sheet.wf(),
        sheet.west@ == evolve_spec(seeded_west@, firm_west@, generation as nat),
        sheet.north@ == evolve_spec(seeded_north@, firm_north@, generation as nat),
{
    let west = evolve(seeded_west, firm_west, generation);
    let north = evolve(seeded_north, firm_north, generation);
    proof {
        lemma_evolve_len(seeded_west@, firm_west@, generation as nat);
        lemma_evolve_len(seeded_north@, firm_north@, generation as nat);
    }
    Sheet { west, north }
}

proof fn lemma_evolve_len(seeded: Seq<bool>, firm: Seq<bool>, generations: nat)
    requires
        seeded.len() == PADDED_CELLS,
    ensures
        evolve_spec(seeded, firm, generations).len() == PADDED_CELLS,
    decreases generations,
{
    if generations > 0 {
        lemma_evolve_len(seeded, firm, (generations - 1) as nat);
    }
}

/// The "4-5" rule of one generation: at every padded cell, the next state is
/// walled exactly when at least five of its eight neighbours are walled, or
/// the cell is walled and at least four are. So an open cell blooms at five
/// walled neighbours and stays open at four or fewer, and a wall stands at
/// four and erodes at three or fewer.
pub proof fn law_four_five_rule(state: Seq<bool>, i: int)
    requires
        state.len() == PADDED_CELLS,
        0 <= i < PADDED_CELLS,
    ensures
        ({
            let (x, z) = (i % 28, i / 28);
            let alive = alive_around(state, x, z);
            &&& step_spec(state).len() == PADDED_CELLS
            &&& step_spec(state)[i] == (alive >= 5 || (state[i] && alive >= 4))
            &&& !state[i] ==> (step_spec(state)[i] <==> alive >= 5)
            &&& state[i] ==> (step_spec(state)[i] <==> alive >= 4)
        }),
{
    let (x, z) = (i % 28, i / 28);
    assert(z * PADDED + x == i);
}

/// Structure does not erode: however many generations run, a structural
/// cell keeps the state it was seeded with.
pub proof fn law_structure_never_erodes(seeded: Seq<bool>, firm: Seq<bool>, generations: nat, i: int)
    requires
        seeded.len() == PADDED_CELLS,
        firm.len() == PADDED_CELLS,
        0 <= i < PADDED_CELLS,
        firm[i],
    ensures
        evolve_spec(seeded, firm, generations)[i] == seeded[i],
    decreases generations,
{
    if generations > 0 {
        lemma_evolve_len(seeded, firm, (generations - 1) as nat);
    }
}

/// Generation zero is the seeded fill itself.
pub proof fn law_generation_zero_is_the_fill(seeded: Seq<bool>, firm: Seq<bool>)
    ensures
        evolve_spec(seeded, firm, 0) == seeded,
{
}

} // verus!
