//! User-authored construction: the edit model of the building sandbox.
//!
//! The generator answers "what is here"; a session answers "what did someone
//! build here". An [`AuthoringSession`] is an ordered list of operations
//! (add this wall, cut that doorway) held as solids and baked into generated
//! chunks. Order is the edit history: a doorway cut after a wall is a hole
//! in it, the same cut before it is nothing, and undo drops the latest.

use vstd::prelude::*;
use crate::voxel_grid::{VoxelGrid, GridView, VOXEL_AIR, lemma_index_injective, lemma_index_in_range};

verus! {

/// What an operation does to the world.
#[derive(Clone, Copy, Debug, PartialEq, Eq, Structural)]
pub enum EditOp {
    /// Add solid matter in a material.
    Add,
    /// Remove matter, leaving air. Doorways, windows, demolition.
    Cut,
}

/// One authored construction operation over a solid of type `S`.
#[derive(Clone, Debug)]
pub struct AuthoredElement<S> {
    pub solid: S,
    pub op: EditOp,
    /// Material for [`EditOp::Add`]; ignored for a cut.
    pub material: u8,
}

/// The material an operation leaves in the cells it covers.
pub open spec fn written_material(op: EditOp, material: u8) -> u8 {
    match op {
        EditOp::Add => material,
        EditOp::Cut => VOXEL_AIR,
    }
}

/// The material a cell holds after one operation: the operation's material
/// where its solid covers the cell, what the cell held otherwise.
pub open spec fn after_edit(before: u8, op: EditOp, material: u8, covered: bool) -> u8 {
    if covered {
        written_material(op, material)
    } else {
        before
    }
}

/// Order is the edit history: on a cell both operations cover, the later
/// operation decides. A doorway cut before its wall exists leaves the wall
/// whole; the same cut after the wall leaves air.
pub proof fn law_order_is_the_edit_history(before: u8, wall: u8)
    ensures
        after_edit(after_edit(before, EditOp::Cut, 0, true), EditOp::Add, wall, true) == wall,
        after_edit(after_edit(before, EditOp::Add, wall, true), EditOp::Cut, 0, true) == VOXEL_AIR,
        forall|op1: EditOp, m1: u8, op2: EditOp, m2: u8, c1: bool|
            #[trigger] after_edit(after_edit(before, op1, m1, c1), op2, m2, true) == written_material(op2, m2),
{
}

/// An ordered edit history over the generated world.
#[derive(Clone, Debug)]
pub struct AuthoringSession<S> {
    elements: Vec<AuthoredElement<S>>,
}

impl<S> View for AuthoringSession<S> {
    type V = Seq<AuthoredElement<S>>;

    closed spec fn view(&self) -> Seq<AuthoredElement<S>> {
        self.elements@
    }
}

impl<S> AuthoringSession<S> {
    pub fn new() -> (session: Self)
        ensures
            session@ == Seq::<AuthoredElement<S>>::empty(),
    {
        AuthoringSession { elements: Vec::new() }
    }

    /// The history, oldest first.
    pub fn elements(&self) -> (elements: &[AuthoredElement<S>])
        ensures
            elements@ == self@,
    {
        self.elements.as_slice()
    }

    pub fn is_empty(&self) -> (empty: bool)
        ensures
            empty == (self@.len() == 0),
    {
        self.elements.len() == 0
    }

    /// Undo: drops the most recent operation and hands it back.
    pub fn undo(&mut self) -> (undone: Option<AuthoredElement<S>>)
        ensures
            old(self)@.len() == 0 ==> undone is None && final(self)@ == old(self)@,
            old(self)@.len() > 0 ==> undone == Some(old(self)@.last()) && final(self)@ == old(self)@.drop_last(),
    {
        self.elements.pop()
    }

    /// Appends an operation to the history; returns the session so edits
    /// can be chained.
    pub fn push(&mut self, element: AuthoredElement<S>) -> (session: &mut Self)
        ensures
            session@ == old(self)@.push(element),
            final(self)@ == final(session)@,
    {
        self.elements.push(element);
        self
    }
}

/// Undoing right after a push hands back the pushed operation and leaves
/// the history as it was before the push.
pub proof fn law_undo_reverts_push<S>(before: Seq<AuthoredElement<S>>, element: AuthoredElement<S>)
    ensures
        before.push(element).len() > 0,
        before.push(element).last() == element,
        before.push(element).drop_last() == before,
{
    assert(before.push(element).drop_last() =~= before);
}

/// Writes one operation into the cells its solid covers: every listed cell
/// takes the operation's material (air for a cut), every other cell keeps
/// what it had. Which cells a solid covers is decided by the caller.
pub fn stamp_cells(grid: &mut VoxelGrid, op: EditOp, material: u8, cells: &Vec<(usize, usize, usize)>)
    requires
        old(grid).wf(),
        forall|i: int| 0 <= i < cells@.len() ==> old(grid)@.in_bounds(
            #[trigger] cells@[i].0 as int,
            cells@[i].1 as int,
            cells@[i].2 as int,
        ),
    ensures
        final(grid).wf(),
        final(grid)@.same_shape(old(grid)@),
        final(grid)@.light == old(grid)@.light,
        final(grid)@.occlusion == old(grid)@.occlusion,
        forall|x: int, y: int, z: int|
            old(grid)@.in_bounds(x, y, z) ==> #[trigger] final(grid)@.material(x, y, z) == after_edit(
                old(grid)@.material(x, y, z),
                op,
                material,
                cells@.contains((x as usize, y as usize, z as usize)),
            ),
{
    let value = match op {
        EditOp::Add => material,
        EditOp::Cut => VOXEL_AIR,
    };
    let ghost start = grid@;
    let mut i: usize = 0;
    while i < cells.len()
        invariant
            0 <= i <= cells@.len(),
            grid.wf(),
            start.wf(),
            grid@.same_shape(start),
            grid@.light == start.light,
            grid@.occlusion == start.occlusion,
            value == written_material(op, material),
            forall|j: int| 0 <= j < cells@.len() ==> start.in_bounds(
                #[trigger] cells@[j].0 as int,
                cells@[j].1 as int,
                cells@[j].2 as int,
            ),
            forall|x: int, y: int, z: int|
                start.in_bounds(x, y, z) ==> #[trigger] grid@.material(x, y, z) == if cells@.take(i as int).contains(
                    (x as usize, y as usize, z as usize),
                ) {
                    value
                } else {
                    start.material(x, y, z)
                },
        decreases cells@.len() - i,
    {
        let (cx, cy, cz) = cells[i];
        let ghost before = grid@;
        proof {
            assert(start.in_bounds(cells@[i as int].0 as int, cells@[i as int].1 as int, cells@[i as int].2 as int));
        }
        grid.set(cx, cy, cz, value);
        proof {
            let taken = cells@.take(i as int);
            let next = cells@.take(i + 1);
            assert(next =~= taken.push(cells@[i as int]));
            assert forall|x: int, y: int, z: int| start.in_bounds(x, y, z) implies #[trigger] grid@.material(x, y, z)
                == if next.contains((x as usize, y as usize, z as usize)) {
                value
            } else {
                start.material(x, y, z)
            } by {
                let key = (x as usize, y as usize, z as usize);
                lemma_index_in_range(before, x, y, z);
                lemma_index_in_range(before, cx as int, cy as int, cz as int);
                assert(key.0 as int == x && key.1 as int == y && key.2 as int == z);
                if key == (cx, cy, cz) {
                    assert(next[i as int] == key);
                    assert(grid@.material(x, y, z) == value);
                } else {
                    if before.index(x, y, z) == before.index(cx as int, cy as int, cz as int) {
                        lemma_index_injective(before, x, y, z, cx as int, cy as int, cz as int);
                    }
                    assert(grid@.material(x, y, z) == before.material(x, y, z));
                    assert(next.contains(key) == taken.contains(key)) by {
                        if next.contains(key) {
                            let j = choose|j: int| 0 <= j < next.len() && next[j] == key;
                            assert(j != i);
                            assert(taken[j] == key);
                        }
                        if taken.contains(key) {
                            let j = choose|j: int| 0 <= j < taken.len() && taken[j] == key;
                            assert(next[j] == key);
                        }
                    }
                }
            }
        }
        i = i + 1;
    }
    proof {
        assert(cells@.take(cells@.len() as int) =~= cells@);
    }
}

} // verus!
