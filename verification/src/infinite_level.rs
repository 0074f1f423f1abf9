//! Deterministic access to the finite window of an infinite planned level.
//!
//! Chunk generation is local, but architecture is not: a chunk may sample
//! corridors or anomaly footprints planned by any region that overlaps its
//! voxel halo. A window owns the plans of one rectangle of regions, stored
//! row-major by `(z, x)`, and is otherwise a region-to-plan lookup that never
//! falls back to an unrelated plan.

use vstd::prelude::*;

verus! {

/// What a window holds: its inclusive region rectangle and its plans in
/// row-major order.
pub struct RegionWindowView<P> {
    pub min_region_x: i64,
    pub min_region_z: i64,
    pub max_region_x: i64,
    pub max_region_z: i64,
    pub plans: Seq<P>,
}

impl<P> RegionWindowView<P> {
    pub open spec fn width(self) -> int {
        self.max_region_x - self.min_region_x + 1
    }

    pub open spec fn height(self) -> int {
        self.max_region_z - self.min_region_z + 1
    }

    pub open spec fn contains(self, region_x: int, region_z: int) -> bool {
        self.min_region_x <= region_x <= self.max_region_x && self.min_region_z <= region_z <= self.max_region_z
    }

    /// Storage slot of a region inside the rectangle.
    pub open spec fn slot(self, region_x: int, region_z: int) -> int {
        (region_z - self.min_region_z) * self.width() + (region_x - self.min_region_x)
    }

    /// The region stored at slot `i`.
    pub open spec fn key_at(self, i: int) -> (int, int) {
        (self.min_region_x + i % self.width(), self.min_region_z + i / self.width())
    }

    pub open spec fn wf(self) -> bool {
        &&& self.min_region_x <= self.max_region_x
        &&& self.min_region_z <= self.max_region_z
        &&& self.width() <= usize::MAX
        &&& self.plans.len() == self.width() * self.height()
    }
}

/// The number of regions from `first` to `last` inclusive.
pub fn region_count(first: i64, last: i64) -> (count: usize)
    requires
        first <= last,
        last - first + 1 <= usize::MAX,
    ensures
        count == last - first + 1,
{
    let distance = (last as i128) - (first as i128) + 1;
    distance as usize
}

/// The plans needed to sample one bounded area of an infinite level.
#[derive(Debug)]
pub struct InfiniteRegionWindow<P> {
    min_region_x: i64,
    min_region_z: i64,
    max_region_x: i64,
    max_region_z: i64,
    plans: Vec<P>,
}

impl<P> View for InfiniteRegionWindow<P> {
    type V = RegionWindowView<P>;

    closed spec fn view(&self) -> RegionWindowView<P> {
        RegionWindowView {
            min_region_x: self.min_region_x,
            min_region_z: self.min_region_z,
            max_region_x: self.max_region_x,
            max_region_z: self.max_region_z,
            plans: self.plans@,
        }
    }
}

/// Every region of the rectangle has its own slot, and reading the key back
/// from that slot gives the region.
pub proof fn law_slot_identifies_region<P>(w: RegionWindowView<P>, region_x: int, region_z: int)
    requires
        w.wf(),
        w.contains(region_x, region_z),
    ensures
        0 <= w.slot(region_x, region_z) < w.plans.len(),
        w.key_at(w.slot(region_x, region_z)) == (region_x, region_z),
{
    let width = w.width();
    let lx = region_x - w.min_region_x;
    let lz = region_z - w.min_region_z;
    let s = lz * width + lx;
    assert(0 <= lz * width <= (w.height() - 1) * width) by (nonlinear_arith)
        requires
            0 <= lz < w.height(),
            width > 0,
    ;
    assert((w.height() - 1) * width + width == width * w.height()) by (nonlinear_arith);
    vstd::arithmetic::div_mod::lemma_fundamental_div_mod_converse(s, width, lz, lx);
}

/// A lookup never falls back to an unrelated region: in a window planned
/// region by region, the plan stored in a region's slot is the plan that was
/// made for that very region.
pub proof fn law_lookup_returns_own_plan<P, F: Fn(i64, i64) -> P>(
    w: RegionWindowView<P>,
    plan_for: F,
    region_x: i64,
    region_z: i64,
)
    requires
        w.wf(),
        forall|i: int|
            0 <= i < w.plans.len() ==> plan_for.ensures(
                (w.key_at(i).0 as i64, w.key_at(i).1 as i64),
                #[trigger] w.plans[i],
            ),
        w.contains(region_x as int, region_z as int),
    ensures
        plan_for.ensures((region_x, region_z), w.plans[w.slot(region_x as int, region_z as int)]),
{
    law_slot_identifies_region(w, region_x as int, region_z as int);
    let i = w.slot(region_x as int, region_z as int);
    assert(plan_for.ensures((w.key_at(i).0 as i64, w.key_at(i).1 as i64), w.plans[i]));
}

/// Every storage slot holds a region of the rectangle, and the rectangle's
/// sides are no longer than the storage.
pub proof fn lemma_key_in_rect<P>(w: RegionWindowView<P>, i: int)
    requires
        w.wf(),
        0 <= i < w.plans.len(),
    ensures
        0 <= i % w.width() < w.width(),
        0 <= i / w.width() < w.height(),
        w.contains(w.key_at(i).0, w.key_at(i).1),
        i == (i / w.width()) * w.width() + i % w.width(),
{
    let width = w.width();
    vstd::arithmetic::div_mod::lemma_mod_pos_bound(i, width);
    vstd::arithmetic::div_mod::lemma_div_pos_is_pos(i, width);
    vstd::arithmetic::div_mod::lemma_multiply_divide_lt(i, width, w.height());
    vstd::arithmetic::div_mod::lemma_fundamental_div_mod(i, width);
    assert(width * (i / width) == (i / width) * width) by (nonlinear_arith);
}

/// Both sides of a well-formed rectangle are at least one region and at most
/// as many regions as the storage holds.
pub proof fn lemma_sides_bounded<P>(w: RegionWindowView<P>)
    requires
        w.wf(),
    ensures
        1 <= w.width() <= w.plans.len(),
        1 <= w.height() <= w.plans.len(),
{
    let a = w.width();
    let b = w.height();
    assert(a <= a * b && b <= a * b) by (nonlinear_arith)
        requires
            a >= 1,
            b >= 1,
    ;
}

impl<P> InfiniteRegionWindow<P> {
    /// Plans every region of the inclusive rectangle, row-major by `(z, x)`,
    /// asking `plan_for` once per region.
    pub fn from_region_range<F: Fn(i64, i64) -> P>(
        min_region_x: i64,
        min_region_z: i64,
        max_region_x: i64,
        max_region_z: i64,
        plan_for: F,
    ) -> (window: Self)
        requires
            min_region_x <= max_region_x,
            min_region_z <= max_region_z,
            (max_region_x - min_region_x + 1) * (max_region_z - min_region_z + 1) <= usize::MAX,
            forall|x: i64, z: i64| #[trigger] plan_for.requires((x, z)),
        ensures
            window@.wf(),
            window@.min_region_x == min_region_x,
            window@.min_region_z == min_region_z,
            window@.max_region_x == max_region_x,
            window@.max_region_z == max_region_z,
            forall|i: int|
                0 <= i < window@.plans.len() ==> plan_for.ensures(
                    (window@.key_at(i).0 as i64, window@.key_at(i).1 as i64),
                    #[trigger] window@.plans[i],
                ),
    {
        proof {
            assert(max_region_x - min_region_x + 1 <= usize::MAX) by (nonlinear_arith)
                requires
                    (max_region_x - min_region_x + 1) * (max_region_z - min_region_z + 1) <= usize::MAX,
                    max_region_z - min_region_z + 1 >= 1,
                    max_region_x - min_region_x + 1 >= 1,
            ;
            assert(max_region_z - min_region_z + 1 <= usize::MAX) by (nonlinear_arith)
                requires
                    (max_region_x - min_region_x + 1) * (max_region_z - min_region_z + 1) <= usize::MAX,
                    max_region_z - min_region_z + 1 >= 1,
                    max_region_x - min_region_x + 1 >= 1,
            ;
        }
        let width = region_count(min_region_x, max_region_x);
        let height = region_count(min_region_z, max_region_z);
        let ghost shape = RegionWindowView::<P> {
            min_region_x,
            min_region_z,
            max_region_x,
            max_region_z,
            plans: Seq::empty(),
        };
        let mut plans: Vec<P> = Vec::new();
        let mut lz: usize = 0;
        while lz < height
            invariant
                0 <= lz <= height,
                width == shape.width(),
                height == shape.height(),
                width * height <= usize::MAX,
                width >= 1,
                shape.min_region_x == min_region_x,
                shape.min_region_z == min_region_z,
                shape.max_region_x == max_region_x,
                shape.max_region_z == max_region_z,
                forall|x: i64, z: i64| #[trigger] plan_for.requires((x, z)),
                plans@.len() == lz * width,
                forall|i: int|
                    0 <= i < plans@.len() ==> plan_for.ensures(
                        (shape.key_at(i).0 as i64, shape.key_at(i).1 as i64),
                        #[trigger] plans@[i],
                    ),
            decreases height - lz,
        {
            let mut lx: usize = 0;
            while lx < width
                invariant
                    0 <= lx <= width,
                    0 <= lz < height,
                    width == shape.width(),
                    height == shape.height(),
                    width * height <= usize::MAX,
                    width >= 1,
                    shape.min_region_x == min_region_x,
                    shape.min_region_z == min_region_z,
                    shape.max_region_x == max_region_x,
                    shape.max_region_z == max_region_z,
                    forall|x: i64, z: i64| #[trigger] plan_for.requires((x, z)),
                    plans@.len() == lz * width + lx,
                    forall|i: int|
                        0 <= i < plans@.len() ==> plan_for.ensures(
                            (shape.key_at(i).0 as i64, shape.key_at(i).1 as i64),
                            #[trigger] plans@[i],
                        ),
                decreases width - lx,
            {
                let region_x = (min_region_x as i128 + lx as i128) as i64;
                let region_z = (min_region_z as i128 + lz as i128) as i64;
                let plan = plan_for(region_x, region_z);
                proof {
                    let i = lz * width + lx;
                    vstd::arithmetic::div_mod::lemma_fundamental_div_mod_converse(
                        i as int,
                        width as int,
                        lz as int,
                        lx as int,
                    );
                    assert(shape.key_at(i as int) == (region_x as int, region_z as int));
                    assert((lz + 1) * width <= height * width) by (nonlinear_arith)
                        requires
                            lz < height,
                    ;
                    assert(height * width == width * height) by (nonlinear_arith);
                    assert((lz + 1) * width == lz * width + width) by (nonlinear_arith);
                }
                plans.push(plan);
                lx = lx + 1;
            }
            proof {
                assert((lz + 1) * width == lz * width + width) by (nonlinear_arith);
            }
            lz = lz + 1;
        }
        proof {
            assert(height * width == width * height) by (nonlinear_arith);
        }
        InfiniteRegionWindow { min_region_x, min_region_z, max_region_x, max_region_z, plans }
    }

    /// The plan of one region, or `None` when the region lies outside the
    /// rectangle declared at construction.
    pub fn plan_for_region(&self, region_x: i64, region_z: i64) -> (r: Option<&P>)
        requires
            self@.wf(),
        ensures
            r is None <==> !self@.contains(region_x as int, region_z as int),
            self@.contains(region_x as int, region_z as int) ==> r == Some(
                &self@.plans[self@.slot(region_x as int, region_z as int)],
            ),
    {
        if region_x < self.min_region_x || region_x > self.max_region_x || region_z < self.min_region_z
            || region_z > self.max_region_z {
            return None;
        }
        proof {
            law_slot_identifies_region(self@, region_x as int, region_z as int);
            lemma_sides_bounded(self@);
        }
        let n = self.plans.len();
        let width = region_count(self.min_region_x, self.max_region_x);
        let local_x = (region_x as i128 - self.min_region_x as i128) as usize;
        let local_z = (region_z as i128 - self.min_region_z as i128) as usize;
        proof {
            assert(local_z * width + local_x == self@.slot(region_x as int, region_z as int));
            assert(local_z * width <= local_z * width + local_x);
        }
        let slot = local_z * width + local_x;
        Some(&self.plans[slot])
    }

    pub fn len(&self) -> (n: usize)
        ensures
            n == self@.plans.len(),
    {
        self.plans.len()
    }

    pub fn is_empty(&self) -> (empty: bool)
        ensures
            empty == (self@.plans.len() == 0),
    {
        self.plans.len() == 0
    }

    /// The regions in storage order, row-major by `(z, x)`.
    pub fn region_keys(&self) -> (keys: Vec<(i64, i64)>)
        requires
            self@.wf(),
        ensures
            keys@.len() == self@.plans.len(),
            forall|i: int|
                0 <= i < keys@.len() ==> (#[trigger] keys@[i]).0 == self@.key_at(i).0 && keys@[i].1
                    == self@.key_at(i).1,
    {
        let width = region_count(self.min_region_x, self.max_region_x);
        let mut keys: Vec<(i64, i64)> = Vec::new();
        let mut index: usize = 0;
        while index < self.plans.len()
            invariant
                self@.wf(),
                width == self@.width(),
                0 <= index <= self@.plans.len(),
                keys@.len() == index,
                forall|i: int|
                    0 <= i < keys@.len() ==> (#[trigger] keys@[i]).0 == self@.key_at(i).0 && keys@[i].1
                        == self@.key_at(i).1,
            decreases self@.plans.len() - index,
        {
            let local_z = index / width;
            let local_x = index % width;
            proof {
                lemma_key_in_rect(self@, index as int);
            }
            let region_x = (self.min_region_x as i128 + local_x as i128) as i64;
            let region_z = (self.min_region_z as i128 + local_z as i128) as i64;
            keys.push((region_x, region_z));
            index = index + 1;
        }
        keys
    }
}

} // verus!
