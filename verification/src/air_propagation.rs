//! Shortest face-connected paths through air, in whole steps from a set of
//! seed cells, up to a step limit.
//!
//! One emission class spreads from all its exposed seeds at once, so equally
//! colored panels form a nearest-emitter envelope instead of multiplying
//! energy. Solids are never propagation nodes: a wall can be lit on its near
//! side without carrying light to the room behind it.

use vstd::prelude::*;
use crate::voxel_grid::{VoxelGrid, GridView, VOXEL_AIR, lemma_index_in_range, lemma_index_injective};
use crate::light_bake::{VoxelCoord, GridDimensions, face_neighbors, face_neighbors_spec};

verus! {

/// The distance of a cell no path reaches within the limit.
pub const UNREACHABLE: u32 = 0xFFFF_FFFF;

pub open spec fn dims_of(g: GridView) -> GridDimensions {
    GridDimensions { width: g.width as usize, height: g.height as usize, depth: g.depth as usize }
}

pub open spec fn in_grid(g: GridView, c: VoxelCoord) -> bool {
    g.in_bounds(c.x as int, c.y as int, c.z as int)
}

/// An air cell light can pass through.
pub open spec fn open_cell(g: GridView, c: VoxelCoord) -> bool {
    in_grid(g, c) && g.material(c.x as int, c.y as int, c.z as int) == VOXEL_AIR
}

pub open spec fn adjacent(g: GridView, a: VoxelCoord, b: VoxelCoord) -> bool {
    in_grid(g, a) && face_neighbors_spec(a, dims_of(g)).contains(b)
}

/// The cells reachable from `seeds` in at most `n` steps through air.
pub open spec fn reach(g: GridView, seeds: Set<VoxelCoord>, n: nat) -> Set<VoxelCoord>
    decreases n,
{
    if n == 0 {
        seeds
    } else {
        let prev = reach(g, seeds, (n - 1) as nat);
        Set::new(
            |c: VoxelCoord|
                prev.contains(c) || (open_cell(g, c) && exists|j: VoxelCoord| #[trigger] prev.contains(j) && adjacent(g, j, c)),
        )
    }
}

/// `c` is reached in exactly `k` steps and no fewer.
pub open spec fn first_reached(g: GridView, seeds: Set<VoxelCoord>, c: VoxelCoord, k: nat) -> bool {
    reach(g, seeds, k).contains(c) && (k == 0 || !reach(g, seeds, (k - 1) as nat).contains(c))
}

pub open spec fn dist_at(dist: Seq<u32>, g: GridView, c: VoxelCoord) -> u32 {
    dist[g.index(c.x as int, c.y as int, c.z as int)]
}

/// Reachability only grows with the step budget.
pub proof fn lemma_reach_monotone(g: GridView, seeds: Set<VoxelCoord>, i: nat, j: nat, c: VoxelCoord)
    requires
        i <= j,
        reach(g, seeds, i).contains(c),
    ensures
        reach(g, seeds, j).contains(c),
    decreases j - i,
{
    if i < j {
        lemma_reach_monotone(g, seeds, i, (j - 1) as nat, c);
        assert(reach(g, seeds, j).contains(c));
    }
}

/// An air cell next to a cell reached in `k` steps is reached in `k + 1`.
pub proof fn lemma_reach_step(g: GridView, seeds: Set<VoxelCoord>, k: nat, j: VoxelCoord, c: VoxelCoord)
    requires
        reach(g, seeds, k).contains(j),
        adjacent(g, j, c),
        open_cell(g, c),
    ensures
        reach(g, seeds, k + 1).contains(c),
{
    let prev = reach(g, seeds, k);
    assert(prev.contains(j) && adjacent(g, j, c));
    assert(reach(g, seeds, k + 1) == Set::new(
        |e: VoxelCoord| prev.contains(e) || (open_cell(g, e) && exists|i: VoxelCoord| #[trigger] prev.contains(i) && adjacent(g, i, e)),
    ));
}

/// A reachable set closed under stepping to open neighbours never grows.
pub proof fn lemma_reach_closed(g: GridView, seeds: Set<VoxelCoord>, k: nat, m: nat)
    requires
        forall|j: VoxelCoord, c: VoxelCoord|
            #[trigger] reach(g, seeds, k).contains(j) && #[trigger] adjacent(g, j, c) && open_cell(g, c) ==> reach(
                g,
                seeds,
                k,
            ).contains(c),
    ensures
        reach(g, seeds, k + m) == reach(g, seeds, k),
    decreases m,
{
    if m > 0 {
        lemma_reach_closed(g, seeds, k, (m - 1) as nat);
        let prev = reach(g, seeds, (k + m - 1) as nat);
        assert(prev == reach(g, seeds, k));
        assert(reach(g, seeds, k + m) =~= reach(g, seeds, k));
    }
}

/// Solids receive light but never carry it: from open seeds, every cell
/// reached within any number of steps is open air.
pub proof fn law_light_travels_only_through_air(g: GridView, seeds: Set<VoxelCoord>, k: nat, c: VoxelCoord)
    requires
        forall|s: VoxelCoord| #[trigger] seeds.contains(s) ==> open_cell(g, s),
        reach(g, seeds, k).contains(c),
    ensures
        open_cell(g, c),
    decreases k,
{
    if k > 0 {
        let prev = reach(g, seeds, (k - 1) as nat);
        if prev.contains(c) {
            law_light_travels_only_through_air(g, seeds, (k - 1) as nat, c);
        }
    }
}

/// Shortest step counts through air from `seeds`, for every cell of the
/// grid in storage order: a cell first reached after `k <= max_steps`
/// steps holds `k`; a cell not reached within `max_steps` holds
/// `UNREACHABLE`. Seeds that repeat count once.
pub fn propagate_air_steps(grid: &VoxelGrid, seeds: &Vec<VoxelCoord>, max_steps: u32) -> (dist: Vec<u32>)
    requires
        grid.wf(),
        max_steps < UNREACHABLE,
        forall|i: int| 0 <= i < seeds@.len() ==> open_cell(grid@, #[trigger] seeds@[i]),
    ensures
        dist@.len() == grid@.volume(),
        forall|c: VoxelCoord|
            in_grid(grid@, c) ==> {
                let v = #[trigger] dist_at(dist@, grid@, c);
                &&& v != UNREACHABLE ==> v <= max_steps && first_reached(grid@, seeds@.to_set(), c, v as nat)
                &&& v == UNREACHABLE ==> !reach(grid@, seeds@.to_set(), max_steps as nat).contains(c)
            },
{
    let ghost g = grid@;
    let ghost seed_set = seeds@.to_set();
    let dims = GridDimensions::of(grid);
    let n = grid.volume();
    let mut dist: Vec<u32> = Vec::new();
    let mut i: usize = 0;
    while i < n
        invariant
            0 <= i <= n,
            dist@.len() == i,
            forall|j: int| 0 <= j < i ==> #[trigger] dist@[j] == UNREACHABLE,
        decreases n - i,
    {
        dist.push(UNREACHABLE);
        i = i + 1;
    }
    proof {
        assert(dims == dims_of(g));
        assert forall|c: VoxelCoord| in_grid(g, c) implies #[trigger] dist_at(dist@, g, c) == UNREACHABLE by {
            lemma_index_in_range(g, c.x as int, c.y as int, c.z as int);
        }
    }
    // Layer 0: the seeds themselves.
    let mut frontier: Vec<VoxelCoord> = Vec::new();
    let mut s: usize = 0;
    while s < seeds.len()
        invariant
            grid.wf(),
            g == grid@,
            dims == dims_of(g),
            n == g.volume(),
            dist@.len() == n,
            seed_set == seeds@.to_set(),
            forall|i: int| 0 <= i < seeds@.len() ==> open_cell(g, #[trigger] seeds@[i]),
            0 <= s <= seeds@.len(),
            forall|c: VoxelCoord|
                in_grid(g, c) ==> {
                    let v = #[trigger] dist_at(dist@, g, c);
                    &&& v != UNREACHABLE ==> v == 0 && seed_set.contains(c)
                    &&& v == UNREACHABLE ==> forall|i: int| 0 <= i < s ==> seeds@[i] != c
                },
            forall|t: int| 0 <= t < frontier@.len() ==> in_grid(g, #[trigger] frontier@[t]) && dist_at(dist@, g, frontier@[t]) == 0,
            forall|c: VoxelCoord| in_grid(g, c) && #[trigger] dist_at(dist@, g, c) == 0 ==> frontier@.contains(c),
        decreases seeds@.len() - s,
    {
        let seed = seeds[s];
        proof {
            assert(open_cell(g, seeds@[s as int]));
            lemma_index_in_range(g, seed.x as int, seed.y as int, seed.z as int);
        }
        let idx = dims.index(seed);
        if dist[idx] == UNREACHABLE {
            let ghost before = dist@;
            let ghost fbefore = frontier@;
            dist.set(idx, 0);
            frontier.push(seed);
            proof {
                assert(seeds@.to_set().contains(seed)) by {
                    assert(seeds@.contains(seed));
                }
                assert forall|c: VoxelCoord| in_grid(g, c) implies {
                    let v = #[trigger] dist_at(dist@, g, c);
                    &&& v != UNREACHABLE ==> v == 0 && seed_set.contains(c)
                    &&& v == UNREACHABLE ==> forall|i: int| 0 <= i < s + 1 ==> seeds@[i] != c
                } by {
                    lemma_index_in_range(g, c.x as int, c.y as int, c.z as int);
                    if c == seed {
                    } else {
                        if g.index(c.x as int, c.y as int, c.z as int) == idx {
                            lemma_index_injective(g, c.x as int, c.y as int, c.z as int, seed.x as int, seed.y as int, seed.z as int);
                        }
                        assert(dist_at(dist@, g, c) == dist_at(before, g, c));
                    }
                }
                assert forall|c: VoxelCoord| in_grid(g, c) && #[trigger] dist_at(dist@, g, c) == 0 implies frontier@.contains(c) by {
                    lemma_index_in_range(g, c.x as int, c.y as int, c.z as int);
                    if c == seed {
                        assert(frontier@[frontier@.len() - 1] == seed);
                    } else {
                        if g.index(c.x as int, c.y as int, c.z as int) == idx {
                            lemma_index_injective(g, c.x as int, c.y as int, c.z as int, seed.x as int, seed.y as int, seed.z as int);
                        }
                        assert(dist_at(dist@, g, c) == dist_at(before, g, c));
                        let t = choose|t: int| 0 <= t < fbefore.len() && fbefore[t] == c;
                        assert(frontier@[t] == c);
                    }
                }
                assert forall|t: int| 0 <= t < frontier@.len() implies in_grid(g, #[trigger] frontier@[t]) && dist_at(dist@, g, frontier@[t]) == 0 by {
                    if t < fbefore.len() {
                        let c = fbefore[t];
                        lemma_index_in_range(g, c.x as int, c.y as int, c.z as int);
                        if g.index(c.x as int, c.y as int, c.z as int) == idx {
                            lemma_index_injective(g, c.x as int, c.y as int, c.z as int, seed.x as int, seed.y as int, seed.z as int);
                        }
                    }
                }
            }
        } else {
            proof {
                assert forall|c: VoxelCoord| in_grid(g, c) implies {
                    let v = #[trigger] dist_at(dist@, g, c);
                    &&& v != UNREACHABLE ==> v == 0 && seed_set.contains(c)
                    &&& v == UNREACHABLE ==> forall|i: int| 0 <= i < s + 1 ==> seeds@[i] != c
                } by {
                    if dist_at(dist@, g, c) == UNREACHABLE && c == seed {
                        assert(dist_at(dist@, g, seed) == dist@[idx as int]);
                    }
                }
            }
        }
        s = s + 1;
    }
    proof {
        assert forall|c: VoxelCoord| in_grid(g, c) implies {
            let v = #[trigger] dist_at(dist@, g, c);
            &&& v != UNREACHABLE ==> v <= 0 && first_reached(g, seed_set, c, v as nat)
            &&& v == UNREACHABLE ==> !reach(g, seed_set, 0).contains(c)
        } by {
            if dist_at(dist@, g, c) == UNREACHABLE && seed_set.contains(c) {
                assert(seeds@.contains(c));
                let i = choose|i: int| 0 <= i < seeds@.len() && seeds@[i] == c;
            }
        }
    }
    let mut k: u32 = 0;
    while k < max_steps && frontier.len() > 0
        invariant
            grid.wf(),
            g == grid@,
            dims == dims_of(g),
            n == g.volume(),
            dist@.len() == n,
            0 <= k <= max_steps,
            max_steps < UNREACHABLE,
            forall|c: VoxelCoord|
                in_grid(g, c) ==> {
                    let v = #[trigger] dist_at(dist@, g, c);
                    &&& v != UNREACHABLE ==> v <= k && first_reached(g, seed_set, c, v as nat)
                    &&& v == UNREACHABLE ==> !reach(g, seed_set, k as nat).contains(c)
                },
            forall|t: int| 0 <= t < frontier@.len() ==> in_grid(g, #[trigger] frontier@[t]) && dist_at(dist@, g, frontier@[t]) == k,
            forall|c: VoxelCoord| in_grid(g, c) && #[trigger] dist_at(dist@, g, c) == k ==> frontier@.contains(c),
        decreases max_steps - k,
    {
        let next_k = k + 1;
        let mut next: Vec<VoxelCoord> = Vec::new();
        let mut t: usize = 0;
        while t < frontier.len()
            invariant
                grid.wf(),
                g == grid@,
                dims == dims_of(g),
                n == g.volume(),
                dist@.len() == n,
                k < max_steps,
                next_k == k + 1,
                max_steps < UNREACHABLE,
                0 <= t <= frontier@.len(),
                layer_inv(g, seed_set, dist@, frontier@, next@, k, t as int),
            decreases frontier@.len() - t,
        {
            relax_from(grid, dims, &mut dist, &mut next, &frontier, t, k, Ghost(seed_set));
            t = t + 1;
        }
        proof {
            assert forall|c: VoxelCoord| in_grid(g, c) implies {
                let v = #[trigger] dist_at(dist@, g, c);
                &&& v != UNREACHABLE ==> v <= next_k && first_reached(g, seed_set, c, v as nat)
                &&& v == UNREACHABLE ==> !reach(g, seed_set, next_k as nat).contains(c)
            } by {
                if dist_at(dist@, g, c) == UNREACHABLE && reach(g, seed_set, next_k as nat).contains(c) {
                    let prev = reach(g, seed_set, k as nat);
                    assert(!prev.contains(c));
                    let j = choose|j: VoxelCoord| #[trigger] prev.contains(j) && adjacent(g, j, c);
                    assert(in_grid(g, j));
                    let m = dist_at(dist@, g, j);
                    assert(m != UNREACHABLE);
                    if m == k {
                        let tt = choose|tt: int| 0 <= tt < frontier@.len() && frontier@[tt] == j;
                        assert(!(open_cell(g, c) && adjacent(g, frontier@[tt], c)));
                    } else if m == next_k {
                        assert(!reach(g, seed_set, k as nat).contains(j));
                    } else {
                        assert(m < k);
                        lemma_reach_step(g, seed_set, m as nat, j, c);
                        lemma_reach_monotone(g, seed_set, (m + 1) as nat, k as nat, c);
                    }
                }
            }
        }
        frontier = next;
        k = next_k;
    }
    proof {
        if k < max_steps {
            assert(frontier@.len() == 0);
            assert forall|j: VoxelCoord, c: VoxelCoord|
                #[trigger] reach(g, seed_set, k as nat).contains(j) && #[trigger] adjacent(g, j, c) && open_cell(g, c) implies reach(
                g,
                seed_set,
                k as nat,
            ).contains(c) by {
                assert(in_grid(g, j));
                let m = dist_at(dist@, g, j);
                assert(m != UNREACHABLE);
                if m == k {
                    assert(frontier@.contains(j));
                } else {
                    lemma_reach_step(g, seed_set, m as nat, j, c);
                    lemma_reach_monotone(g, seed_set, (m + 1) as nat, k as nat, c);
                }
            }
            lemma_reach_closed(g, seed_set, k as nat, (max_steps - k) as nat);
        }
    }
    dist
}

/// The fewest steps at which light reaches an open face neighbour of
/// `coord`, or `UNREACHABLE` when none is lit: what a solid receiver at
/// `coord` sees through its nearest lit face.
pub fn nearest_air_steps(grid: &VoxelGrid, dist: &Vec<u32>, coord: VoxelCoord) -> (steps: u32)
    requires
        grid.wf(),
        in_grid(grid@, coord),
        dist@.len() == grid@.volume(),
    ensures
        forall|c: VoxelCoord|
            #[trigger] face_neighbors_spec(coord, dims_of(grid@)).contains(c) && open_cell(grid@, c) ==> steps
                <= dist_at(dist@, grid@, c),
        steps == UNREACHABLE || exists|c: VoxelCoord|
            #[trigger] face_neighbors_spec(coord, dims_of(grid@)).contains(c) && open_cell(grid@, c) && steps
                == dist_at(dist@, grid@, c),
{
    let dims = GridDimensions::of(grid);
    let neighbors = face_neighbors(coord, dims);
    let mut nearest: u32 = UNREACHABLE;
    let mut u: usize = 0;
    while u < neighbors.len()
        invariant
            grid.wf(),
            dims == dims_of(grid@),
            dist@.len() == grid@.volume(),
            in_grid(grid@, coord),
            neighbors@ == face_neighbors_spec(coord, dims),
            0 <= u <= neighbors@.len(),
            forall|uu: int|
                0 <= uu < u && open_cell(grid@, #[trigger] neighbors@[uu]) ==> nearest <= dist_at(dist@, grid@, neighbors@[uu]),
            nearest == UNREACHABLE || exists|c: VoxelCoord|
                #[trigger] face_neighbors_spec(coord, dims_of(grid@)).contains(c) && open_cell(grid@, c) && nearest
                    == dist_at(dist@, grid@, c),
        decreases neighbors@.len() - u,
    {
        let nb = neighbors[u];
        proof {
            assert(neighbors@.contains(nb));
            lemma_neighbor_in_grid(grid@, coord, nb);
            lemma_index_in_range(grid@, nb.x as int, nb.y as int, nb.z as int);
        }
        if grid.get(nb.x, nb.y, nb.z) == VOXEL_AIR {
            let v = dist[dims.index(nb)];
            if v < nearest {
                nearest = v;
            }
        }
        u = u + 1;
    }
    proof {
        assert forall|c: VoxelCoord|
            #[trigger] face_neighbors_spec(coord, dims_of(grid@)).contains(c) && open_cell(grid@, c) implies nearest
                <= dist_at(dist@, grid@, c) by {
            let uu = choose|uu: int| 0 <= uu < neighbors@.len() && neighbors@[uu] == c;
        }
    }
    nearest
}

/// The layer-building invariant after the first `t` cells of `frontier`
/// have been relaxed.
pub open spec fn layer_inv(
    g: GridView,
    seed_set: Set<VoxelCoord>,
    dist: Seq<u32>,
    frontier: Seq<VoxelCoord>,
    next: Seq<VoxelCoord>,
    k: u32,
    t: int,
) -> bool {
    &&& forall|c: VoxelCoord|
        in_grid(g, c) ==> {
            let v = #[trigger] dist_at(dist, g, c);
            &&& v != UNREACHABLE ==> (v <= k && first_reached(g, seed_set, c, v as nat)) || (v == k + 1
                && first_reached(g, seed_set, c, (k + 1) as nat))
            &&& v == UNREACHABLE ==> !reach(g, seed_set, k as nat).contains(c)
            &&& v == UNREACHABLE ==> forall|tt: int|
                0 <= tt < t ==> !(open_cell(g, c) && adjacent(g, #[trigger] frontier[tt], c))
        }
    &&& forall|tt: int| 0 <= tt < frontier.len() ==> in_grid(g, #[trigger] frontier[tt]) && dist_at(dist, g, frontier[tt]) == k
    &&& forall|c: VoxelCoord| in_grid(g, c) && #[trigger] dist_at(dist, g, c) == k ==> frontier.contains(c)
    &&& forall|e: int| 0 <= e < next.len() ==> in_grid(g, #[trigger] next[e]) && dist_at(dist, g, next[e]) == k + 1
    &&& forall|c: VoxelCoord| in_grid(g, c) && #[trigger] dist_at(dist, g, c) == k + 1 ==> next.contains(c)
}

/// Relaxes the open neighbours of `frontier[t]` into layer `k + 1`.
fn relax_from(
    grid: &VoxelGrid,
    dims: GridDimensions,
    dist: &mut Vec<u32>,
    next: &mut Vec<VoxelCoord>,
    frontier: &Vec<VoxelCoord>,
    t: usize,
    k: u32,
    Ghost(seed_set): Ghost<Set<VoxelCoord>>,
)
    requires
        grid.wf(),
        dims == dims_of(grid@),
        old(dist)@.len() == grid@.volume(),
        k < UNREACHABLE - 1,
        t < frontier@.len(),
        layer_inv(grid@, seed_set, old(dist)@, frontier@, old(next)@, k, t as int),
    ensures
        final(dist)@.len() == grid@.volume(),
        layer_inv(grid@, seed_set, final(dist)@, frontier@, final(next)@, k, t + 1),
{
    let ghost g = grid@;
    let next_k = k + 1;
            let f = frontier[t];
            proof {
                assert(in_grid(g, frontier@[t as int]));
            }
            let neighbors = face_neighbors(f, dims);
            let mut u: usize = 0;
            while u < neighbors.len()
                invariant
                    grid.wf(),
                    g == grid@,
                    dims == dims_of(g),
                    dist@.len() == g.volume(),
                    k < UNREACHABLE - 1,
                    next_k == k + 1,
                    0 <= t < frontier@.len(),
                    f == frontier@[t as int],
                    in_grid(g, f),
                    neighbors@ == face_neighbors_spec(f, dims),
                    0 <= u <= neighbors@.len(),
                    forall|c: VoxelCoord|
                        in_grid(g, c) ==> {
                            let v = #[trigger] dist_at(dist@, g, c);
                            &&& v != UNREACHABLE ==> (v <= k && first_reached(g, seed_set, c, v as nat)) || (v == next_k
                                && first_reached(g, seed_set, c, next_k as nat))
                            &&& v == UNREACHABLE ==> !reach(g, seed_set, k as nat).contains(c)
                            &&& v == UNREACHABLE ==> forall|tt: int|
                                0 <= tt < t ==> !(open_cell(g, c) && adjacent(g, #[trigger] frontier@[tt], c))
                            &&& v == UNREACHABLE ==> forall|uu: int| 0 <= uu < u ==> #[trigger] neighbors@[uu] != c || !open_cell(g, c)
                        },
                    forall|tt: int| 0 <= tt < frontier@.len() ==> in_grid(g, #[trigger] frontier@[tt]) && dist_at(dist@, g, frontier@[tt]) == k,
                    forall|c: VoxelCoord| in_grid(g, c) && #[trigger] dist_at(dist@, g, c) == k ==> frontier@.contains(c),
                    forall|e: int| 0 <= e < next@.len() ==> in_grid(g, #[trigger] next@[e]) && dist_at(dist@, g, next@[e]) == next_k,
                    forall|c: VoxelCoord| in_grid(g, c) && #[trigger] dist_at(dist@, g, c) == next_k ==> next@.contains(c),
                decreases neighbors@.len() - u,
            {
                let nb = neighbors[u];
                proof {
                    assert(neighbors@.contains(nb));
                    assert(adjacent(g, f, nb));
                    lemma_neighbor_in_grid(g, f, nb);
                    lemma_index_in_range(g, nb.x as int, nb.y as int, nb.z as int);
                }
                let nb_idx = dims.index(nb);
                if grid.get(nb.x, nb.y, nb.z) == VOXEL_AIR && dist[nb_idx] == UNREACHABLE {
                    let ghost before = dist@;
                    let ghost nbefore = next@;
                    dist.set(nb_idx, next_k);
                    next.push(nb);
                    proof {
                        assert(dist_at(before, g, nb) == UNREACHABLE);
                        assert(dist_at(before, g, f) == k);
                        assert(first_reached(g, seed_set, f, k as nat));
                        lemma_reach_step(g, seed_set, k as nat, f, nb);
                        lemma_unchanged_elsewhere(g, before, dist@, nb, next_k);
                        assert(first_reached(g, seed_set, nb, next_k as nat));
                        assert forall|e: int| 0 <= e < next@.len() implies in_grid(g, #[trigger] next@[e]) && dist_at(dist@, g, next@[e]) == next_k by {
                            if e < nbefore.len() {
                                assert(next@[e] == nbefore[e]);
                            }
                        }
                        assert forall|c: VoxelCoord| in_grid(g, c) && #[trigger] dist_at(dist@, g, c) == next_k implies next@.contains(c) by {
                            if c != nb {
                                assert(dist_at(dist@, g, c) == dist_at(before, g, c));
                                let e = choose|e: int| 0 <= e < nbefore.len() && nbefore[e] == c;
                                assert(next@[e] == c);
                            } else {
                                assert(next@[next@.len() - 1] == nb);
                            }
                        }
                        assert forall|tt: int| 0 <= tt < frontier@.len() implies in_grid(g, #[trigger] frontier@[tt]) && dist_at(dist@, g, frontier@[tt]) == k by {
                            assert(dist_at(before, g, frontier@[tt]) == k);
                        }
                        assert forall|c: VoxelCoord| in_grid(g, c) && #[trigger] dist_at(dist@, g, c) == k implies frontier@.contains(c) by {
                            assert(dist_at(dist@, g, c) == dist_at(before, g, c));
                        }
                    }
                } else {
                    proof {
                        assert forall|c: VoxelCoord| in_grid(g, c) && #[trigger] dist_at(dist@, g, c) == UNREACHABLE implies forall|uu: int|
                            0 <= uu < u + 1 ==> #[trigger] neighbors@[uu] != c || !open_cell(g, c) by {
                            if c == nb {
                                assert(dist_at(dist@, g, nb) == dist@[nb_idx as int]);
                            }
                        }
                    }
                }
                u = u + 1;
            }
            proof {
                assert forall|c: VoxelCoord| in_grid(g, c) && #[trigger] dist_at(dist@, g, c) == UNREACHABLE implies forall|tt: int|
                    0 <= tt < t + 1 ==> !(open_cell(g, c) && adjacent(g, #[trigger] frontier@[tt], c)) by {
                    assert forall|tt: int| 0 <= tt < t + 1 implies !(open_cell(g, c) && adjacent(g, #[trigger] frontier@[tt], c)) by {
                        if tt == t && open_cell(g, c) && adjacent(g, f, c) {
                            let uu = choose|uu: int| 0 <= uu < neighbors@.len() && neighbors@[uu] == c;
                        }
                    }
                }
            }
}

/// A face neighbour produced for an in-grid cell is in the grid.
proof fn lemma_neighbor_in_grid(g: GridView, f: VoxelCoord, nb: VoxelCoord)
    requires
        in_grid(g, f),
        g.width <= usize::MAX,
        g.height <= usize::MAX,
        g.depth <= usize::MAX,
        face_neighbors_spec(f, dims_of(g)).contains(nb),
    ensures
        in_grid(g, nb),
{
    let s = face_neighbors_spec(f, dims_of(g));
    let i = choose|i: int| 0 <= i < s.len() && s[i] == nb;
}

/// Writing one cell's distance leaves every other cell's distance alone.
proof fn lemma_unchanged_elsewhere(g: GridView, before: Seq<u32>, after: Seq<u32>, at: VoxelCoord, v: u32)
    requires
        in_grid(g, at),
        before.len() == g.volume(),
        after == before.update(g.index(at.x as int, at.y as int, at.z as int), v),
    ensures
        dist_at(after, g, at) == v,
        forall|c: VoxelCoord| in_grid(g, c) && c != at ==> #[trigger] dist_at(after, g, c) == dist_at(before, g, c),
{
    lemma_index_in_range(g, at.x as int, at.y as int, at.z as int);
    assert forall|c: VoxelCoord| in_grid(g, c) && c != at implies #[trigger] dist_at(after, g, c) == dist_at(before, g, c) by {
        lemma_index_in_range(g, c.x as int, c.y as int, c.z as int);
        if g.index(c.x as int, c.y as int, c.z as int) == g.index(at.x as int, at.y as int, at.z as int) {
            lemma_index_injective(g, c.x as int, c.y as int, c.z as int, at.x as int, at.y as int, at.z as int);
        }
    }
}

} // verus!
