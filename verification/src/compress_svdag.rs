//! Sparse voxel DAG compression: bottom-up merging of identical subtrees.
//!
//! The arena stores every internal node's eight children as one contiguous
//! block, so the unit of sharing is that block: two internal nodes whose
//! child blocks are structurally identical point at a single copy. Child
//! blocks are rebuilt bottom-up, so by the time a block is compared its
//! children already refer to shared copies, and equal structure means equal
//! nodes.
//!
//! The result is still a [`SparseVoxelOctree`]: lookups only ever follow
//! `child_base_index`, so they cannot tell a tree from a DAG.

use vstd::prelude::*;
use crate::svo::{
    SvoNode, SparseVoxelOctree, VoxelAttrs, lookup, wf_node, is_prefix, mask_has, octant_of,
    local_coord, lemma_extend_lookup, lemma_wf_intro, lemma_wf_children,
};
use crate::build_octree::arena_bound;
use vstd::arithmetic::power2::pow2;

verus! {

/// Arena sizes before and after deduplication, for telemetry.
#[derive(Debug, Clone, Copy, PartialEq, Eq)]
pub struct SvdagStats {
    pub nodes_before: usize,
    pub nodes_after: usize,
}

/// `node`, read from `out`, means everywhere what `src_node` means in `src`.
pub open spec fn mirrors(out: Seq<SvoNode>, node: SvoNode, src: Seq<SvoNode>, src_node: SvoNode, d: nat) -> bool {
    &&& wf_node(out, node, d)
    &&& forall|x: int, y: int, z: int| #[trigger] lookup(out, node, x, y, z, d) == lookup(src, src_node, x, y, z, d)
}

/// Structural equality of two nodes.
fn same_node(a: &SvoNode, b: &SvoNode) -> (r: bool)
    ensures
        r == (*a == *b),
{
    match (a, b) {
        (
            SvoNode::Leaf { voxel_type: t1, color: c1, light_rgb: l1, face_occlusion: f1 },
            SvoNode::Leaf { voxel_type: t2, color: c2, light_rgb: l2, face_occlusion: f2 },
        ) => {
            let same_light = l1[0] == l2[0] && l1[1] == l2[1] && l1[2] == l2[2];
            proof {
                if same_light {
                    assert(*l1 =~= *l2);
                }
            }
            *t1 == *t2 && *c1 == *c2 && same_light && *f1 == *f2
        },
        (
            SvoNode::Internal { child_base_index: b1, child_mask: m1 },
            SvoNode::Internal { child_base_index: b2, child_mask: m2 },
        ) => *b1 == *b2 && *m1 == *m2,
        _ => false,
    }
}

/// The eight-node blocks numbered `i` and `j` (at bases `8 * i` and `8 * j`)
/// differ somewhere.
pub open spec fn distinct_blocks(nodes: Seq<SvoNode>, i: int, j: int) -> bool {
    exists|m: int| 0 <= m < 8 && #[trigger] nodes[8 * i + m] != nodes[8 * j + m]
}

/// Below the root, which stands last, the arena is whole eight-node blocks,
/// no two of them alike: every repeated child block is stored once.
pub open spec fn blocks_unique(nodes: Seq<SvoNode>) -> bool {
    &&& nodes.len() >= 1
    &&& (nodes.len() - 1) % 8 == 0
    &&& forall|i: int, j: int|
        0 <= i < j < (nodes.len() - 1) / 8 ==> #[trigger] distinct_blocks(nodes, i, j)
}

/// Every internal node of the arena points at the start of an eight-node
/// block: its child base is a multiple of eight.
pub open spec fn bases_aligned(nodes: Seq<SvoNode>) -> bool {
    forall|i: int| 0 <= i < nodes.len() && #[trigger] nodes[i] is Internal ==> nodes[i]->child_base_index % 8 == 0
}

/// The block numbered `i` differs somewhere from `block`.
spec fn block_differs(nodes: Seq<SvoNode>, i: int, block: Seq<SvoNode>) -> bool {
    exists|m: int| 0 <= m < 8 && #[trigger] nodes[8 * i + m] != block[m]
}

/// The block numbered `i` (at base `8 * i`) of `nodes` holds exactly `block`.
pub open spec fn holds_block(nodes: Seq<SvoNode>, i: int, block: Seq<SvoNode>) -> bool {
    forall|k: int| 0 <= k < 8 ==> #[trigger] nodes[8 * i + k] == block[k]
}

/// The first of the blocks numbered below `n` that holds `block`, if any.
pub open spec fn find_block(nodes: Seq<SvoNode>, block: Seq<SvoNode>, n: nat) -> Option<nat>
    decreases n,
{
    if n == 0 {
        None
    } else {
        let earlier = find_block(nodes, block, (n - 1) as nat);
        if earlier is Some {
            earlier
        } else if holds_block(nodes, n - 1, block) {
            Some((n - 1) as nat)
        } else {
            None
        }
    }
}

/// Interning `block` into an arena of whole blocks: the arena afterwards and
/// the base of the block's one copy, appended only when no block holds it.
pub open spec fn interned(nodes: Seq<SvoNode>, block: Seq<SvoNode>) -> (Seq<SvoNode>, int) {
    match find_block(nodes, block, (nodes.len() / 8) as nat) {
        Some(i) => (nodes, 8 * i as int),
        None => (nodes + block, nodes.len() as int),
    }
}

/// Rebuilding `node` of depth `d`, whose children are read from `src`, onto
/// the output arena `arena`: the arena afterwards and the rebuilt node. A
/// leaf stays itself; an internal node has its eight children rebuilt in
/// octant order and points at the interned block of the results.
pub open spec fn canon(src: Seq<SvoNode>, node: SvoNode, d: nat, arena: Seq<SvoNode>) -> (Seq<SvoNode>, SvoNode)
    decreases d, 9nat,
{
    match node {
        SvoNode::Leaf { .. } => (arena, node),
        SvoNode::Internal { child_base_index, child_mask } => {
            if d == 0 {
                (arena, node)
            } else {
                let c = canon_children(src, child_base_index as int, d, arena, 8);
                let r = interned(c.0, c.1);
                (r.0, SvoNode::Internal { child_base_index: r.1 as u32, child_mask })
            }
        },
    }
}

/// Rebuilding the first `k` children, read from `src` at `base`, of a node of
/// depth `d`, one after another onto `arena`: the arena afterwards and the
/// rebuilt children.
pub open spec fn canon_children(src: Seq<SvoNode>, base: int, d: nat, arena: Seq<SvoNode>, k: nat) -> (
    Seq<SvoNode>,
    Seq<SvoNode>,
)
    decreases d, k,
{
    if d == 0 || k == 0 {
        (arena, Seq::empty())
    } else {
        let before = canon_children(src, base, d, arena, (k - 1) as nat);
        let c = canon(src, src[base + k - 1], (d - 1) as nat, before.0);
        (c.0, before.1.push(c.1))
    }
}

/// The arena compression produces from the tree at `root` of depth `d`:
/// the interned blocks, then the rebuilt root last.
pub open spec fn compressed_arena(src: Seq<SvoNode>, root: SvoNode, d: nat) -> Seq<SvoNode> {
    let r = canon(src, root, d, Seq::empty());
    r.0.push(r.1)
}

proof fn lemma_find_block_stable(nodes: Seq<SvoNode>, block: Seq<SvoNode>, m: nat, n: nat)
    requires
        m <= n,
        find_block(nodes, block, m) is Some,
    ensures
        find_block(nodes, block, n) == find_block(nodes, block, m),
    decreases n,
{
    if n > m {
        lemma_find_block_stable(nodes, block, m, (n - 1) as nat);
    }
}

/// The output arena and the bases of the child blocks interned in it.
struct BlockInterner {
    blocks: Vec<u32>,
    nodes: Vec<SvoNode>,
}

impl BlockInterner {
    /// The arena is the interned blocks back to back, each recorded at its
    /// base, and no block is stored twice.
    spec fn wf(&self) -> bool {
        &&& self.nodes@.len() == 8 * self.blocks@.len()
        &&& forall|i: int| 0 <= i < self.blocks@.len() ==> #[trigger] self.blocks@[i] == 8 * i
        &&& forall|i: int, j: int|
            0 <= i < j < self.blocks@.len() ==> #[trigger] distinct_blocks(self.nodes@, i, j)
        &&& bases_aligned(self.nodes@)
    }

    /// The block at `base` holds exactly `block`.
    fn block_at(&self, base: u32, block: &Vec<SvoNode>) -> (r: bool)
        requires
            base + 8 <= self.nodes@.len(),
            block@.len() == 8,
        ensures
            r == (forall|k: int| 0 <= k < 8 ==> #[trigger] self.nodes@[base + k] == block@[k]),
    {
        let _n = self.nodes.len();
        let mut k: usize = 0;
        while k < 8
            invariant
                0 <= k <= 8,
                base + 8 <= self.nodes@.len(),
                self.nodes@.len() <= usize::MAX,
                block@.len() == 8,
                forall|j: int| 0 <= j < k ==> #[trigger] self.nodes@[base + j] == block@[j],
            decreases 8 - k,
        {
            if !same_node(&self.nodes[base as usize + k], &block[k]) {
                return false;
            }
            k = k + 1;
        }
        true
    }

    /// Returns the arena base of this block, appending it only the first time
    /// its structure is seen.
    fn intern(&mut self, block: &Vec<SvoNode>) -> (base: u32)
        requires
            old(self).wf(),
            block@.len() == 8,
            bases_aligned(block@),
            old(self).nodes@.len() + 8 <= u32::MAX,
        ensures
            final(self).wf(),
            base % 8 == 0,
            is_prefix(old(self).nodes@, final(self).nodes@),
            final(self).nodes@.len() <= old(self).nodes@.len() + 8,
            base + 8 <= final(self).nodes@.len(),
            forall|k: int| 0 <= k < 8 ==> #[trigger] final(self).nodes@[base + k] == block@[k],
            (final(self).nodes@, base as int) == interned(old(self).nodes@, block@),
    {
        let mut i: usize = 0;
        while i < self.blocks.len()
            invariant
                self.wf(),
                block@.len() == 8,
                0 <= i <= self.blocks@.len(),
                forall|i2: int| 0 <= i2 < i ==> #[trigger] block_differs(self.nodes@, i2, block@),
                find_block(self.nodes@, block@, i as nat) is None,
            decreases self.blocks@.len() - i,
        {
            let base = self.blocks[i];
            if self.block_at(base, block) {
                proof {
                    assert(self.nodes@.subrange(0, self.nodes@.len() as int) =~= self.nodes@);
                    assert(holds_block(self.nodes@, i as int, block@));
                    assert(find_block(self.nodes@, block@, (i + 1) as nat) == Some(i as nat));
                    assert(self.nodes@.len() / 8 == self.blocks@.len());
                    lemma_find_block_stable(self.nodes@, block@, (i + 1) as nat, self.blocks@.len() as nat);
                }
                return base;
            }
            proof {
                assert(!(forall|k: int| 0 <= k < 8 ==> #[trigger] self.nodes@[base + k] == block@[k]));
                let m = choose|m: int| !(0 <= m < 8 ==> self.nodes@[base + m] == block@[m]);
                assert(self.nodes@[8 * i + m] != block@[m]);
                assert(block_differs(self.nodes@, i as int, block@));
                assert(!holds_block(self.nodes@, i as int, block@));
            }
            i = i + 1;
        }
        let base = self.nodes.len() as u32;
        let ghost before = self.nodes@;
        let ghost nblocks = self.blocks@.len();
        proof {
            assert(before.len() / 8 == nblocks);
        }
        let mut k: usize = 0;
        while k < 8
            invariant
                0 <= k <= 8,
                block@.len() == 8,
                base == before.len(),
                before.len() == 8 * nblocks,
                self.blocks@.len() == nblocks,
                self.nodes@.len() == before.len() + k,
                self.nodes@.subrange(0, before.len() as int) == before,
                forall|j: int| 0 <= j < k ==> #[trigger] self.nodes@[base + j] == block@[j],
                forall|i: int| 0 <= i < self.blocks@.len() ==> #[trigger] self.blocks@[i] == 8 * i,
                bases_aligned(self.nodes@),
                bases_aligned(block@),
            decreases 8 - k,
        {
            let ghost pre = self.nodes@;
            self.nodes.push(block[k]);
            proof {
                assert forall|x: int| 0 <= x < self.nodes@.len() && #[trigger] self.nodes@[x] is Internal implies self.nodes@[x]->child_base_index
                    % 8 == 0 by {
                    if x < pre.len() {
                        assert(self.nodes@[x] == pre[x]);
                    } else {
                        assert(self.nodes@[x] == block@[k as int]);
                    }
                }
            }
            proof {
                assert(self.nodes@.subrange(0, before.len() as int) =~= before);
            }
            k = k + 1;
        }
        self.blocks.push(base);
        proof {
            let nodes = self.nodes@;
            assert forall|x: int| 0 <= x < before.len() implies #[trigger] nodes[x] == before[x] by {
                assert(nodes.subrange(0, before.len() as int)[x] == nodes[x]);
            }
            assert forall|i: int, j: int| 0 <= i < j < self.blocks@.len() implies #[trigger] distinct_blocks(
                nodes,
                i,
                j,
            ) by {
                if j < nblocks {
                    assert(distinct_blocks(before, i, j));
                    let m = choose|m: int| 0 <= m < 8 && #[trigger] before[8 * i + m] != before[8 * j + m];
                    assert(nodes[8 * i + m] == before[8 * i + m]);
                    assert(nodes[8 * j + m] == before[8 * j + m]);
                } else {
                    assert(block_differs(before, i, block@));
                    let m = choose|m: int| 0 <= m < 8 && #[trigger] before[8 * i + m] != block@[m];
                    assert(nodes[8 * i + m] == before[8 * i + m]);
                    assert(nodes[8 * j + m] == block@[m]);
                }
            }
            assert(self.nodes@.subrange(0, before.len() as int) =~= before);
            assert forall|x: int| 0 <= x < nodes.len() implies #[trigger] nodes[x] == (before + block@)[x] by {
                if x >= before.len() {
                    assert(nodes[base + (x - before.len())] == block@[x - before.len()]);
                }
            }
            assert(self.nodes@ =~= before + block@);
        }
        base
    }

    /// Rebuilds the subtree of `source` rooted at `index`, sharing every child
    /// block already interned.
    fn canonicalize(&mut self, source: &SparseVoxelOctree, index: usize, Ghost(d): Ghost<nat>) -> (c: SvoNode)
        requires
            old(self).wf(),
            index < source.nodes@.len(),
            wf_node(source.nodes@, source.nodes@[index as int], d),
            old(self).nodes@.len() + arena_bound(d) <= u32::MAX,
        ensures
            final(self).wf(),
            is_prefix(old(self).nodes@, final(self).nodes@),
            final(self).nodes@.len() <= old(self).nodes@.len() + arena_bound(d),
            mirrors(final(self).nodes@, c, source.nodes@, source.nodes@[index as int], d),
            source.nodes@[index as int] is Leaf ==> c == source.nodes@[index as int],
            c is Internal ==> c->child_base_index % 8 == 0,
            final(self).nodes@ == canon(source.nodes@, source.nodes@[index as int], d, old(self).nodes@).0,
            c == canon(source.nodes@, source.nodes@[index as int], d, old(self).nodes@).1,
        decreases d,
    {
        match source.nodes[index] {
            SvoNode::Leaf { voxel_type, color, light_rgb, face_occlusion } => {
                proof {
                    assert(self.nodes@.subrange(0, self.nodes@.len() as int) =~= self.nodes@);
                }
                SvoNode::Leaf { voxel_type, color, light_rgb, face_occlusion }
            },
            SvoNode::Internal { child_base_index, child_mask } => {
                let ghost src = source.nodes@;
                let ghost dd = (d - 1) as nat;
                let ghost start = self.nodes@;
                proof {
                    lemma_wf_children(src, src[index as int], d);
                    assert(arena_bound(d) == 8 + 8 * arena_bound(dd));
                }
                let _len = source.nodes.len();
                let mut block: Vec<SvoNode> = Vec::new();
                let mut octant: usize = 0;
                proof {
                    assert(self.nodes@.subrange(0, start.len() as int) =~= start);
                }
                while octant < 8
                    invariant
                        0 <= octant <= 8,
                        self.wf(),
                        src == source.nodes@,
                        d > 0,
                        dd == d - 1,
                        child_base_index + 8 <= src.len(),
                        src.len() <= usize::MAX,
                        forall|k: int| 0 <= k < 8 ==> #[trigger] wf_node(src, src[child_base_index + k], dd),
                        arena_bound(d) == 8 + 8 * arena_bound(dd),
                        start.len() + arena_bound(d) <= u32::MAX,
                        is_prefix(start, self.nodes@),
                        self.nodes@.len() <= start.len() + octant * arena_bound(dd),
                        block@.len() == octant,
                        bases_aligned(block@),
                        self.nodes@ == canon_children(src, child_base_index as int, d, start, octant as nat).0,
                        block@ == canon_children(src, child_base_index as int, d, start, octant as nat).1,
                        forall|j: int| 0 <= j < octant ==> #[trigger] mirrors(
                            self.nodes@,
                            block@[j],
                            src,
                            src[child_base_index + j],
                            dd,
                        ),
                    decreases 8 - octant,
                {
                    let ghost prev = self.nodes@;
                    proof {
                        assert(octant * arena_bound(dd) + arena_bound(dd) <= 8 * arena_bound(dd)) by (nonlinear_arith)
                            requires
                                octant < 8,
                        ;
                        assert((octant + 1) * arena_bound(dd) == octant * arena_bound(dd) + arena_bound(dd)) by (nonlinear_arith);
                    }
                    let child = self.canonicalize(source, child_base_index as usize + octant, Ghost(dd));
                    proof {
                        assert forall|j: int| 0 <= j < octant implies #[trigger] mirrors(
                            self.nodes@,
                            block@[j],
                            src,
                            src[child_base_index + j],
                            dd,
                        ) by {
                            assert(mirrors(prev, block@[j], src, src[child_base_index + j], dd));
                            lemma_extend_lookup(prev, self.nodes@, block@[j], dd);
                        }
                        assert(start.len() <= prev.len());
                        assert(self.nodes@.subrange(0, start.len() as int) =~= prev.subrange(0, start.len() as int));
                    }
                    let ghost pre_block = block@;
                    block.push(child);
                    proof {
                        assert forall|x: int| 0 <= x < block@.len() && #[trigger] block@[x] is Internal implies block@[x]->child_base_index
                            % 8 == 0 by {
                            if x < pre_block.len() {
                                assert(block@[x] == pre_block[x]);
                            }
                        }
                    }
                    octant = octant + 1;
                }
                let ghost before_intern = self.nodes@;
                let base = self.intern(&block);
                let node = SvoNode::Internal { child_base_index: base, child_mask };
                proof {
                    let out = self.nodes@;
                    assert forall|k: int| 0 <= k < 8 implies #[trigger] mirrors(
                        out,
                        out[base + k],
                        src,
                        src[child_base_index + k],
                        dd,
                    ) by {
                        assert(mirrors(before_intern, block@[k], src, src[child_base_index + k], dd));
                        lemma_extend_lookup(before_intern, out, block@[k], dd);
                        assert(out[base + k] == block@[k]);
                    }
                    assert forall|k: int| 0 <= k < 8 implies #[trigger] wf_node(out, out[node->child_base_index + k], dd) by {
                        assert(mirrors(out, out[base + k], src, src[child_base_index + k], dd));
                    }
                    lemma_wf_intro(out, node, d);
                    assert forall|x: int, y: int, z: int| #[trigger] lookup(out, node, x, y, z, d) == lookup(
                        src,
                        src[index as int],
                        x,
                        y,
                        z,
                        d,
                    ) by {
                        let half = pow2(dd) as int;
                        let k = octant_of(x, y, z, half);
                        assert(0 <= k < 8);
                        if mask_has(child_mask, k) {
                            assert(mirrors(out, out[base + k], src, src[child_base_index + k], dd));
                            let (lx, ly, lz) = (local_coord(x, half), local_coord(y, half), local_coord(z, half));
                            assert(lookup(out, out[base + k], lx, ly, lz, dd) == lookup(
                                src,
                                src[child_base_index + k],
                                lx,
                                ly,
                                lz,
                                dd,
                            ));
                        }
                    }
                    assert(start.len() <= before_intern.len());
                    assert(out.subrange(0, start.len() as int) =~= before_intern.subrange(0, start.len() as int));
                    assert(8 * arena_bound(dd) + 8 == arena_bound(d));
                }
                node
            },
        }
    }
}

/// Rebuilding only ever appends to the output arena, at most a full tree's
/// worth of nodes.
proof fn lemma_canon_grows(src: Seq<SvoNode>, node: SvoNode, d: nat, arena: Seq<SvoNode>)
    ensures
        is_prefix(arena, canon(src, node, d, arena).0),
        canon(src, node, d, arena).0.len() <= arena.len() + arena_bound(d),
    decreases d, 9nat,
{
    assert(arena.subrange(0, arena.len() as int) =~= arena);
    if let SvoNode::Internal { child_base_index, child_mask } = node {
        if d > 0 {
            let dd = (d - 1) as nat;
            lemma_canon_children_grows(src, child_base_index as int, d, arena, 8);
            let c = canon_children(src, child_base_index as int, d, arena, 8);
            let r = interned(c.0, c.1);
            assert(arena_bound(d) == 8 + 8 * arena_bound(dd));
            assert(r.0.subrange(0, c.0.len() as int) =~= c.0);
            assert(r.0.subrange(0, arena.len() as int) =~= c.0.subrange(0, arena.len() as int));
        }
    }
}

proof fn lemma_canon_children_grows(src: Seq<SvoNode>, base: int, d: nat, arena: Seq<SvoNode>, k: nat)
    requires
        k <= 8,
    ensures
        is_prefix(arena, canon_children(src, base, d, arena, k).0),
        d > 0 ==> canon_children(src, base, d, arena, k).0.len() <= arena.len() + k * arena_bound((d - 1) as nat),
        d > 0 ==> canon_children(src, base, d, arena, k).1.len() == k,
    decreases d, k,
{
    assert(arena.subrange(0, arena.len() as int) =~= arena);
    if d > 0 && k > 0 {
        let dd = (d - 1) as nat;
        lemma_canon_children_grows(src, base, d, arena, (k - 1) as nat);
        let before = canon_children(src, base, d, arena, (k - 1) as nat);
        lemma_canon_grows(src, src[base + k - 1], dd, before.0);
        let c = canon(src, src[base + k - 1], dd, before.0);
        assert(c.0.subrange(0, arena.len() as int) =~= c.0.subrange(0, before.0.len() as int).subrange(
            0,
            arena.len() as int,
        ));
        assert((k - 1) * arena_bound(dd) + arena_bound(dd) == k * arena_bound(dd)) by (nonlinear_arith);
    }
}

/// Rebuilding an already rebuilt node, reading its children from an arena
/// that extends the one the first rebuild produced, starting from the same
/// arena, reproduces the first rebuild exactly.
proof fn lemma_recanon(src: Seq<SvoNode>, out: Seq<SvoNode>, node: SvoNode, d: nat, arena: Seq<SvoNode>)
    requires
        is_prefix(canon(src, node, d, arena).0, out),
        out.len() <= u32::MAX,
    ensures
        canon(out, canon(src, node, d, arena).1, d, arena) == canon(src, node, d, arena),
    decreases d, 9nat,
{
    if let SvoNode::Internal { child_base_index, child_mask } = node {
        if d > 0 {
            let c = canon_children(src, child_base_index as int, d, arena, 8);
            let r = interned(c.0, c.1);
            lemma_canon_children_grows(src, child_base_index as int, d, arena, 8);
            let base = r.1;
            assert(r.0.len() <= out.len());
            assert forall|j: int| 0 <= j < 8 implies #[trigger] out[base + j] == c.1[j] by {
                match find_block(c.0, c.1, (c.0.len() / 8) as nat) {
                    Some(i) => {
                        lemma_find_block_in_range(c.0, c.1, (c.0.len() / 8) as nat);
                        assert(holds_block(c.0, i as int, c.1));
                        assert(c.0[8 * i + j] == c.1[j]);
                        assert(out.subrange(0, r.0.len() as int)[8 * i + j] == out[8 * i + j]);
                    },
                    None => {
                        assert(r.0[c.0.len() + j] == c.1[j]);
                        assert(out.subrange(0, r.0.len() as int)[base + j] == out[base + j]);
                    },
                }
            }
            assert(base + 8 <= r.0.len()) by {
                match find_block(c.0, c.1, (c.0.len() / 8) as nat) {
                    Some(i) => {
                        lemma_find_block_in_range(c.0, c.1, (c.0.len() / 8) as nat);
                    },
                    None => {},
                }
            }
            assert((base as u32) as int == base);
            assert(is_prefix(c.0, out)) by {
                assert(r.0.subrange(0, c.0.len() as int) =~= c.0);
                assert(out.subrange(0, c.0.len() as int) =~= r.0.subrange(0, c.0.len() as int));
            }
            lemma_recanon_children(src, out, child_base_index as int, base, d, arena, 8);
        }
    }
}

proof fn lemma_find_block_in_range(nodes: Seq<SvoNode>, block: Seq<SvoNode>, n: nat)
    requires
        find_block(nodes, block, n) is Some,
    ensures
        find_block(nodes, block, n)->0 < n,
        holds_block(nodes, find_block(nodes, block, n)->0 as int, block),
    decreases n,
{
    if n > 0 && find_block(nodes, block, (n - 1) as nat) is Some {
        lemma_find_block_in_range(nodes, block, (n - 1) as nat);
    }
}

proof fn lemma_recanon_children(
    src: Seq<SvoNode>,
    out: Seq<SvoNode>,
    src_base: int,
    out_base: int,
    d: nat,
    arena: Seq<SvoNode>,
    k: nat,
)
    requires
        k <= 8,
        is_prefix(canon_children(src, src_base, d, arena, k).0, out),
        out.len() <= u32::MAX,
        d > 0 ==> forall|j: int| 0 <= j < k ==> #[trigger] out[out_base + j] == canon_children(src, src_base, d, arena, k).1[j],
    ensures
        canon_children(out, out_base, d, arena, k) == canon_children(src, src_base, d, arena, k),
    decreases d, k,
{
    if d > 0 && k > 0 {
        let dd = (d - 1) as nat;
        let before = canon_children(src, src_base, d, arena, (k - 1) as nat);
        let c = canon(src, src[src_base + k - 1], dd, before.0);
        lemma_canon_grows(src, src[src_base + k - 1], dd, before.0);
        lemma_canon_children_grows(src, src_base, d, arena, (k - 1) as nat);
        assert(is_prefix(before.0, out)) by {
            assert(out.subrange(0, before.0.len() as int) =~= c.0.subrange(0, before.0.len() as int));
        }
        assert forall|j: int| 0 <= j < k - 1 implies #[trigger] out[out_base + j] == before.1[j] by {
            assert(canon_children(src, src_base, d, arena, k).1[j] == before.1[j]);
        }
        lemma_recanon_children(src, out, src_base, out_base, d, arena, (k - 1) as nat);
        assert(out[out_base + k - 1] == c.1);
        lemma_recanon(src, out, src[src_base + k - 1], dd, before.0);
    }
}

/// Compression is idempotent: compressing a compressed octree gives back
/// the same arena, node for node, so the second pass saves nothing more.
pub proof fn law_compression_is_idempotent(src: Seq<SvoNode>, root: SvoNode, d: nat)
    requires
        arena_bound(d) < u32::MAX,
    ensures
        compressed_arena(compressed_arena(src, root, d), compressed_arena(src, root, d).last(), d)
            == compressed_arena(src, root, d),
{
    let r = canon(src, root, d, Seq::empty());
    let a = compressed_arena(src, root, d);
    lemma_canon_grows(src, root, d, Seq::empty());
    assert(is_prefix(r.0, a)) by {
        assert(a.subrange(0, r.0.len() as int) =~= r.0);
    }
    assert(a.last() == r.1);
    lemma_recanon(src, a, root, d, Seq::empty());
}

/// Deduplicates identical subtrees, returning an octree with the same voxel
/// at every point whose arena shares one copy of every repeated child block.
pub fn compress_svdag(source: &SparseVoxelOctree) -> (r: (SparseVoxelOctree, SvdagStats))
    requires
        source.wf(),
        arena_bound(source.depth as nat) < u32::MAX,
    ensures
        r.0.wf(),
        r.0.depth == source.depth,
        r.0.world_size_bits == source.world_size_bits,
        r.0.root == r.0.nodes@.len() - 1,
        r.0.nodes@ == compressed_arena(source.nodes@, source.nodes@[source.root as int], source.depth as nat),
        blocks_unique(r.0.nodes@),
        r.0.nodes@.len() % 8 == 1,
        bases_aligned(r.0.nodes@),
        forall|x: int, y: int, z: int| #[trigger] r.0.voxel(x, y, z) == source.voxel(x, y, z),
        r.1.nodes_before == source.nodes@.len(),
        r.1.nodes_after == r.0.nodes@.len(),
{
    let mut interner = BlockInterner { blocks: Vec::new(), nodes: Vec::new() };
    let root_canon = interner.canonicalize(source, source.root, Ghost(source.depth as nat));
    // Root last, matching the tree builder's arena convention.
    let root = interner.nodes.len();
    let ghost before = interner.nodes@;
    interner.nodes.push(root_canon);
    proof {
        assert(before.len() <= arena_bound(source.depth as nat));
        assert(interner.nodes@.subrange(0, before.len() as int) =~= before);
        lemma_extend_lookup(before, interner.nodes@, root_canon, source.depth as nat);
        let nodes = interner.nodes@;
        assert(nodes =~= compressed_arena(source.nodes@, source.nodes@[source.root as int], source.depth as nat));
        assert forall|i: int| 0 <= i < nodes.len() && #[trigger] nodes[i] is Internal implies nodes[i]->child_base_index
            % 8 == 0 by {
            if i < before.len() {
                assert(nodes[i] == before[i]);
            }
        }
        let nb = interner.blocks@.len();
        assert((nodes.len() - 1) / 8 == nb);
        assert forall|i: int, j: int| 0 <= i < j < (nodes.len() - 1) / 8 implies #[trigger] distinct_blocks(
            nodes,
            i,
            j,
        ) by {
            assert(distinct_blocks(before, i, j));
            let m = choose|m: int| 0 <= m < 8 && #[trigger] before[8 * i + m] != before[8 * j + m];
            assert(nodes[8 * i + m] == before[8 * i + m]);
            assert(nodes[8 * j + m] == before[8 * j + m]);
        }
    }
    let stats = SvdagStats { nodes_before: source.nodes.len(), nodes_after: interner.nodes.len() };
    let dag = SparseVoxelOctree {
        root,
        nodes: interner.nodes,
        depth: source.depth,
        world_size_bits: source.world_size_bits,
    };
    (dag, stats)
}

} // verus!
