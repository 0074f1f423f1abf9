//! Fold an SVO's lower levels into dense bricks.
//!
//! Traversal descends to a brick, then indexes straight into contiguous
//! memory. The pool is derived from a finished octree; the octree stays the
//! authority for collision, editing and identity, and only the GPU upload
//! path consumes bricks.

use vstd::prelude::*;
use vstd::arithmetic::power2::{pow2, lemma_pow2_unfold, lemma_pow2_pos};
use crate::build_octree::arena_bound;
use crate::svo::{
    SparseVoxelOctree, SvoNode, VoxelAttrs, air, in_cube, leaf_attrs, lemma_mask_empty,
    lemma_octant_bits, lemma_octant_split, lemma_shl_pow2, lemma_wf_children, local_coord, lookup,
    mask_has, octant_of, wf_node,
};

verus! {

/// Voxels along one brick edge.
pub const BRICK_EDGE: u32 = 4;
/// Octree levels a brick replaces (`BRICK_EDGE == 1 << BRICK_DEPTH`).
pub const BRICK_DEPTH: u32 = 2;
/// Voxels held by one brick.
pub const BRICK_VOXELS: usize = 64;
/// `u32`s per voxel in the brick arena.
pub const WORDS_PER_VOXEL: usize = 2;
/// `u32`s occupied by one brick.
pub const WORDS_PER_BRICK: usize = 128;

/// One node of the bricked hierarchy.
#[derive(Debug, Clone, Copy, PartialEq, Eq)]
pub enum BrickNode {
    /// Eight children stored contiguously from `child_base`; bit `i` of
    /// `child_mask` is clear when child `i` is entirely air.
    Internal { child_base: u32, child_mask: u8 },
    /// A dense `BRICK_EDGE^3` block starting at `word_base` in the arena.
    Brick { word_base: u32 },
    /// A subtree that is one repeated voxel.
    Uniform { voxel_type: u8, color: u32, light_rgb: [u8; 3], face_occlusion: u8 },
}

/// Word 0: `color` in bits 0..24, `voxel_type` in bits 24..32.
pub open spec fn pack_word0(voxel_type: u8, color: u32) -> u32 {
    (color & 0x00FF_FFFFu32) | ((voxel_type as u32) << 24u32)
}

/// Word 1: `face_occlusion` in bits 0..8, then r/g/b light nibbles at bits
/// 8, 12 and 16.
pub open spec fn pack_word1(light_rgb: [u8; 3], face_occlusion: u8) -> u32 {
    (face_occlusion as u32) | (((light_rgb[0] as u32) & 0xFu32) << 8u32) | (((light_rgb[1] as u32)
        & 0xFu32) << 12u32) | (((light_rgb[2] as u32) & 0xFu32) << 16u32)
}

pub open spec fn unpack_spec(word0: u32, word1: u32) -> (u8, u32, [u8; 3], u8) {
    (
        (word0 >> 24u32) as u8,
        word0 & 0x00FF_FFFFu32,
        [((word1 >> 8u32) & 0xFu32) as u8, ((word1 >> 12u32) & 0xFu32) as u8, ((word1 >> 16u32) & 0xFu32) as u8],
        (word1 & 0xFFu32) as u8,
    )
}

/// A voxel whose fields fit the packed layout: a 24-bit color and light
/// channels in 0..=15.
pub open spec fn packable(color: u32, light_rgb: [u8; 3]) -> bool {
    color <= 0x00FF_FFFF && light_rgb[0] <= 15 && light_rgb[1] <= 15 && light_rgb[2] <= 15
}

pub fn pack_voxel(voxel_type: u8, color: u32, light_rgb: [u8; 3], face_occlusion: u8) -> (words: (u32, u32))
    ensures
        words == (pack_word0(voxel_type, color), pack_word1(light_rgb, face_occlusion)),
{
    let word0 = (color & 0x00FF_FFFFu32) | ((voxel_type as u32) << 24u32);
    let word1 = (face_occlusion as u32) | (((light_rgb[0] as u32) & 0xFu32) << 8u32) | (((light_rgb[1]
        as u32) & 0xFu32) << 12u32) | (((light_rgb[2] as u32) & 0xFu32) << 16u32);
    (word0, word1)
}

pub fn unpack_voxel(word0: u32, word1: u32) -> (voxel: (u8, u32, [u8; 3], u8))
    ensures
        voxel == unpack_spec(word0, word1),
{
    let voxel_type = (word0 >> 24u32) as u8;
    let color = word0 & 0x00FF_FFFFu32;
    let light_rgb = [
        ((word1 >> 8u32) & 0xFu32) as u8,
        ((word1 >> 12u32) & 0xFu32) as u8,
        ((word1 >> 16u32) & 0xFu32) as u8,
    ];
    (voxel_type, color, light_rgb, (word1 & 0xFFu32) as u8)
}

/// Packing then unpacking returns every field of a packable voxel.
pub proof fn law_packing_round_trip(voxel_type: u8, color: u32, light_rgb: [u8; 3], face_occlusion: u8)
    requires
        packable(color, light_rgb),
    ensures
        unpack_spec(pack_word0(voxel_type, color), pack_word1(light_rgb, face_occlusion)) == (
            voxel_type,
            color,
            light_rgb,
            face_occlusion,
        ),
{
    let (r, g, b) = (light_rgb[0], light_rgb[1], light_rgb[2]);
    assert((((color & 0x00FF_FFFFu32) | ((voxel_type as u32) << 24u32)) >> 24u32) as u8 == voxel_type)
        by (bit_vector);
    assert(((color & 0x00FF_FFFFu32) | ((voxel_type as u32) << 24u32)) & 0x00FF_FFFFu32 == color) by (bit_vector)
        requires
            color <= 0x00FF_FFFF,
    ;
    let w1 = (face_occlusion as u32) | (((r as u32) & 0xFu32) << 8u32) | (((g as u32) & 0xFu32) << 12u32)
        | (((b as u32) & 0xFu32) << 16u32);
    assert(((w1 >> 8u32) & 0xFu32) as u8 == r && ((w1 >> 12u32) & 0xFu32) as u8 == g && ((w1 >> 16u32)
        & 0xFu32) as u8 == b && (w1 & 0xFFu32) as u8 == face_occlusion) by (bit_vector)
        requires
            r <= 15,
            g <= 15,
            b <= 15,
            w1 == (face_occlusion as u32) | (((r as u32) & 0xFu32) << 8u32) | (((g as u32) & 0xFu32)
                << 12u32) | (((b as u32) & 0xFu32) << 16u32),
    ;
    let out = unpack_spec(pack_word0(voxel_type, color), pack_word1(light_rgb, face_occlusion));
    assert(out.2 =~= light_rgb);
}

/// Octant of `(x, y, z)` at bit `bit`: bit 0 from x, bit 1 from y, bit 2
/// from z.
pub open spec fn octant_index_spec(x: u32, y: u32, z: u32, bit: u32) -> u32 {
    (((z >> bit) & 1u32) << 2u32) | (((y >> bit) & 1u32) << 1u32) | ((x >> bit) & 1u32)
}

pub fn octant_index(x: u32, y: u32, z: u32, bit: u32) -> (octant: u32)
    requires
        bit < 32,
    ensures
        octant == octant_index_spec(x, y, z, bit),
        octant < 8,
{
    let o = (((z >> bit) & 1u32) << 2u32) | (((y >> bit) & 1u32) << 1u32) | ((x >> bit) & 1u32);
    assert(o < 8) by (bit_vector)
        requires
            o == (((z >> bit) & 1u32) << 2u32) | (((y >> bit) & 1u32) << 1u32) | ((x >> bit) & 1u32),
    ;
    o
}

pub open spec fn brick_offset_spec(x: u32, y: u32, z: u32) -> int {
    (z % 4) * 16 + (y % 4) * 4 + (x % 4)
}

/// Brick-local linear offset; x varies fastest so a ray stepping along x
/// walks contiguous words.
pub fn brick_offset(x: u32, y: u32, z: u32) -> (offset: usize)
    ensures
        offset == brick_offset_spec(x, y, z),
        offset < 64,
{
    let edge = BRICK_EDGE;
    ((z % edge) * edge * edge + (y % edge) * edge + (x % edge)) as usize
}

// ---------------------------------------------------------------------------
// The pool

/// A bricked view of an octree, ready for GPU upload.
#[derive(Debug, Clone)]
pub struct BrickPool {
    pub root: u32,
    pub nodes: Vec<BrickNode>,
    /// Packed voxel payloads, `WORDS_PER_BRICK` per brick.
    pub voxels: Vec<u32>,
    pub depth: u32,
    /// IEEE-754 bit pattern of the cube's edge in world units; carried
    /// through unchanged.
    pub world_size_bits: u32,
}

/// Slot of a brick-local coordinate inside its brick.
pub open spec fn brick_slot(x: int, y: int, z: int) -> int {
    (z % 4) * 16 + (y % 4) * 4 + (x % 4)
}

/// The voxel a pool node describes at cube-local `(x, y, z)` of a cube of
/// edge `2^d`.
pub open spec fn pool_lookup(
    nodes: Seq<BrickNode>,
    voxels: Seq<u32>,
    node: BrickNode,
    x: int,
    y: int,
    z: int,
    d: nat,
) -> VoxelAttrs
    decreases d,
{
    match node {
        BrickNode::Uniform { voxel_type, color, light_rgb, face_occlusion } => (
            voxel_type,
            color,
            light_rgb,
            face_occlusion,
        ),
        BrickNode::Brick { word_base } => {
            let base = word_base + brick_slot(x, y, z) * 2;
            if 0 <= base && base + 1 < voxels.len() {
                unpack_spec(voxels[base], voxels[base + 1])
            } else {
                air()
            }
        },
        BrickNode::Internal { child_base, child_mask } => {
            if d == 0 {
                air()
            } else {
                let half = pow2((d - 1) as nat) as int;
                let k = octant_of(x, y, z, half);
                let i = child_base + k;
                if !mask_has(child_mask, k) {
                    air()
                } else if i < nodes.len() {
                    pool_lookup(
                        nodes,
                        voxels,
                        nodes[i],
                        local_coord(x, half),
                        local_coord(y, half),
                        local_coord(z, half),
                        (d - 1) as nat,
                    )
                } else {
                    air()
                }
            }
        },
    }
}

/// Every node a pool node reaches within `d` levels lies in `[lo, hi)` of
/// the node arena, and every brick it reaches lies below `vhi` in the word
/// arena.
pub open spec fn pool_refs(nodes: Seq<BrickNode>, node: BrickNode, d: nat, lo: int, hi: int, vhi: int) -> bool
    decreases d,
{
    match node {
        BrickNode::Uniform { .. } => true,
        BrickNode::Brick { word_base } => word_base + 128 <= vhi,
        BrickNode::Internal { child_base, child_mask } => {
            &&& d > 0
            &&& lo <= child_base
            &&& child_base + 8 <= hi
            &&& hi <= nodes.len()
            &&& (mask_has(child_mask, 0) ==> pool_refs(nodes, nodes[child_base + 0], (d - 1) as nat, lo, hi, vhi))
            &&& (mask_has(child_mask, 1) ==> pool_refs(nodes, nodes[child_base + 1], (d - 1) as nat, lo, hi, vhi))
            &&& (mask_has(child_mask, 2) ==> pool_refs(nodes, nodes[child_base + 2], (d - 1) as nat, lo, hi, vhi))
            &&& (mask_has(child_mask, 3) ==> pool_refs(nodes, nodes[child_base + 3], (d - 1) as nat, lo, hi, vhi))
            &&& (mask_has(child_mask, 4) ==> pool_refs(nodes, nodes[child_base + 4], (d - 1) as nat, lo, hi, vhi))
            &&& (mask_has(child_mask, 5) ==> pool_refs(nodes, nodes[child_base + 5], (d - 1) as nat, lo, hi, vhi))
            &&& (mask_has(child_mask, 6) ==> pool_refs(nodes, nodes[child_base + 6], (d - 1) as nat, lo, hi, vhi))
            &&& (mask_has(child_mask, 7) ==> pool_refs(nodes, nodes[child_base + 7], (d - 1) as nat, lo, hi, vhi))
        },
    }
}

proof fn lemma_pool_children(nodes: Seq<BrickNode>, node: BrickNode, d: nat, lo: int, hi: int, vhi: int)
    requires
        pool_refs(nodes, node, d, lo, hi, vhi),
        node is Internal,
    ensures
        d > 0,
        lo <= node->child_base,
        node->child_base + 8 <= hi,
        hi <= nodes.len(),
        forall|k: int|
            0 <= k < 8 && mask_has(node->child_mask, k) ==> #[trigger] pool_refs(
                nodes,
                nodes[node->child_base + k],
                (d - 1) as nat,
                lo,
                hi,
                vhi,
            ),
{
    assert forall|k: int| 0 <= k < 8 && mask_has(node->child_mask, k) implies #[trigger] pool_refs(
        nodes,
        nodes[node->child_base + k],
        (d - 1) as nat,
        lo,
        hi,
        vhi,
    ) by {
        assert(k == 0 || k == 1 || k == 2 || k == 3 || k == 4 || k == 5 || k == 6 || k == 7);
    }
}

proof fn lemma_pool_intro(nodes: Seq<BrickNode>, node: BrickNode, d: nat, lo: int, hi: int, vhi: int)
    requires
        node is Internal,
        d > 0,
        lo <= node->child_base,
        node->child_base + 8 <= hi,
        hi <= nodes.len(),
        forall|k: int|
            0 <= k < 8 && mask_has(node->child_mask, k) ==> #[trigger] pool_refs(
                nodes,
                nodes[node->child_base + k],
                (d - 1) as nat,
                lo,
                hi,
                vhi,
            ),
    ensures
        pool_refs(nodes, node, d, lo, hi, vhi),
{
    let b = node->child_base;
    let m = node->child_mask;
    let dd = (d - 1) as nat;
    assert(mask_has(m, 0) ==> pool_refs(nodes, nodes[b + 0], dd, lo, hi, vhi));
    assert(mask_has(m, 1) ==> pool_refs(nodes, nodes[b + 1], dd, lo, hi, vhi));
    assert(mask_has(m, 2) ==> pool_refs(nodes, nodes[b + 2], dd, lo, hi, vhi));
    assert(mask_has(m, 3) ==> pool_refs(nodes, nodes[b + 3], dd, lo, hi, vhi));
    assert(mask_has(m, 4) ==> pool_refs(nodes, nodes[b + 4], dd, lo, hi, vhi));
    assert(mask_has(m, 5) ==> pool_refs(nodes, nodes[b + 5], dd, lo, hi, vhi));
    assert(mask_has(m, 6) ==> pool_refs(nodes, nodes[b + 6], dd, lo, hi, vhi));
    assert(mask_has(m, 7) ==> pool_refs(nodes, nodes[b + 7], dd, lo, hi, vhi));
}

/// A pool node's meaning depends only on its footprint: arenas that agree
/// there give the same voxels, and footprints may always be widened.
proof fn lemma_pool_stable(
    n1: Seq<BrickNode>,
    v1: Seq<u32>,
    n2: Seq<BrickNode>,
    v2: Seq<u32>,
    node: BrickNode,
    d: nat,
    lo: int,
    hi: int,
    vhi: int,
    lo2: int,
    hi2: int,
    vhi2: int,
)
    requires
        pool_refs(n1, node, d, lo, hi, vhi),
        vhi <= v1.len(),
        lo2 <= lo,
        hi <= hi2,
        hi2 <= n2.len(),
        vhi <= vhi2,
        vhi2 <= v2.len(),
        forall|i: int| lo <= i < hi ==> n1[i] == n2[i],
        forall|j: int| 0 <= j < vhi ==> v1[j] == v2[j],
    ensures
        pool_refs(n2, node, d, lo2, hi2, vhi2),
        forall|x: int, y: int, z: int| #[trigger] pool_lookup(n2, v2, node, x, y, z, d) == pool_lookup(n1, v1, node, x, y, z, d),
    decreases d,
{
    match node {
        BrickNode::Uniform { .. } => {},
        BrickNode::Brick { word_base } => {
            assert forall|x: int, y: int, z: int| #[trigger] pool_lookup(n2, v2, node, x, y, z, d) == pool_lookup(n1, v1, node, x, y, z, d) by {
                let base = word_base + brick_slot(x, y, z) * 2;
                assert(0 <= brick_slot(x, y, z) < 64);
                assert(0 <= base && base + 1 < v1.len());
                assert(base + 1 < v2.len());
                assert(v1[base] == v2[base]);
                assert(v1[base + 1] == v2[base + 1]);
            }
        },
        BrickNode::Internal { child_base, child_mask } => {
            let dd = (d - 1) as nat;
            lemma_pool_children(n1, node, d, lo, hi, vhi);
            assert forall|k: int| 0 <= k < 8 && mask_has(child_mask, k) implies #[trigger] pool_refs(
                n2,
                n2[child_base + k],
                dd,
                lo2,
                hi2,
                vhi2,
            ) by {
                assert(n2[child_base + k] == n1[child_base + k]);
                lemma_pool_stable(n1, v1, n2, v2, n1[child_base + k], dd, lo, hi, vhi, lo2, hi2, vhi2);
            }
            lemma_pool_intro(n2, node, d, lo2, hi2, vhi2);
            assert forall|x: int, y: int, z: int| #[trigger] pool_lookup(n2, v2, node, x, y, z, d) == pool_lookup(n1, v1, node, x, y, z, d) by {
                if d > 0 {
                    let half = pow2(dd) as int;
                    let k = octant_of(x, y, z, half);
                    assert(0 <= k < 8);
                    if mask_has(child_mask, k) {
                        assert(n2[child_base + k] == n1[child_base + k]);
                        lemma_pool_stable(n1, v1, n2, v2, n1[child_base + k], dd, lo, hi, vhi, lo2, hi2, vhi2);
                        let (lx, ly, lz) = (local_coord(x, half), local_coord(y, half), local_coord(z, half));
                        assert(pool_lookup(n2, v2, n2[child_base + k], lx, ly, lz, dd) == pool_lookup(
                            n1,
                            v1,
                            n1[child_base + k],
                            lx,
                            ly,
                            lz,
                            dd,
                        ));
                    }
                }
            }
        },
    }
}

/// Every voxel an octree node presents is packable when every arena node
/// is.
proof fn lemma_lookup_packable(arena: Seq<SvoNode>, node: SvoNode, x: int, y: int, z: int, d: nat)
    requires
        forall|i: int| 0 <= i < arena.len() ==> #[trigger] node_packable(arena[i]),
        node_packable(node),
    ensures
        packable(lookup(arena, node, x, y, z, d).1, lookup(arena, node, x, y, z, d).2),
    decreases d,
{
    match node {
        SvoNode::Leaf { .. } => {},
        SvoNode::Internal { child_base_index, child_mask } => {
            if d > 0 {
                let half = pow2((d - 1) as nat) as int;
                let k = octant_of(x, y, z, half);
                let i = child_base_index + k;
                if mask_has(child_mask, k) && i < arena.len() {
                    lemma_lookup_packable(
                        arena,
                        arena[i],
                        local_coord(x, half),
                        local_coord(y, half),
                        local_coord(z, half),
                        (d - 1) as nat,
                    );
                }
            }
        },
    }
}

pub open spec fn node_packable(node: SvoNode) -> bool {
    match node {
        SvoNode::Leaf { color, light_rgb, .. } => packable(color, light_rgb),
        SvoNode::Internal { .. } => true,
    }
}

/// A voxel as it reads back from its packed two-word form: the color cut to
/// 24 bits and each light channel to 4.
pub open spec fn repack(v: VoxelAttrs) -> VoxelAttrs {
    unpack_spec(pack_word0(v.0, v.1), pack_word1(v.2, v.3))
}

/// The voxel the pool built from the subtree at `node` (of depth `d`)
/// presents at `(x, y, z)`: a subtree of one repeated voxel keeps that voxel
/// as it is, a subtree at brick depth gives its voxels through the packed
/// layout, and a deeper one descends into its children.
pub open spec fn pooled_voxel(arena: Seq<SvoNode>, node: SvoNode, x: int, y: int, z: int, d: nat) -> VoxelAttrs
    decreases d,
{
    if collapses(node) {
        lookup(arena, node, x, y, z, d)
    } else if d <= 2 {
        repack(lookup(arena, node, x, y, z, d))
    } else {
        let half = pow2((d - 1) as nat) as int;
        let k = octant_of(x, y, z, half);
        let i = node->child_base_index + k;
        if !mask_has(node->child_mask, k) {
            air()
        } else if i < arena.len() {
            pooled_voxel(
                arena,
                arena[i],
                local_coord(x, half),
                local_coord(y, half),
                local_coord(z, half),
                (d - 1) as nat,
            )
        } else {
            air()
        }
    }
}

/// Where every node's color fits 24 bits and every light channel 4 bits,
/// the pool presents exactly the octree's voxels.
pub proof fn lemma_pooled_packable(arena: Seq<SvoNode>, node: SvoNode, x: int, y: int, z: int, d: nat)
    requires
        forall|i: int| 0 <= i < arena.len() ==> #[trigger] node_packable(arena[i]),
        node_packable(node),
    ensures
        pooled_voxel(arena, node, x, y, z, d) == lookup(arena, node, x, y, z, d),
    decreases d,
{
    if collapses(node) {
    } else if d <= 2 {
        let v = lookup(arena, node, x, y, z, d);
        lemma_lookup_packable(arena, node, x, y, z, d);
        law_packing_round_trip(v.0, v.1, v.2, v.3);
    } else {
        let half = pow2((d - 1) as nat) as int;
        let k = octant_of(x, y, z, half);
        let i = node->child_base_index + k;
        if mask_has(node->child_mask, k) && i < arena.len() {
            lemma_pooled_packable(
                arena,
                arena[i],
                local_coord(x, half),
                local_coord(y, half),
                local_coord(z, half),
                (d - 1) as nat,
            );
        }
    }
}

/// The most brick words a subtree of depth `d` can append.
pub open spec fn word_bound(d: nat) -> nat
    decreases d,
{
    if d <= 2 {
        128
    } else {
        8 * word_bound((d - 1) as nat)
    }
}

pub open spec fn empty_node() -> BrickNode {
    BrickNode::Uniform { voxel_type: 0, color: 0, light_rgb: [0u8, 0u8, 0u8], face_occlusion: 0 }
}

impl BrickPool {
    /// The root reaches only nodes and bricks inside the arenas.
    pub open spec fn wf(&self) -> bool {
        &&& self.root < self.nodes@.len()
        &&& self.depth < 32
        &&& pool_refs(
            self.nodes@,
            self.nodes@[self.root as int],
            self.depth as nat,
            0,
            self.nodes@.len() as int,
            self.voxels@.len() as int,
        )
    }

    /// The voxel the pool presents at `(x, y, z)`.
    pub open spec fn voxel(&self, x: int, y: int, z: int) -> VoxelAttrs {
        pool_lookup(self.nodes@, self.voxels@, self.nodes@[self.root as int], x, y, z, self.depth as nat)
    }

    /// Bricks held in the word arena.
    pub fn brick_count(&self) -> (n: usize)
        ensures
            n == self.voxels@.len() / 128,
    {
        self.voxels.len() / WORDS_PER_BRICK
    }

    /// Bytes the GPU upload would occupy, for comparison against the
    /// four-words-per-node encoding this replaces.
    pub fn gpu_bytes(&self) -> (n: usize)
        requires
            self.nodes@.len() * 16 + self.voxels@.len() * 4 <= usize::MAX,
        ensures
            n == self.nodes@.len() * 16 + self.voxels@.len() * 4,
    {
        self.nodes.len() * 4 * 4 + self.voxels.len() * 4
    }

    /// Reads back a voxel, so the pool can be proven equivalent to the
    /// octree it came from.
    pub fn get(&self, x: u32, y: u32, z: u32) -> (r: Option<VoxelAttrs>)
        requires
            self.wf(),
        ensures
            r is None <==> !in_cube(x as int, y as int, z as int, self.depth as nat),
            in_cube(x as int, y as int, z as int, self.depth as nat) ==> r == Some(
                self.voxel(x as int, y as int, z as int),
            ),
    {
        proof {
            lemma_shl_pow2(self.depth);
        }
        let extent = 1u32 << self.depth;
        if x >= extent || y >= extent || z >= extent {
            return None;
        }
        Some(self.get_from(self.root as usize, x, y, z, self.depth))
    }

    fn get_from(&self, node: usize, x: u32, y: u32, z: u32, depth: u32) -> (r: VoxelAttrs)
        requires
            node < self.nodes@.len(),
            depth < 32,
            in_cube(x as int, y as int, z as int, depth as nat),
            pool_refs(
                self.nodes@,
                self.nodes@[node as int],
                depth as nat,
                0,
                self.nodes@.len() as int,
                self.voxels@.len() as int,
            ),
        ensures
            r == pool_lookup(self.nodes@, self.voxels@, self.nodes@[node as int], x as int, y as int, z as int, depth as nat),
        decreases depth,
    {
        let _nodes_len = self.nodes.len();
        let _voxels_len = self.voxels.len();
        match self.nodes[node] {
            BrickNode::Uniform { voxel_type, color, light_rgb, face_occlusion } => (
                voxel_type,
                color,
                light_rgb,
                face_occlusion,
            ),
            BrickNode::Brick { word_base } => {
                let index = brick_offset(x, y, z);
                let base = word_base as usize + index * WORDS_PER_VOXEL;
                unpack_voxel(self.voxels[base], self.voxels[base + 1])
            },
            BrickNode::Internal { child_base, child_mask } => {
                proof {
                    lemma_pool_children(
                        self.nodes@,
                        self.nodes@[node as int],
                        depth as nat,
                        0,
                        self.nodes@.len() as int,
                        self.voxels@.len() as int,
                    );
                    lemma_octant_bits(x, y, z, (depth - 1) as u32);
                    lemma_shl_pow2((depth - 1) as u32);
                    lemma_octant_split(x as int, y as int, z as int, depth as nat);
                }
                let bit = depth - 1;
                let octant = octant_index(x, y, z, bit);
                if child_mask & (1u8 << (octant as u8)) == 0 {
                    return (0u8, 0u32, [0u8, 0u8, 0u8], 0u8);
                }
                let mask = (1u32 << bit) - 1;
                self.get_from(child_base as usize + octant as usize, x & mask, y & mask, z & mask, depth - 1)
            },
        }
    }
}

/// Builds a brick pool from a finished octree. Every voxel of the pool is
/// the octree's voxel at the same coordinates, read through the packed
/// layout where it lies in a brick (and so exactly the octree's voxel when
/// colors fit 24 bits and light channels 4); the pool holds the root and
/// what the root's subtree emits, one brick per brick-depth subtree that is
/// not one repeated voxel.
pub fn build_brick_pool(octree: &SparseVoxelOctree) -> (pool: BrickPool)
    requires
        octree.wf(),
        arena_bound(octree.depth as nat) < u32::MAX,
        word_bound(octree.depth as nat) <= u32::MAX,
    ensures
        pool.wf(),
        pool.depth == octree.depth,
        pool.world_size_bits == octree.world_size_bits,
        forall|x: int, y: int, z: int|
            in_cube(x, y, z, octree.depth as nat) ==> #[trigger] pool.voxel(x, y, z) == pooled_voxel(
                octree.nodes@,
                octree.nodes@[octree.root as int],
                x,
                y,
                z,
                octree.depth as nat,
            ),
        (forall|i: int| 0 <= i < octree.nodes@.len() ==> #[trigger] node_packable(octree.nodes@[i]))
            ==> forall|x: int, y: int, z: int|
            in_cube(x, y, z, octree.depth as nat) ==> #[trigger] pool.voxel(x, y, z) == octree.voxel(x, y, z),
        pool.nodes@.len() == 1 + emitted(octree.nodes@, octree.nodes@[octree.root as int], octree.depth as nat).0,
        pool.voxels@.len() == 128 * emitted(octree.nodes@, octree.nodes@[octree.root as int], octree.depth as nat).1,
{
    let mut pool = BrickPool {
        root: 0,
        nodes: Vec::new(),
        voxels: Vec::new(),
        depth: octree.depth,
        world_size_bits: octree.world_size_bits,
    };
    // The root occupies slot 0 so `child_base` runs are contiguous.
    push_node(&mut pool, empty_node_exec());
    emit_into(&mut pool, octree, octree.root, octree.depth, 0);
    proof {
        lemma_pool_stable(
            pool.nodes@,
            pool.voxels@,
            pool.nodes@,
            pool.voxels@,
            pool.nodes@[0],
            pool.depth as nat,
            1,
            pool.nodes@.len() as int,
            pool.voxels@.len() as int,
            0,
            pool.nodes@.len() as int,
            pool.voxels@.len() as int,
        );
    }
    pool.root = 0;
    proof {
        if forall|i: int| 0 <= i < octree.nodes@.len() ==> #[trigger] node_packable(octree.nodes@[i]) {
            assert forall|x: int, y: int, z: int| in_cube(x, y, z, octree.depth as nat) implies #[trigger] pool.voxel(
                x,
                y,
                z,
            ) == octree.voxel(x, y, z) by {
                lemma_pooled_packable(
                    octree.nodes@,
                    octree.nodes@[octree.root as int],
                    x,
                    y,
                    z,
                    octree.depth as nat,
                );
            }
        }
    }
    pool
}

/// The subtree at `node` is one repeated voxel: a leaf, or an internal
/// node with no children (all air).
pub open spec fn collapses(node: SvoNode) -> bool {
    node is Leaf || node->child_mask == 0
}

/// Pool nodes and bricks the subtree at `node`, of depth `d`, adds below its
/// own slot: nothing for a subtree of one voxel, one brick at brick depth,
/// and otherwise eight reserved child slots and what its children add.
pub open spec fn emitted(nodes: Seq<SvoNode>, node: SvoNode, d: nat) -> (nat, nat)
    decreases d, 9nat,
{
    if collapses(node) {
        (0, 0)
    } else if d <= 2 {
        (0, 1)
    } else {
        let c = emitted_children(nodes, node->child_base_index as int, node->child_mask, d, 8);
        (8 + c.0, c.1)
    }
}

/// What the first `k` octants of an internal node of depth `d`, whose
/// children start at `base` and are present per `mask`, add to the pool.
pub open spec fn emitted_children(nodes: Seq<SvoNode>, base: int, mask: u8, d: nat, k: nat) -> (nat, nat)
    decreases d, k,
{
    if d == 0 || k == 0 {
        (0, 0)
    } else {
        let before = emitted_children(nodes, base, mask, d, (k - 1) as nat);
        if mask_has(mask, k - 1) {
            let c = emitted(nodes, nodes[base + k - 1], (d - 1) as nat);
            (before.0 + c.0, before.1 + c.1)
        } else {
            before
        }
    }
}

/// Writes the subtree rooted at octree `node` into the already-reserved
/// pool `slot`. Children are reserved as one contiguous run before they are
/// filled, so `child_base + octant` stays a direct offset.
fn emit_into(pool: &mut BrickPool, octree: &SparseVoxelOctree, node: usize, depth: u32, slot: usize)
    requires
        node < octree.nodes@.len(),
        depth < 32,
        wf_node(octree.nodes@, octree.nodes@[node as int], depth as nat),
        slot < old(pool).nodes@.len(),
        old(pool).nodes@.len() + arena_bound(depth as nat) < u32::MAX,
        old(pool).voxels@.len() + word_bound(depth as nat) <= u32::MAX,
    ensures
        final(pool).depth == old(pool).depth,
        final(pool).root == old(pool).root,
        final(pool).world_size_bits == old(pool).world_size_bits,
        old(pool).nodes@.len() <= final(pool).nodes@.len() <= old(pool).nodes@.len() + arena_bound(depth as nat),
        forall|i: int|
            0 <= i < old(pool).nodes@.len() && i != slot ==> #[trigger] final(pool).nodes@[i]
                == old(pool).nodes@[i],
        old(pool).voxels@.len() <= final(pool).voxels@.len() <= old(pool).voxels@.len() + word_bound(depth as nat),
        forall|j: int| 0 <= j < old(pool).voxels@.len() ==> #[trigger] final(pool).voxels@[j] == old(pool).voxels@[j],
        final(pool).nodes@.len() == old(pool).nodes@.len() + emitted(octree.nodes@, octree.nodes@[node as int], depth as nat).0,
        final(pool).voxels@.len() == old(pool).voxels@.len() + 128 * emitted(
            octree.nodes@,
            octree.nodes@[node as int],
            depth as nat,
        ).1,
        pool_refs(
            final(pool).nodes@,
            final(pool).nodes@[slot as int],
            depth as nat,
            old(pool).nodes@.len() as int,
            final(pool).nodes@.len() as int,
            final(pool).voxels@.len() as int,
        ),
        forall|x: int, y: int, z: int|
            in_cube(x, y, z, depth as nat) ==> #[trigger] pool_lookup(
                final(pool).nodes@,
                final(pool).voxels@,
                final(pool).nodes@[slot as int],
                x,
                y,
                z,
                depth as nat,
            ) == pooled_voxel(octree.nodes@, octree.nodes@[node as int], x, y, z, depth as nat),
    decreases depth,
{
    if let Some((voxel_type, color, light_rgb, face_occlusion)) = uniform_value(octree, node) {
        pool.nodes.set(slot, BrickNode::Uniform { voxel_type, color, light_rgb, face_occlusion });
        return ;
    }
    if depth <= BRICK_DEPTH {
        let brick = emit_brick(&mut pool.voxels, octree, node, depth);
        pool.nodes.set(slot, brick);
        proof {
            assert forall|x: int, y: int, z: int| in_cube(x, y, z, depth as nat) implies #[trigger] pool_lookup(
                pool.nodes@,
                pool.voxels@,
                pool.nodes@[slot as int],
                x,
                y,
                z,
                depth as nat,
            ) == pooled_voxel(octree.nodes@, octree.nodes@[node as int], x, y, z, depth as nat) by {
                assert(pool_lookup(Seq::empty(), pool.voxels@, brick, x, y, z, depth as nat) == repack(lookup(
                    octree.nodes@,
                    octree.nodes@[node as int],
                    x,
                    y,
                    z,
                    depth as nat,
                )));
            }
        }
        return ;
    }
    let ghost d = depth as nat;
    let ghost dd = (d - 1) as nat;
    let ghost start_nodes = pool.nodes@;
    let ghost start_voxels = pool.voxels@;
    match octree.nodes[node] {
        SvoNode::Leaf { .. } => {
            proof {
                assert(false);
            }
        },
        SvoNode::Internal { child_base_index, child_mask } => {
            proof {
                lemma_wf_children(octree.nodes@, octree.nodes@[node as int], d);
                assert(arena_bound(d) == 8 + 8 * arena_bound(dd));
                assert(word_bound(d) == 8 * word_bound(dd));
            }
            let _octree_len = octree.nodes.len();
            let child_base = pool.nodes.len() as u32;
            let ghost base = child_base as int;
            // Eight slots are reserved even for absent children so the octant
            // index stays a direct offset; absent ones remain air.
            let mut r: usize = 0;
            while r < 8
                invariant
                    0 <= r <= 8,
                    pool.nodes@.len() == base + r,
                    pool.nodes@.subrange(0, base) == start_nodes,
                    base == start_nodes.len(),
                    forall|j: int| 0 <= j < r ==> #[trigger] pool.nodes@[base + j] == empty_node(),
                    pool.voxels@ == start_voxels,
                    pool.depth == old(pool).depth,
                    pool.root == old(pool).root,
                    pool.world_size_bits == old(pool).world_size_bits,
                    start_nodes == old(pool).nodes@,
                    start_nodes.len() + arena_bound(d) < u32::MAX,
                    arena_bound(d) >= 8,
                decreases 8 - r,
            {
                pool.nodes.push(empty_node_exec());
                proof {
                    assert(pool.nodes@.subrange(0, base) =~= start_nodes);
                }
                r = r + 1;
            }
            pool.nodes.set(slot, BrickNode::Internal { child_base, child_mask });
            let ghost parent = BrickNode::Internal { child_base, child_mask };
            let mut octant: u32 = 0;
            while octant < 8
                invariant
                    0 <= octant <= 8,
                    depth < 32,
                    octree.nodes@.len() <= usize::MAX,
                    d == depth,
                    d > 2,
                    dd == d - 1,
                    node < octree.nodes@.len(),
                    octree.nodes@[node as int] == (SvoNode::Internal { child_base_index, child_mask }),
                    child_base_index + 8 <= octree.nodes@.len(),
                    forall|k: int| 0 <= k < 8 ==> #[trigger] wf_node(octree.nodes@, octree.nodes@[child_base_index + k], dd),
                    base == start_nodes.len(),
                    child_base == base,
                    slot < base,
                    start_nodes == old(pool).nodes@,
                    start_voxels == old(pool).voxels@,
                    base + arena_bound(d) < u32::MAX,
                    start_voxels.len() + word_bound(d) <= u32::MAX,
                    arena_bound(d) == 8 + 8 * arena_bound(dd),
                    word_bound(d) == 8 * word_bound(dd),
                    pool.depth == old(pool).depth,
                    pool.root == old(pool).root,
                    pool.world_size_bits == old(pool).world_size_bits,
                    base + 8 <= pool.nodes@.len() <= base + 8 + octant * arena_bound(dd),
                    start_voxels.len() <= pool.voxels@.len() <= start_voxels.len() + octant * word_bound(dd),
                    pool.nodes@.len() == base + 8 + emitted_children(
                        octree.nodes@,
                        child_base_index as int,
                        child_mask,
                        d,
                        octant as nat,
                    ).0,
                    pool.voxels@.len() == start_voxels.len() + 128 * emitted_children(
                        octree.nodes@,
                        child_base_index as int,
                        child_mask,
                        d,
                        octant as nat,
                    ).1,
                    forall|j: int| 0 <= j < start_voxels.len() ==> #[trigger] pool.voxels@[j] == start_voxels[j],
                    pool.nodes@[slot as int] == parent,
                    parent == (BrickNode::Internal { child_base, child_mask }),
                    forall|i: int| 0 <= i < base && i != slot ==> #[trigger] pool.nodes@[i] == start_nodes[i],
                    forall|j: int| octant <= j < 8 ==> #[trigger] pool.nodes@[base + j] == empty_node(),
                    forall|j: int|
                        0 <= j < octant && mask_has(child_mask, j) ==> #[trigger] pool_refs(
                            pool.nodes@,
                            pool.nodes@[base + j],
                            dd,
                            base + 8,
                            pool.nodes@.len() as int,
                            pool.voxels@.len() as int,
                        ),
                    forall|j: int, x: int, y: int, z: int|
                        0 <= j < octant && mask_has(child_mask, j) && in_cube(x, y, z, dd) ==> #[trigger] pool_lookup(
                            pool.nodes@,
                            pool.voxels@,
                            pool.nodes@[base + j],
                            x,
                            y,
                            z,
                            dd,
                        ) == pooled_voxel(octree.nodes@, octree.nodes@[child_base_index + j], x, y, z, dd),
                decreases 8 - octant,
            {
                proof {
                    assert(octant * arena_bound(dd) <= (octant + 1) * arena_bound(dd)) by (nonlinear_arith);
                    assert(octant * word_bound(dd) <= (octant + 1) * word_bound(dd)) by (nonlinear_arith);
                }
                if child_mask & (1u8 << (octant as u8)) != 0 {
                    let ghost prev_nodes = pool.nodes@;
                    let ghost prev_voxels = pool.voxels@;
                    proof {
                        assert(octant * arena_bound(dd) + arena_bound(dd) <= 8 * arena_bound(dd)) by (nonlinear_arith)
                            requires
                                octant < 8,
                        ;
                        assert(octant * word_bound(dd) + word_bound(dd) <= 8 * word_bound(dd)) by (nonlinear_arith)
                            requires
                                octant < 8,
                        ;
                    }
                    emit_into(
                        pool,
                        octree,
                        child_base_index as usize + octant as usize,
                        depth - 1,
                        child_base as usize + octant as usize,
                    );
                    proof {
                        assert((octant + 1) * arena_bound(dd) == octant * arena_bound(dd) + arena_bound(dd)) by (nonlinear_arith);
                        assert((octant + 1) * word_bound(dd) == octant * word_bound(dd) + word_bound(dd)) by (nonlinear_arith);
                        let k = octant as int;
                        assert forall|j: int| 0 <= j < octant && mask_has(child_mask, j) implies #[trigger] pool_refs(
                            pool.nodes@,
                            pool.nodes@[base + j],
                            dd,
                            base + 8,
                            pool.nodes@.len() as int,
                            pool.voxels@.len() as int,
                        ) by {
                            assert(pool.nodes@[base + j] == prev_nodes[base + j]);
                            lemma_pool_stable(
                                prev_nodes,
                                prev_voxels,
                                pool.nodes@,
                                pool.voxels@,
                                prev_nodes[base + j],
                                dd,
                                base + 8,
                                prev_nodes.len() as int,
                                prev_voxels.len() as int,
                                base + 8,
                                pool.nodes@.len() as int,
                                pool.voxels@.len() as int,
                            );
                        }
                        assert forall|j: int, x: int, y: int, z: int|
                            0 <= j < octant + 1 && mask_has(child_mask, j) && in_cube(x, y, z, dd) implies #[trigger] pool_lookup(
                            pool.nodes@,
                            pool.voxels@,
                            pool.nodes@[base + j],
                            x,
                            y,
                            z,
                            dd,
                        ) == pooled_voxel(octree.nodes@, octree.nodes@[child_base_index + j], x, y, z, dd) by {
                            if j < k {
                                assert(pool.nodes@[base + j] == prev_nodes[base + j]);
                                assert(pool_refs(
                                    prev_nodes,
                                    prev_nodes[base + j],
                                    dd,
                                    base + 8,
                                    prev_nodes.len() as int,
                                    prev_voxels.len() as int,
                                ));
                                assert(pool_lookup(prev_nodes, prev_voxels, prev_nodes[base + j], x, y, z, dd)
                                    == pooled_voxel(octree.nodes@, octree.nodes@[child_base_index + j], x, y, z, dd));
                                lemma_pool_stable(
                                    prev_nodes,
                                    prev_voxels,
                                    pool.nodes@,
                                    pool.voxels@,
                                    prev_nodes[base + j],
                                    dd,
                                    base + 8,
                                    prev_nodes.len() as int,
                                    prev_voxels.len() as int,
                                    base + 8,
                                    pool.nodes@.len() as int,
                                    pool.voxels@.len() as int,
                                );
                            } else {
                                assert(in_cube(x, y, z, (depth - 1) as nat));
                            }
                        }
                        lemma_pool_stable(
                            pool.nodes@,
                            pool.voxels@,
                            pool.nodes@,
                            pool.voxels@,
                            pool.nodes@[base + k],
                            dd,
                            prev_nodes.len() as int,
                            pool.nodes@.len() as int,
                            pool.voxels@.len() as int,
                            base + 8,
                            pool.nodes@.len() as int,
                            pool.voxels@.len() as int,
                        );
                    }
                } else {
                    proof {
                        assert(!mask_has(child_mask, octant as int));
                    }
                }
                octant = octant + 1;
            }
            proof {
                let fin_nodes = pool.nodes@;
                let fin_voxels = pool.voxels@;
                assert forall|k: int| 0 <= k < 8 && mask_has(child_mask, k) implies #[trigger] pool_refs(
                    fin_nodes,
                    fin_nodes[parent->child_base + k],
                    dd,
                    base,
                    fin_nodes.len() as int,
                    fin_voxels.len() as int,
                ) by {
                    lemma_pool_stable(
                        fin_nodes,
                        fin_voxels,
                        fin_nodes,
                        fin_voxels,
                        fin_nodes[base + k],
                        dd,
                        base + 8,
                        fin_nodes.len() as int,
                        fin_voxels.len() as int,
                        base,
                        fin_nodes.len() as int,
                        fin_voxels.len() as int,
                    );
                }
                lemma_pool_intro(fin_nodes, parent, d, base, fin_nodes.len() as int, fin_voxels.len() as int);
                assert forall|x: int, y: int, z: int| in_cube(x, y, z, d) implies #[trigger] pool_lookup(
                    fin_nodes,
                    fin_voxels,
                    parent,
                    x,
                    y,
                    z,
                    d,
                ) == pooled_voxel(octree.nodes@, octree.nodes@[node as int], x, y, z, d) by {
                    lemma_octant_split(x, y, z, d);
                    let half = pow2(dd) as int;
                    let k = octant_of(x, y, z, half);
                    let (lx, ly, lz) = (local_coord(x, half), local_coord(y, half), local_coord(z, half));
                    if mask_has(child_mask, k) {
                        assert(pool_lookup(fin_nodes, fin_voxels, fin_nodes[base + k], lx, ly, lz, dd) == pooled_voxel(
                            octree.nodes@,
                            octree.nodes@[child_base_index + k],
                            lx,
                            ly,
                            lz,
                            dd,
                        ));
                    }
                }
            }
        },
    }
}

/// The brick at `wb` holds the packed voxel of subtree `sub` at `(x, y, z)`.
pub open spec fn brick_filled(
    src: Seq<SvoNode>,
    sub: SvoNode,
    d: nat,
    wb: int,
    vox: Seq<u32>,
    x: int,
    y: int,
    z: int,
) -> bool {
    let v = lookup(src, sub, x, y, z, d);
    let s = wb + brick_slot(x, y, z) * 2;
    vox[s] == pack_word0(v.0, v.1) && vox[s + 1] == pack_word1(v.2, v.3)
}

/// Builds one dense brick from a subtree no deeper than a brick.
fn emit_brick(voxels: &mut Vec<u32>, octree: &SparseVoxelOctree, node: usize, depth: u32) -> (brick: BrickNode)
    requires
        node < octree.nodes@.len(),
        depth <= 2,
        wf_node(octree.nodes@, octree.nodes@[node as int], depth as nat),
        old(voxels)@.len() + 128 <= u32::MAX,
    ensures
        brick == (BrickNode::Brick { word_base: old(voxels)@.len() as u32 }),
        final(voxels)@.len() == old(voxels)@.len() + 128,
        forall|j: int| 0 <= j < old(voxels)@.len() ==> #[trigger] final(voxels)@[j] == old(voxels)@[j],
        forall|x: int, y: int, z: int|
            in_cube(x, y, z, depth as nat) ==> #[trigger] pool_lookup(
                Seq::empty(),
                final(voxels)@,
                brick,
                x,
                y,
                z,
                depth as nat,
            ) == repack(lookup(octree.nodes@, octree.nodes@[node as int], x, y, z, depth as nat)),
{
    let word_base = voxels.len() as u32;
    let ghost wb = word_base as int;
    let ghost old_voxels = voxels@;
    let mut i: usize = 0;
    while i < WORDS_PER_BRICK
        invariant
            0 <= i <= 128,
            voxels@.len() == wb + i,
            wb == old_voxels.len(),
            forall|j: int| 0 <= j < wb ==> #[trigger] voxels@[j] == old_voxels[j],
        decreases 128 - i,
    {
        voxels.push(0u32);
        i = i + 1;
    }
    proof {
        lemma_shl_pow2(depth);
        vstd::arithmetic::power2::lemma2_to64();
        assert(pow2(depth as nat) <= 4) by {
            if depth < 2 {
                vstd::arithmetic::power2::lemma_pow2_strictly_increases(depth as nat, 2);
            }
        }
    }
    let extent = 1u32 << depth;
    let lim = if extent < BRICK_EDGE {
        extent
    } else {
        BRICK_EDGE
    };
    let ghost brick = BrickNode::Brick { word_base };
    let ghost src = octree.nodes@;
    let ghost sub = octree.nodes@[node as int];
    let mut z: u32 = 0;
    while z < lim
        invariant
            lim as nat == pow2(depth as nat),
            lim <= 4,
            depth <= 2,
            node < octree.nodes@.len(),
            wf_node(octree.nodes@, octree.nodes@[node as int], depth as nat),
            voxels@.len() == wb + 128,
            wb == old_voxels.len(),
            wb == word_base,
            wb + 128 <= u32::MAX,
            forall|j: int| 0 <= j < wb ==> #[trigger] voxels@[j] == old_voxels[j],
            src == octree.nodes@,
            sub == octree.nodes@[node as int],
            0 <= z <= lim,
            forall|a: int, b: int, c: int|
                0 <= a < lim && 0 <= b < lim && 0 <= c < z ==> #[trigger] brick_filled(src, sub, depth as nat, wb, voxels@, a, b, c),
        decreases lim - z,
    {
        let mut y: u32 = 0;
        while y < lim
            invariant
                lim as nat == pow2(depth as nat),
                lim <= 4,
                depth <= 2,
                node < octree.nodes@.len(),
                wf_node(octree.nodes@, octree.nodes@[node as int], depth as nat),
                voxels@.len() == wb + 128,
                wb == old_voxels.len(),
                wb == word_base,
                wb + 128 <= u32::MAX,
                forall|j: int| 0 <= j < wb ==> #[trigger] voxels@[j] == old_voxels[j],
                src == octree.nodes@,
                sub == octree.nodes@[node as int],
                0 <= z < lim,
                0 <= y <= lim,
                forall|a: int, b: int, c: int|
                    0 <= a < lim && 0 <= b < lim && 0 <= c < z ==> #[trigger] brick_filled(src, sub, depth as nat, wb, voxels@, a, b, c),
                forall|a: int, b: int| 0 <= a < lim && 0 <= b < y ==> #[trigger] brick_filled(src, sub, depth as nat, wb, voxels@, a, b, z as int),
            decreases lim - y,
        {
            let mut x: u32 = 0;
            while x < lim
                invariant
                    lim as nat == pow2(depth as nat),
                    lim <= 4,
                    depth <= 2,
                    node < octree.nodes@.len(),
                    wf_node(octree.nodes@, octree.nodes@[node as int], depth as nat),
                    voxels@.len() == wb + 128,
                    wb == old_voxels.len(),
                    wb == word_base,
                    wb + 128 <= u32::MAX,
                    forall|j: int| 0 <= j < wb ==> #[trigger] voxels@[j] == old_voxels[j],
                    src == octree.nodes@,
                    sub == octree.nodes@[node as int],
                    0 <= z < lim,
                    0 <= y < lim,
                    0 <= x <= lim,
                    forall|a: int, b: int, c: int|
                        0 <= a < lim && 0 <= b < lim && 0 <= c < z ==> #[trigger] brick_filled(src, sub, depth as nat, wb, voxels@, a, b, c),
                    forall|a: int, b: int| 0 <= a < lim && 0 <= b < y ==> #[trigger] brick_filled(src, sub, depth as nat, wb, voxels@, a, b, z as int),
                    forall|a: int| 0 <= a < x ==> #[trigger] brick_filled(src, sub, depth as nat, wb, voxels@, a, y as int, z as int),
                decreases lim - x,
            {
                let voxel = sample(octree, node, x, y, z, depth);
                let (w0, w1) = pack_voxel(voxel.0, voxel.1, voxel.2, voxel.3);
                let slot = word_base as usize + brick_offset(x, y, z) * WORDS_PER_VOXEL;
                let ghost before = voxels@;
                voxels.set(slot, w0);
                voxels.set(slot + 1, w1);
                proof {
                    let s = wb + brick_slot(x as int, y as int, z as int) * 2;
                    assert(slot == s);
                    assert(voxels@[s] == w0);
                    assert(voxels@[s + 1] == w1);
                    assert(voxel == lookup(src, sub, x as int, y as int, z as int, depth as nat));
                    assert(brick_filled(src, sub, depth as nat, wb, voxels@, x as int, y as int, z as int));
                    assert forall|a: int, b: int, c: int|
                        0 <= a < lim && 0 <= b < lim && 0 <= c < lim && brick_filled(src, sub, depth as nat, wb, before, a, b, c) && (a, b, c) != (x as int, y as int, z as int)
                        implies #[trigger] brick_filled(src, sub, depth as nat, wb, voxels@, a, b, c) by {
                        assert(brick_slot(a, b, c) != brick_slot(x as int, y as int, z as int));
                    }
                }
                x = x + 1;
            }
            y = y + 1;
        }
        z = z + 1;
    }
    proof {
        assert forall|x: int, y: int, z: int| in_cube(x, y, z, depth as nat) implies #[trigger] pool_lookup(
            Seq::empty(),
            voxels@,
            brick,
            x,
            y,
            z,
            depth as nat,
        ) == repack(lookup(octree.nodes@, octree.nodes@[node as int], x, y, z, depth as nat)) by {
            assert(brick_filled(src, sub, depth as nat, wb, voxels@, x, y, z));
        }
    }
    BrickNode::Brick { word_base }
}

fn empty_node_exec() -> (n: BrickNode)
    ensures
        n == empty_node(),
{
    BrickNode::Uniform { voxel_type: 0, color: 0, light_rgb: [0u8, 0u8, 0u8], face_occlusion: 0 }
}

fn push_node(pool: &mut BrickPool, node: BrickNode) -> (index: u32)
    requires
        old(pool).nodes@.len() < u32::MAX,
    ensures
        final(pool).nodes@ == old(pool).nodes@.push(node),
        final(pool).voxels@ == old(pool).voxels@,
        final(pool).depth == old(pool).depth,
        final(pool).world_size_bits == old(pool).world_size_bits,
        index == old(pool).nodes@.len(),
{
    pool.nodes.push(node);
    (pool.nodes.len() - 1) as u32
}

/// Reads a voxel out of an octree subtree in that subtree's local frame.
pub fn sample(octree: &SparseVoxelOctree, node: usize, x: u32, y: u32, z: u32, depth: u32) -> (r: VoxelAttrs)
    requires
        node < octree.nodes@.len(),
        depth < 32,
        in_cube(x as int, y as int, z as int, depth as nat),
        wf_node(octree.nodes@, octree.nodes@[node as int], depth as nat),
    ensures
        r == lookup(octree.nodes@, octree.nodes@[node as int], x as int, y as int, z as int, depth as nat),
    decreases depth,
{
    match octree.nodes[node] {
        SvoNode::Leaf { voxel_type, color, light_rgb, face_occlusion } => (
            voxel_type,
            color,
            light_rgb,
            face_occlusion,
        ),
        SvoNode::Internal { child_base_index, child_mask } => {
            if depth == 0 {
                return (0u8, 0u32, [0u8, 0u8, 0u8], 0u8);
            }
            let _len = octree.nodes.len();
            proof {
                lemma_wf_children(octree.nodes@, octree.nodes@[node as int], depth as nat);
                lemma_octant_bits(x, y, z, (depth - 1) as u32);
                lemma_shl_pow2((depth - 1) as u32);
                lemma_octant_split(x as int, y as int, z as int, depth as nat);
            }
            let bit = depth - 1;
            let octant = octant_index(x, y, z, bit);
            if child_mask & (1u8 << (octant as u8)) == 0 {
                return (0u8, 0u32, [0u8, 0u8, 0u8], 0u8);
            }
            let mask = (1u32 << bit) - 1;
            sample(octree, child_base_index as usize + octant as usize, x & mask, y & mask, z & mask, depth - 1)
        },
    }
}

/// `Some` when the subtree is a single repeated voxel.
pub fn uniform_value(octree: &SparseVoxelOctree, node: usize) -> (r: Option<VoxelAttrs>)
    requires
        node < octree.nodes@.len(),
    ensures
        r matches Some(a) ==> forall|x: int, y: int, z: int, d: nat| #[trigger] lookup(
            octree.nodes@,
            octree.nodes@[node as int],
            x,
            y,
            z,
            d,
        ) == a,
        r matches Some(a) ==> (a == leaf_attrs(octree.nodes@[node as int]) || a == air()),
        r is None ==> octree.nodes@[node as int] is Internal && octree.nodes@[node as int]->child_mask != 0,
        r is Some <==> collapses(octree.nodes@[node as int]),
{
    match octree.nodes[node] {
        SvoNode::Leaf { voxel_type, color, light_rgb, face_occlusion } => Some(
            (voxel_type, color, light_rgb, face_occlusion),
        ),
        SvoNode::Internal { child_mask, .. } => {
            if child_mask == 0 {
                proof {
                    assert forall|x: int, y: int, z: int, d: nat| #[trigger] lookup(
                        octree.nodes@,
                        octree.nodes@[node as int],
                        x,
                        y,
                        z,
                        d,
                    ) == air() by {
                        if d > 0 {
                            let half = pow2((d - 1) as nat) as int;
                            let k = octant_of(x, y, z, half);
                            lemma_mask_empty(k as u8);
                        }
                    }
                }
                Some((0u8, 0u32, [0u8, 0u8, 0u8], 0u8))
            } else {
                None
            }
        },
    }
}

} // verus!
