//! The sparse voxel octree arena and the meaning of a lookup in it.
//!
//! Internal nodes store their eight children contiguously from
//! `child_base_index`; bit `k` of `child_mask` is clear when child `k` is
//! entirely air. A lookup at depth `d` descends by octant: octant bit 0 is
//! x, bit 1 is y, bit 2 is z, each set when the coordinate lies in the upper
//! half of the cube.

use vstd::prelude::*;
use vstd::arithmetic::power2::{pow2, lemma_pow2_pos, lemma_pow2_unfold};

verus! {

/// The attributes of one voxel: material, color, RGB light, face occlusion.
pub type VoxelAttrs = (u8, u32, [u8; 3], u8);

#[derive(Debug, Clone, Copy, PartialEq, Eq)]
pub enum SvoNode {
    Leaf { voxel_type: u8, color: u32, light_rgb: [u8; 3], face_occlusion: u8 },
    Internal { child_base_index: u32, child_mask: u8 },
}

pub open spec fn air() -> VoxelAttrs {
    (0u8, 0u32, [0u8, 0u8, 0u8], 0u8)
}

/// Every voxel whose material is zero is the canonical air voxel.
pub open spec fn canonical_air(field: spec_fn(int, int, int) -> VoxelAttrs) -> bool {
    forall|x: int, y: int, z: int| (#[trigger] field(x, y, z)).0 == 0 ==> field(x, y, z) == air()
}

pub open spec fn leaf_attrs(node: SvoNode) -> VoxelAttrs {
    match node {
        SvoNode::Leaf { voxel_type, color, light_rgb, face_occlusion } => (
            voxel_type,
            color,
            light_rgb,
            face_occlusion,
        ),
        SvoNode::Internal { .. } => air(),
    }
}

pub open spec fn leaf_of(a: VoxelAttrs) -> SvoNode {
    SvoNode::Leaf { voxel_type: a.0, color: a.1, light_rgb: a.2, face_occlusion: a.3 }
}

/// Octant of a cube-local point, given half the cube's edge.
pub open spec fn octant_of(x: int, y: int, z: int, half: int) -> int {
    (if x >= half { 1int } else { 0int }) + (if y >= half { 2int } else { 0int }) + (if z
        >= half {
        4int
    } else {
        0int
    })
}

/// A cube-local coordinate re-expressed in its child octant's frame.
pub open spec fn local_coord(c: int, half: int) -> int {
    if c >= half {
        c - half
    } else {
        c
    }
}

/// Offsets of child octant `k` inside its parent, in units of the child's
/// edge.
pub open spec fn octant_dx(k: int) -> int {
    k % 2
}

pub open spec fn octant_dy(k: int) -> int {
    (k / 2) % 2
}

pub open spec fn octant_dz(k: int) -> int {
    k / 4
}

pub open spec fn mask_has(mask: u8, k: int) -> bool {
    mask & (1u8 << (k as u8)) != 0
}

/// The voxel a node describes at cube-local `(x, y, z)` of a cube of edge
/// `2^d`, reading children from `arena`.
pub open spec fn lookup(arena: Seq<SvoNode>, node: SvoNode, x: int, y: int, z: int, d: nat) -> VoxelAttrs
    decreases d,
{
    match node {
        SvoNode::Leaf { .. } => leaf_attrs(node),
        SvoNode::Internal { child_base_index, child_mask } => {
            if d == 0 {
                air()
            } else {
                let half = pow2((d - 1) as nat) as int;
                let k = octant_of(x, y, z, half);
                let i = child_base_index + k;
                if !mask_has(child_mask, k) {
                    air()
                } else if i < arena.len() {
                    lookup(
                        arena,
                        arena[i],
                        local_coord(x, half),
                        local_coord(y, half),
                        local_coord(z, half),
                        (d - 1) as nat,
                    )
                } else {
                    air()
                }
            }
        },
    }
}

/// Every child a node reaches within `d` levels lies inside `arena`.
pub open spec fn wf_node(arena: Seq<SvoNode>, node: SvoNode, d: nat) -> bool
    decreases d,
{
    match node {
        SvoNode::Leaf { .. } => true,
        SvoNode::Internal { child_base_index, .. } => {
            &&& d > 0
            &&& child_base_index + 8 <= arena.len()
            &&& wf_node(arena, arena[child_base_index + 0], (d - 1) as nat)
            &&& wf_node(arena, arena[child_base_index + 1], (d - 1) as nat)
            &&& wf_node(arena, arena[child_base_index + 2], (d - 1) as nat)
            &&& wf_node(arena, arena[child_base_index + 3], (d - 1) as nat)
            &&& wf_node(arena, arena[child_base_index + 4], (d - 1) as nat)
            &&& wf_node(arena, arena[child_base_index + 5], (d - 1) as nat)
            &&& wf_node(arena, arena[child_base_index + 6], (d - 1) as nat)
            &&& wf_node(arena, arena[child_base_index + 7], (d - 1) as nat)
        },
    }
}

pub open spec fn in_cube(x: int, y: int, z: int, d: nat) -> bool {
    0 <= x < pow2(d) && 0 <= y < pow2(d) && 0 <= z < pow2(d)
}

/// `node` describes, over the cube of edge `2^d` at `(ox, oy, oz)`, exactly
/// the voxels of `field`.
pub open spec fn represents(
    arena: Seq<SvoNode>,
    node: SvoNode,
    field: spec_fn(int, int, int) -> VoxelAttrs,
    ox: int,
    oy: int,
    oz: int,
    d: nat,
) -> bool {
    &&& wf_node(arena, node, d)
    &&& forall|x: int, y: int, z: int|
        in_cube(x, y, z, d) ==> #[trigger] lookup(arena, node, x, y, z, d) == field(
            ox + x,
            oy + y,
            oz + z,
        )
}

pub open spec fn is_prefix(a: Seq<SvoNode>, b: Seq<SvoNode>) -> bool {
    a.len() <= b.len() && b.subrange(0, a.len() as int) == a
}

/// Growing the arena never changes what an already well-formed node means.
pub proof fn lemma_extend_lookup(a: Seq<SvoNode>, b: Seq<SvoNode>, node: SvoNode, d: nat)
    requires
        is_prefix(a, b),
        wf_node(a, node, d),
    ensures
        wf_node(b, node, d),
        forall|x: int, y: int, z: int| #[trigger] lookup(b, node, x, y, z, d) == lookup(a, node, x, y, z, d),
    decreases d,
{
    match node {
        SvoNode::Leaf { .. } => {},
        SvoNode::Internal { child_base_index, child_mask } => {
            let dd = (d - 1) as nat;
            lemma_wf_children(a, node, d);
            assert forall|k: int| 0 <= k < 8 implies #[trigger] wf_node(b, b[child_base_index + k], dd) by {
                assert(b[child_base_index + k] == a[child_base_index + k]);
                lemma_extend_lookup(a, b, a[child_base_index + k], dd);
            }
            lemma_wf_intro(b, node, d);
            assert forall|x: int, y: int, z: int| #[trigger] lookup(b, node, x, y, z, d) == lookup(a, node, x, y, z, d) by {
                let half = pow2(dd) as int;
                let k = octant_of(x, y, z, half);
                assert(0 <= k < 8);
                if mask_has(child_mask, k) {
                    assert(b[child_base_index + k] == a[child_base_index + k]);
                    lemma_extend_lookup(a, b, a[child_base_index + k], dd);
                    let (lx, ly, lz) = (local_coord(x, half), local_coord(y, half), local_coord(z, half));
                    assert(lookup(b, b[child_base_index + k], lx, ly, lz, dd) == lookup(a, a[child_base_index + k], lx, ly, lz, dd));
                }
            }
        },
    }
}

/// An internal node whose eight children are well formed is well formed.
pub proof fn lemma_wf_intro(arena: Seq<SvoNode>, node: SvoNode, d: nat)
    requires
        node is Internal,
        d > 0,
        node->child_base_index + 8 <= arena.len(),
        forall|k: int| 0 <= k < 8 ==> #[trigger] wf_node(arena, arena[node->child_base_index + k], (d - 1) as nat),
    ensures
        wf_node(arena, node, d),
{
    let base = node->child_base_index;
    let dd = (d - 1) as nat;
    assert(wf_node(arena, arena[base + 0], dd));
    assert(wf_node(arena, arena[base + 1], dd));
    assert(wf_node(arena, arena[base + 2], dd));
    assert(wf_node(arena, arena[base + 3], dd));
    assert(wf_node(arena, arena[base + 4], dd));
    assert(wf_node(arena, arena[base + 5], dd));
    assert(wf_node(arena, arena[base + 6], dd));
    assert(wf_node(arena, arena[base + 7], dd));
}

/// The eight children of a well-formed internal node are well formed.
pub proof fn lemma_wf_children(arena: Seq<SvoNode>, node: SvoNode, d: nat)
    requires
        wf_node(arena, node, d),
        node is Internal,
    ensures
        d > 0,
        node->child_base_index + 8 <= arena.len(),
        forall|k: int| 0 <= k < 8 ==> #[trigger] wf_node(arena, arena[node->child_base_index + k], (d - 1) as nat),
{
    assert forall|k: int| 0 <= k < 8 implies #[trigger] wf_node(arena, arena[node->child_base_index + k], (d - 1) as nat) by {
        assert(k == 0 || k == 1 || k == 2 || k == 3 || k == 4 || k == 5 || k == 6 || k == 7);
    }
}

/// Extension preserves the full representation property.
pub proof fn lemma_extend_represents(
    a: Seq<SvoNode>,
    b: Seq<SvoNode>,
    node: SvoNode,
    field: spec_fn(int, int, int) -> VoxelAttrs,
    ox: int,
    oy: int,
    oz: int,
    d: nat,
)
    requires
        is_prefix(a, b),
        represents(a, node, field, ox, oy, oz, d),
    ensures
        represents(b, node, field, ox, oy, oz, d),
{
    lemma_extend_lookup(a, b, node, d);
}

/// A point of a cube lies in exactly one octant, at the local coordinates
/// the lookup uses.
pub proof fn lemma_octant_split(x: int, y: int, z: int, d: nat)
    requires
        d > 0,
        in_cube(x, y, z, d),
    ensures
        ({
            let half = pow2((d - 1) as nat) as int;
            let k = octant_of(x, y, z, half);
            &&& 0 <= k < 8
            &&& in_cube(local_coord(x, half), local_coord(y, half), local_coord(z, half), (d - 1) as nat)
            &&& x == octant_dx(k) * half + local_coord(x, half)
            &&& y == octant_dy(k) * half + local_coord(y, half)
            &&& z == octant_dz(k) * half + local_coord(z, half)
        }),
{
    lemma_pow2_unfold(d);
    lemma_pow2_pos((d - 1) as nat);
    let half = pow2((d - 1) as nat) as int;
    let k = octant_of(x, y, z, half);
    let bx: int = if x >= half { 1 } else { 0 };
    let by: int = if y >= half { 1 } else { 0 };
    let bz: int = if z >= half { 1 } else { 0 };
    assert(k == bx + 2 * by + 4 * bz);
    assert(octant_dx(k) == bx && octant_dy(k) == by && octant_dz(k) == bz) by {
        if bx == 0 && by == 0 && bz == 0 { assert(k == 0); }
        else if bx == 1 && by == 0 && bz == 0 { assert(k == 1); }
        else if bx == 0 && by == 1 && bz == 0 { assert(k == 2); }
        else if bx == 1 && by == 1 && bz == 0 { assert(k == 3); }
        else if bx == 0 && by == 0 && bz == 1 { assert(k == 4); }
        else if bx == 1 && by == 0 && bz == 1 { assert(k == 5); }
        else if bx == 0 && by == 1 && bz == 1 { assert(k == 6); }
        else { assert(k == 7); }
    }
}

/// `2^d` fits in a `u32` for `d < 32`, and is what `1 << d` computes.
pub proof fn lemma_shl_pow2(d: u32)
    requires
        d < 32,
    ensures
        (1u32 << d) as nat == pow2(d as nat),
        pow2(d as nat) <= 0x8000_0000,
{
    vstd::bits::lemma_u32_pow2_no_overflow(d as nat);
    if d < 31 {
        vstd::arithmetic::power2::lemma_pow2_strictly_increases(d as nat, 31);
    }
    vstd::arithmetic::power2::lemma2_to64();
    vstd::bits::lemma_u32_shl_is_mul(1u32, d);
}

/// Setting bit `k` of a mask sets exactly that bit.
pub proof fn lemma_mask_set(mask: u8, k: u8, j: u8)
    requires
        k < 8,
        j < 8,
    ensures
        mask_has(mask | (1u8 << k), j as int) == (j == k || mask_has(mask, j as int)),
{
    assert((mask | (1u8 << k)) & (1u8 << j) != 0 <==> (j == k || mask & (1u8 << j) != 0)) by (bit_vector)
        requires
            k < 8,
            j < 8,
    ;
}

/// The shift-and-mask form of octant selection agrees with the arithmetic
/// one for every point of a cube of edge `2^(bit + 1)`.
pub proof fn lemma_octant_bits(x: u32, y: u32, z: u32, bit: u32)
    requires
        bit < 31,
        in_cube(x as int, y as int, z as int, (bit + 1) as nat),
    ensures
        ({
            let half = pow2(bit as nat) as int;
            &&& ((((z >> bit) & 1u32) << 2u32) | (((y >> bit) & 1u32) << 1u32) | ((x >> bit) & 1u32)) as int
                == octant_of(x as int, y as int, z as int, half)
            &&& (x & (((1u32 << bit) - 1u32) as u32)) as int == local_coord(x as int, half)
            &&& (y & (((1u32 << bit) - 1u32) as u32)) as int == local_coord(y as int, half)
            &&& (z & (((1u32 << bit) - 1u32) as u32)) as int == local_coord(z as int, half)
        }),
{
    lemma_shl_pow2(bit);
    lemma_shl_pow2((bit + 1) as u32);
    vstd::arithmetic::power2::lemma_pow2_unfold((bit + 1) as nat);
    let h = 1u32 << bit;
    assert(forall|v: u32| #![trigger (v >> bit)] v < 2 * h ==> ((v >> bit) & 1u32) == (if v >= h { 1u32 } else { 0u32 })
        && (v & ((h - 1u32) as u32)) == (if v >= h { (v - h) as u32 } else { v })) by {
        assert forall|v: u32| v < 2 * h implies ((v >> bit) & 1u32) == (if v >= h { 1u32 } else { 0u32 })
            && (v & ((h - 1u32) as u32)) == (if v >= h { (v - h) as u32 } else { v }) by {
            assert(((v >> bit) & 1u32) == (if v >= h { 1u32 } else { 0u32 }) && (v & ((h - 1u32) as u32)) == (if v
                >= h {
                (v - h) as u32
            } else {
                v
            })) by (bit_vector)
                requires
                    bit < 31,
                    h == 1u32 << bit,
                    v < 2 * h,
            ;
        }
    }
    let bx = (x >> bit) & 1u32;
    let by = (y >> bit) & 1u32;
    let bz = (z >> bit) & 1u32;
    assert(((bz << 2u32) | (by << 1u32) | bx) == bx + 2 * by + 4 * bz) by (bit_vector)
        requires
            bx <= 1,
            by <= 1,
            bz <= 1,
    ;
}

/// The empty mask has no bits.
pub proof fn lemma_mask_empty(j: u8)
    requires
        j < 8,
    ensures
        !mask_has(0u8, j as int),
{
    assert(0u8 & (1u8 << j) == 0) by (bit_vector);
}

/// A sparse voxel octree over a cube of edge `2^depth`.
#[derive(Debug, Clone, PartialEq, Eq)]
pub struct SparseVoxelOctree {
    pub root: usize,
    pub nodes: Vec<SvoNode>,
    pub depth: u32,
    /// IEEE-754 bit pattern of the cube's edge in world units; carried
    /// through unchanged.
    pub world_size_bits: u32,
}

impl SparseVoxelOctree {
    /// The octree's root is well formed and every node it reaches lies in
    /// the arena.
    pub open spec fn wf(&self) -> bool {
        &&& self.root < self.nodes@.len()
        &&& self.depth < 32
        &&& wf_node(self.nodes@, self.nodes@[self.root as int], self.depth as nat)
    }

    /// The voxel at `(x, y, z)` of the octree's cube.
    pub open spec fn voxel(&self, x: int, y: int, z: int) -> VoxelAttrs {
        lookup(self.nodes@, self.nodes@[self.root as int], x, y, z, self.depth as nat)
    }

    /// An all-air octree: a single air leaf.
    pub fn new(depth: u32, world_size_bits: u32) -> (octree: Self)
        requires
            depth < 32,
        ensures
            octree.wf(),
            octree.depth == depth,
            octree.world_size_bits == world_size_bits,
            forall|x: int, y: int, z: int| #[trigger] octree.voxel(x, y, z) == air(),
    {
        let mut nodes: Vec<SvoNode> = Vec::new();
        nodes.push(
            SvoNode::Leaf { voxel_type: 0, color: 0, light_rgb: [0u8, 0u8, 0u8], face_occlusion: 0 },
        );
        SparseVoxelOctree { root: 0, nodes, depth, world_size_bits }
    }

    /// Reads back one voxel; `None` outside the cube.
    pub fn get(&self, x: u32, y: u32, z: u32) -> (r: Option<VoxelAttrs>)
        requires
            self.wf(),
        ensures
            r is None <==> !in_cube(x as int, y as int, z as int, self.depth as nat),
            in_cube(x as int, y as int, z as int, self.depth as nat) ==> r == Some(
                self.voxel(x as int, y as int, z as int),
            ),
    {
        proof {
            lemma_shl_pow2(self.depth);
        }
        let extent: u32 = 1u32 << self.depth;
        if x >= extent || y >= extent || z >= extent {
            return None;
        }
        let n = self.nodes.len();
        let mut node = self.nodes[self.root];
        let mut d = self.depth;
        let mut lx = x;
        let mut ly = y;
        let mut lz = z;
        while d > 0
            invariant
                self.wf(),
                n == self.nodes@.len(),
                in_cube(x as int, y as int, z as int, self.depth as nat),
                wf_node(self.nodes@, node, d as nat),
                in_cube(lx as int, ly as int, lz as int, d as nat),
                d < 32,
                lookup(self.nodes@, node, lx as int, ly as int, lz as int, d as nat) == self.voxel(
                    x as int,
                    y as int,
                    z as int,
                ),
            ensures
                d == 0 || node is Leaf,
                wf_node(self.nodes@, node, d as nat),
                lookup(self.nodes@, node, lx as int, ly as int, lz as int, d as nat) == self.voxel(
                    x as int,
                    y as int,
                    z as int,
                ),
            decreases d,
        {
            match node {
                SvoNode::Leaf { .. } => {
                    break ;
                },
                SvoNode::Internal { child_base_index, child_mask } => {
                    proof {
                        lemma_wf_children(self.nodes@, node, d as nat);
                        lemma_shl_pow2((d - 1) as u32);
                        lemma_octant_split(lx as int, ly as int, lz as int, d as nat);
                    }
                    let half: u32 = 1u32 << (d - 1);
                    let mut octant: u8 = 0;
                    if lx >= half {
                        octant = octant + 1;
                        lx = lx - half;
                    }
                    if ly >= half {
                        octant = octant + 2;
                        ly = ly - half;
                    }
                    if lz >= half {
                        octant = octant + 4;
                        lz = lz - half;
                    }
                    if child_mask & (1u8 << octant) == 0 {
                        return Some((0u8, 0u32, [0u8, 0u8, 0u8], 0u8));
                    }
                    node = self.nodes[child_base_index as usize + octant as usize];
                    d = d - 1;
                },
            }
        }
        proof {
            if d == 0 && node is Internal {
                assert(!wf_node(self.nodes@, node, 0));
            }
        }
        match node {
            SvoNode::Leaf { voxel_type, color, light_rgb, face_occlusion } => Some(
                (voxel_type, color, light_rgb, face_occlusion),
            ),
            SvoNode::Internal { .. } => Some((0u8, 0u32, [0u8, 0u8, 0u8], 0u8)),
        }
    }
}

} // verus!
