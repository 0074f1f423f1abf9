//! Converts a dense voxel grid into a collapsed sparse octree.
//!
//! Children are built depth-first and pushed contiguously after their own
//! subtrees; eight identical leaf children collapse into one leaf; any cube
//! whose minimum corner lies past the grid is canonical air and is never
//! descended into.

use vstd::prelude::*;
use vstd::arithmetic::power2::{pow2, lemma_pow2_unfold, lemma_pow2_pos};
use crate::ports::MaterialPalette;
use crate::svo::{
    SparseVoxelOctree, SvoNode, VoxelAttrs, air, canonical_air, in_cube, is_prefix, leaf_attrs,
    lemma_extend_represents, lemma_mask_empty, lemma_mask_set, lemma_octant_split, lemma_shl_pow2,
    lemma_wf_intro, local_coord, lookup, mask_has, octant_dx, octant_dy, octant_dz, octant_of,
    represents, wf_node,
};
use crate::voxel_grid::{GridView, VoxelGrid, VOXEL_AIR};

verus! {

/// The voxel a grid presents at `(x, y, z)`: air outside the grid or where
/// the material is air, otherwise the material, its palette color, its light
/// and its face occlusion.
pub open spec fn grid_attrs<P: MaterialPalette>(palette: &P, g: GridView, x: int, y: int, z: int) -> VoxelAttrs {
    if !g.in_bounds(x, y, z) || g.material(x, y, z) == VOXEL_AIR {
        air()
    } else {
        (g.material(x, y, z), palette.spec_color(g.material(x, y, z)), g.light_at(x, y, z), g.occlusion_at(x, y, z))
    }
}

pub open spec fn grid_field<P: MaterialPalette>(palette: &P, g: GridView) -> spec_fn(int, int, int) -> VoxelAttrs {
    |x: int, y: int, z: int| grid_attrs(palette, g, x, y, z)
}

/// The most arena slots a build of depth `d` can append.
pub open spec fn arena_bound(d: nat) -> nat
    decreases d,
{
    if d == 0 {
        0
    } else {
        8 + 8 * arena_bound((d - 1) as nat)
    }
}

/// One cube of the recursion: its minimum corner, edge and depth.
#[derive(Clone, Copy)]
pub struct OctreeRegion {
    pub origin: [u32; 3],
    pub size: u32,
    pub depth: u32,
}

impl OctreeRegion {
    /// The cube of edge `2^depth` fits in the `u32` coordinate space.
    pub open spec fn valid(self) -> bool {
        &&& self.depth < 32
        &&& self.size as nat == pow2(self.depth as nat)
        &&& self.origin[0] + self.size <= 0x1_0000_0000
        &&& self.origin[1] + self.size <= 0x1_0000_0000
        &&& self.origin[2] + self.size <= 0x1_0000_0000
    }

    pub fn root(depth: u32) -> (r: Self)
        requires
            depth < 32,
        ensures
            r.valid(),
            r.depth == depth,
            r.origin == [0u32, 0u32, 0u32],
    {
        proof {
            lemma_shl_pow2(depth);
        }
        OctreeRegion { origin: [0u32, 0u32, 0u32], size: 1u32 << depth, depth }
    }

    /// Child cube `octant` (bit 0: x, bit 1: y, bit 2: z).
    pub fn child(self, octant: u32) -> (r: Self)
        requires
            self.valid(),
            self.depth > 0,
            octant < 8,
        ensures
            r.valid(),
            r.depth == self.depth - 1,
            r.size * 2 == self.size,
            r.origin[0] == self.origin[0] + octant_dx(octant as int) * r.size,
            r.origin[1] == self.origin[1] + octant_dy(octant as int) * r.size,
            r.origin[2] == self.origin[2] + octant_dz(octant as int) * r.size,
    {
        proof {
            lemma_pow2_unfold(self.depth as nat);
            assert((octant & 1) == octant % 2) by (bit_vector)
                requires
                    octant < 8,
            ;
            assert(((octant >> 1) & 1) == (octant / 2) % 2) by (bit_vector)
                requires
                    octant < 8,
            ;
            assert(((octant >> 2) & 1) == octant / 4) by (bit_vector)
                requires
                    octant < 8,
            ;
            let half = self.size / 2;
            assert(half as nat == pow2((self.depth - 1) as nat));
            assert(octant_dx(octant as int) * half <= half) by (nonlinear_arith)
                requires
                    0 <= octant_dx(octant as int) <= 1,
                    half >= 0,
            ;
            assert(octant_dy(octant as int) * half <= half) by (nonlinear_arith)
                requires
                    0 <= octant_dy(octant as int) <= 1,
                    half >= 0,
            ;
            assert(octant_dz(octant as int) * half <= half) by (nonlinear_arith)
                requires
                    0 <= octant_dz(octant as int) <= 1,
                    half >= 0,
            ;
        }
        let size = self.size / 2;
        OctreeRegion {
            origin: [
                self.origin[0] + (octant & 1) * size,
                self.origin[1] + ((octant >> 1) & 1) * size,
                self.origin[2] + ((octant >> 2) & 1) * size,
            ],
            size,
            depth: self.depth - 1,
        }
    }
}

/// Eight leaves all equal to `leaf` represent `leaf` over the parent cube.
proof fn lemma_uniform_represents(
    arena: Seq<SvoNode>,
    children: Seq<SvoNode>,
    leaf: SvoNode,
    field: spec_fn(int, int, int) -> VoxelAttrs,
    ox: int,
    oy: int,
    oz: int,
    d: nat,
)
    requires
        d > 0,
        children.len() == 8,
        leaf is Leaf,
        forall|k: int| 0 <= k < 8 ==> leaf_attrs(#[trigger] children[k]) == leaf_attrs(leaf) && children[k] is Leaf,
        forall|k: int|
            0 <= k < 8 ==> represents(
                arena,
                #[trigger] children[k],
                field,
                ox + octant_dx(k) * pow2((d - 1) as nat),
                oy + octant_dy(k) * pow2((d - 1) as nat),
                oz + octant_dz(k) * pow2((d - 1) as nat),
                (d - 1) as nat,
            ),
    ensures
        represents(arena, leaf, field, ox, oy, oz, d),
{
    assert forall|x: int, y: int, z: int| in_cube(x, y, z, d) implies #[trigger] lookup(arena, leaf, x, y, z, d)
        == field(ox + x, oy + y, oz + z) by {
        lemma_octant_split(x, y, z, d);
        let half = pow2((d - 1) as nat) as int;
        let k = octant_of(x, y, z, half);
        let c = children[k];
        let (lx, ly, lz) = (local_coord(x, half), local_coord(y, half), local_coord(z, half));
        assert(lookup(arena, c, lx, ly, lz, (d - 1) as nat) == field(
            ox + octant_dx(k) * half + lx,
            oy + octant_dy(k) * half + ly,
            oz + octant_dz(k) * half + lz,
        ));
    }
}

/// The internal node over eight freshly pushed children represents the
/// parent cube, provided its mask marks exactly the non-air children.
proof fn lemma_internal_represents(
    before: Seq<SvoNode>,
    children: Seq<SvoNode>,
    node: SvoNode,
    field: spec_fn(int, int, int) -> VoxelAttrs,
    ox: int,
    oy: int,
    oz: int,
    d: nat,
)
    requires
        d > 0,
        children.len() == 8,
        canonical_air(field),
        node is Internal,
        node->child_base_index == before.len(),
        forall|k: int|
            0 <= k < 8 ==> (mask_has(node->child_mask, k) <==> !(#[trigger] children[k] matches SvoNode::Leaf {
                voxel_type,
                ..
            } && voxel_type == 0)),
        forall|k: int|
            0 <= k < 8 ==> represents(
                before,
                #[trigger] children[k],
                field,
                ox + octant_dx(k) * pow2((d - 1) as nat),
                oy + octant_dy(k) * pow2((d - 1) as nat),
                oz + octant_dz(k) * pow2((d - 1) as nat),
                (d - 1) as nat,
            ),
    ensures
        represents(before + children, node, field, ox, oy, oz, d),
{
    let after = before + children;
    let dd = (d - 1) as nat;
    let base = node->child_base_index;
    assert(is_prefix(before, after)) by {
        assert(after.subrange(0, before.len() as int) =~= before);
    }
    assert forall|k: int| 0 <= k < 8 implies #[trigger] wf_node(after, after[base + k], dd) by {
        assert(after[base + k] == children[k]);
        lemma_extend_represents(
            before,
            after,
            children[k],
            field,
            ox + octant_dx(k) * pow2(dd),
            oy + octant_dy(k) * pow2(dd),
            oz + octant_dz(k) * pow2(dd),
            dd,
        );
    }
    lemma_wf_intro(after, node, d);
    assert forall|x: int, y: int, z: int| in_cube(x, y, z, d) implies #[trigger] lookup(after, node, x, y, z, d)
        == field(ox + x, oy + y, oz + z) by {
        lemma_octant_split(x, y, z, d);
        let half = pow2(dd) as int;
        let k = octant_of(x, y, z, half);
        let c = children[k];
        let (lx, ly, lz) = (local_coord(x, half), local_coord(y, half), local_coord(z, half));
        let (cx, cy, cz) = (ox + octant_dx(k) * half, oy + octant_dy(k) * half, oz + octant_dz(k) * half);
        assert(lookup(before, c, lx, ly, lz, dd) == field(cx + lx, cy + ly, cz + lz));
        assert(after[base + k] == c);
        lemma_extend_represents(before, after, c, field, cx, cy, cz, dd);
        assert(lookup(after, c, lx, ly, lz, dd) == field(cx + lx, cy + ly, cz + lz));
        if !mask_has(node->child_mask, k) {
            assert(field(ox + x, oy + y, oz + z).0 == 0);
        }
    }
}

/// The internal node over eight freshly pushed children represents the
/// parent cube (shared with the direct builder).
pub proof fn lemma_internal_represents_pub(
    before: Seq<SvoNode>,
    children: Seq<SvoNode>,
    node: SvoNode,
    field: spec_fn(int, int, int) -> VoxelAttrs,
    ox: int,
    oy: int,
    oz: int,
    d: nat,
)
    requires
        d > 0,
        children.len() == 8,
        canonical_air(field),
        node is Internal,
        node->child_base_index == before.len(),
        forall|k: int|
            0 <= k < 8 ==> (mask_has(node->child_mask, k) <==> !(#[trigger] children[k] matches SvoNode::Leaf {
                voxel_type,
                ..
            } && voxel_type == 0)),
        forall|k: int|
            0 <= k < 8 ==> represents(
                before,
                #[trigger] children[k],
                field,
                ox + octant_dx(k) * pow2((d - 1) as nat),
                oy + octant_dy(k) * pow2((d - 1) as nat),
                oz + octant_dz(k) * pow2((d - 1) as nat),
                (d - 1) as nat,
            ),
    ensures
        represents(before + children, node, field, ox, oy, oz, d),
{
    lemma_internal_represents(before, children, node, field, ox, oy, oz, d);
}

/// The leaf holding voxel `a`.
pub open spec fn leaf_of(a: VoxelAttrs) -> SvoNode {
    SvoNode::Leaf { voxel_type: a.0, color: a.1, light_rgb: a.2, face_occlusion: a.3 }
}

/// A child that its parent's mask marks: anything but an air leaf.
pub open spec fn occupied(n: SvoNode) -> bool {
    !(n matches SvoNode::Leaf { voxel_type, .. } && voxel_type == 0)
}

/// The mask whose bit `j`, for each of the first `k` children, is set when
/// that child is occupied.
pub open spec fn mask_upto(children: Seq<SvoNode>, k: nat) -> u8
    decreases k,
{
    if k == 0 {
        0
    } else {
        let m = mask_upto(children, (k - 1) as nat);
        if occupied(children[k - 1]) {
            m | (1u8 << ((k - 1) as u8))
        } else {
            m
        }
    }
}

/// The eight children are leaves with the attributes of the first.
pub open spec fn all_same_leaf(children: Seq<SvoNode>) -> bool {
    forall|j: int|
        0 <= j < 8 ==> #[trigger] children[j] is Leaf && leaf_attrs(children[j]) == leaf_attrs(children[0])
}

/// What the builder appends to an arena of length `len` for the cube of
/// depth `d` at `(ox, oy, oz)` of the voxel `field`, and the node it returns
/// for that cube: a voxel's leaf at depth zero; otherwise the eight children
/// built in octant order, collapsed into the first when all are the same
/// leaf, and else pushed after everything they appended, under an internal
/// node whose mask marks the occupied ones.
pub open spec fn built(
    field: spec_fn(int, int, int) -> VoxelAttrs,
    ox: int,
    oy: int,
    oz: int,
    d: nat,
    len: int,
) -> (Seq<SvoNode>, SvoNode)
    decreases d, 9nat,
{
    if d == 0 {
        (Seq::empty(), leaf_of(field(ox, oy, oz)))
    } else {
        let c = built_children(field, ox, oy, oz, d, len, 8);
        if all_same_leaf(c.1) {
            (c.0, c.1[0])
        } else {
            (
                c.0 + c.1,
                SvoNode::Internal { child_base_index: (len + c.0.len()) as u32, child_mask: mask_upto(c.1, 8) },
            )
        }
    }
}

/// The first `k` children of the cube of depth `d` at `(ox, oy, oz)`, built
/// one after another onto an arena of length `len`: what they append, and
/// the children.
pub open spec fn built_children(
    field: spec_fn(int, int, int) -> VoxelAttrs,
    ox: int,
    oy: int,
    oz: int,
    d: nat,
    len: int,
    k: nat,
) -> (Seq<SvoNode>, Seq<SvoNode>)
    decreases d, k,
{
    if d == 0 || k == 0 {
        (Seq::empty(), Seq::empty())
    } else {
        let before = built_children(field, ox, oy, oz, d, len, (k - 1) as nat);
        let j = k - 1;
        let half = pow2((d - 1) as nat) as int;
        let c = built(
            field,
            ox + octant_dx(j) * half,
            oy + octant_dy(j) * half,
            oz + octant_dz(j) * half,
            (d - 1) as nat,
            len + before.0.len(),
        );
        (before.0 + c.0, before.1.push(c.1))
    }
}

/// The arena a build of depth `depth` over `field` produces: everything the
/// root cube appends, then the root node last.
pub open spec fn field_arena(field: spec_fn(int, int, int) -> VoxelAttrs, depth: nat) -> Seq<SvoNode> {
    let r = built(field, 0, 0, 0, depth, 0);
    r.0.push(r.1)
}

/// The arena the dense builder produces for grid `g` under `palette`.
pub open spec fn octree_arena<P: MaterialPalette>(palette: &P, g: GridView, depth: nat) -> Seq<SvoNode> {
    field_arena(grid_field(palette, g), depth)
}

/// A cube holding one voxel `a` throughout is built as that voxel's leaf
/// and appends nothing.
pub proof fn lemma_uniform_cube_built(
    field: spec_fn(int, int, int) -> VoxelAttrs,
    ox: int,
    oy: int,
    oz: int,
    d: nat,
    len: int,
    a: VoxelAttrs,
)
    requires
        forall|x: int, y: int, z: int| in_cube(x, y, z, d) ==> #[trigger] field(ox + x, oy + y, oz + z) == a,
    ensures
        built(field, ox, oy, oz, d, len) == (Seq::<SvoNode>::empty(), leaf_of(a)),
    decreases d, 9nat,
{
    if d == 0 {
        vstd::arithmetic::power2::lemma2_to64();
        assert(in_cube(0, 0, 0, 0));
        assert(field(ox + 0, oy + 0, oz + 0) == a);
    } else {
        lemma_uniform_children_built(field, ox, oy, oz, d, len, a, 8);
        let c = built_children(field, ox, oy, oz, d, len, 8);
        assert(all_same_leaf(c.1));
        assert(c.0 + Seq::<SvoNode>::empty() =~= c.0);
    }
}

proof fn lemma_uniform_children_built(
    field: spec_fn(int, int, int) -> VoxelAttrs,
    ox: int,
    oy: int,
    oz: int,
    d: nat,
    len: int,
    a: VoxelAttrs,
    k: nat,
)
    requires
        forall|x: int, y: int, z: int| in_cube(x, y, z, d) ==> #[trigger] field(ox + x, oy + y, oz + z) == a,
        d > 0,
        k <= 8,
    ensures
        built_children(field, ox, oy, oz, d, len, k).0 == Seq::<SvoNode>::empty(),
        built_children(field, ox, oy, oz, d, len, k).1.len() == k,
        forall|j: int| 0 <= j < k ==> #[trigger] built_children(field, ox, oy, oz, d, len, k).1[j] == leaf_of(a),
    decreases d, k,
{
    if k > 0 {
        lemma_uniform_children_built(field, ox, oy, oz, d, len, a, (k - 1) as nat);
        let j = k - 1;
        let dd = (d - 1) as nat;
        let half = pow2(dd) as int;
        lemma_pow2_unfold(d);
        lemma_pow2_pos(dd);
        let (cx, cy, cz) = (ox + octant_dx(j) * half, oy + octant_dy(j) * half, oz + octant_dz(j) * half);
        assert forall|x: int, y: int, z: int| in_cube(x, y, z, dd) implies #[trigger] field(cx + x, cy + y, cz + z)
            == a by {
            let (px, py, pz) = (octant_dx(j) * half + x, octant_dy(j) * half + y, octant_dz(j) * half + z);
            assert(0 <= octant_dx(j) <= 1 && 0 <= octant_dy(j) <= 1 && 0 <= octant_dz(j) <= 1);
            assert(0 <= px < 2 * half && 0 <= py < 2 * half && 0 <= pz < 2 * half) by (nonlinear_arith)
                requires
                    0 <= octant_dx(j) <= 1,
                    0 <= octant_dy(j) <= 1,
                    0 <= octant_dz(j) <= 1,
                    0 <= x < half,
                    0 <= y < half,
                    0 <= z < half,
                    px == octant_dx(j) * half + x,
                    py == octant_dy(j) * half + y,
                    pz == octant_dz(j) * half + z,
            ;
            assert(in_cube(px, py, pz, d));
            assert(field(ox + px, oy + py, oz + pz) == a);
            assert(ox + px == cx + x && oy + py == cy + y && oz + pz == cz + z);
        }
        let before = built_children(field, ox, oy, oz, d, len, (k - 1) as nat);
        lemma_uniform_cube_built(field, cx, cy, cz, dd, len + before.0.len(), a);
        assert(before.0 + Seq::<SvoNode>::empty() =~= before.0);
    }
}

/// Bit `j` of the mask over the first `k` children is set exactly when
/// `j < k` and child `j` is occupied.
proof fn lemma_mask_upto(children: Seq<SvoNode>, k: nat)
    requires
        k <= 8,
    ensures
        forall|j: int| 0 <= j < 8 ==> (mask_has(mask_upto(children, k), j) <==> (j < k && occupied(children[j]))),
    decreases k,
{
    if k == 0 {
        assert forall|j: int| 0 <= j < 8 implies !mask_has(0u8, j) by {
            lemma_mask_empty(j as u8);
        }
    } else {
        lemma_mask_upto(children, (k - 1) as nat);
        let m = mask_upto(children, (k - 1) as nat);
        assert forall|j: int| 0 <= j < 8 implies (mask_has(mask_upto(children, k), j) <==> (j < k && occupied(
            children[j],
        ))) by {
            if occupied(children[k - 1]) {
                lemma_mask_set(m, (k - 1) as u8, j as u8);
            }
        }
    }
}

/// Building the first `k` children appends at most `k` full subtrees and
/// yields `k` children, each the node built for its own octant.
proof fn lemma_built_children_shape(
    field: spec_fn(int, int, int) -> VoxelAttrs,
    ox: int,
    oy: int,
    oz: int,
    d: nat,
    len: int,
    k: nat,
)
    requires
        d > 0,
        k <= 8,
    ensures
        built_children(field, ox, oy, oz, d, len, k).1.len() == k,
        built_children(field, ox, oy, oz, d, len, k).0.len() <= k * arena_bound((d - 1) as nat),
        forall|i: int|
            0 <= i < k ==> #[trigger] built_children(field, ox, oy, oz, d, len, k).1[i] == built(
                field,
                ox + octant_dx(i) * pow2((d - 1) as nat),
                oy + octant_dy(i) * pow2((d - 1) as nat),
                oz + octant_dz(i) * pow2((d - 1) as nat),
                (d - 1) as nat,
                len + built_children(field, ox, oy, oz, d, len, i as nat).0.len(),
            ).1,
    decreases d, k,
{
    if k > 0 {
        let dd = (d - 1) as nat;
        lemma_built_children_shape(field, ox, oy, oz, d, len, (k - 1) as nat);
        let before = built_children(field, ox, oy, oz, d, len, (k - 1) as nat);
        let half = pow2(dd) as int;
        let j = k - 1;
        lemma_built_len(
            field,
            ox + octant_dx(j) * half,
            oy + octant_dy(j) * half,
            oz + octant_dz(j) * half,
            dd,
            len + before.0.len(),
        );
        assert((k - 1) * arena_bound(dd) + arena_bound(dd) == k * arena_bound(dd)) by (nonlinear_arith);
    }
}

/// A cube of depth `d` appends at most `arena_bound(d)` nodes.
proof fn lemma_built_len(field: spec_fn(int, int, int) -> VoxelAttrs, ox: int, oy: int, oz: int, d: nat, len: int)
    ensures
        built(field, ox, oy, oz, d, len).0.len() <= arena_bound(d),
    decreases d, 10nat,
{
    if d > 0 {
        lemma_built_children_shape(field, ox, oy, oz, d, len, 8);
    }
}

/// The builder's layout of one cube of depth `d` built onto an arena of
/// length `len`. A cube of one voxel is that voxel's leaf and appends
/// nothing. Otherwise its eight children are built in octant order, each for
/// its own octant cube; when all eight are the same leaf the cube is that
/// leaf and appends no block of its own; else the eight children are
/// appended as one contiguous block after everything they appended, the cube
/// is an internal node whose child base is that block's start, so the block
/// ends the arena, and bit `i` of its mask is set exactly when child `i` is
/// an internal node or a leaf of non-air material.
pub proof fn law_build_block_layout(
    field: spec_fn(int, int, int) -> VoxelAttrs,
    ox: int,
    oy: int,
    oz: int,
    d: nat,
    len: int,
)
    requires
        0 <= len,
        len + arena_bound(d) <= u32::MAX,
    ensures
        d == 0 ==> built(field, ox, oy, oz, d, len) == (Seq::<SvoNode>::empty(), leaf_of(field(ox, oy, oz))),
        d > 0 ==> ({
            let c = built_children(field, ox, oy, oz, d, len, 8);
            let r = built(field, ox, oy, oz, d, len);
            &&& c.1.len() == 8
            &&& forall|i: int|
                0 <= i < 8 ==> #[trigger] c.1[i] == built(
                    field,
                    ox + octant_dx(i) * pow2((d - 1) as nat),
                    oy + octant_dy(i) * pow2((d - 1) as nat),
                    oz + octant_dz(i) * pow2((d - 1) as nat),
                    (d - 1) as nat,
                    len + built_children(field, ox, oy, oz, d, len, i as nat).0.len(),
                ).1
            &&& all_same_leaf(c.1) ==> r == (c.0, c.1[0])
            &&& !all_same_leaf(c.1) ==> {
                &&& r.0 == c.0 + c.1
                &&& r.1 is Internal
                &&& r.1->child_base_index + 8 == len + r.0.len()
                &&& forall|i: int| 0 <= i < 8 ==> #[trigger] r.0[r.1->child_base_index - len + i] == c.1[i]
                &&& forall|i: int|
                    0 <= i < 8 ==> (mask_has(r.1->child_mask, i) <==> (#[trigger] c.1[i] is Internal || c.1[i]->voxel_type
                        != 0))
            }
        }),
{
    if d > 0 {
        let dd = (d - 1) as nat;
        lemma_built_children_shape(field, ox, oy, oz, d, len, 8);
        let c = built_children(field, ox, oy, oz, d, len, 8);
        lemma_mask_upto(c.1, 8);
        assert(8 * arena_bound(dd) + 8 == arena_bound(d));
        let r = built(field, ox, oy, oz, d, len);
        if !all_same_leaf(c.1) {
            assert(r.1->child_base_index == len + c.0.len());
            assert forall|i: int| 0 <= i < 8 implies #[trigger] r.0[r.1->child_base_index - len + i] == c.1[i] by {
                assert((c.0 + c.1)[c.0.len() + i] == c.1[i]);
            }
        }
    }
}

/// A cube whose minimum corner lies past the grid on some axis holds only
/// air, so the builder makes it the air leaf and appends nothing: pruning
/// such cubes without descending gives the same arena.
pub proof fn law_outside_cube_is_air_leaf<P: MaterialPalette>(
    palette: &P,
    g: GridView,
    ox: int,
    oy: int,
    oz: int,
    d: nat,
    len: int,
)
    requires
        ox >= g.width || oy >= g.height || oz >= g.depth,
    ensures
        built(grid_field(palette, g), ox, oy, oz, d, len) == (Seq::<SvoNode>::empty(), leaf_of(air())),
{
    let field = grid_field(palette, g);
    assert forall|x: int, y: int, z: int| in_cube(x, y, z, d) implies #[trigger] field(ox + x, oy + y, oz + z)
        == air() by {
        assert(!g.in_bounds(ox + x, oy + y, oz + z));
    }
    lemma_uniform_cube_built(field, ox, oy, oz, d, len, air());
}

/// Converts a dense voxel grid into a collapsed sparse octree, with colors
/// drawn from the injected palette.
pub struct BuildOctreeUseCase<'a, P: MaterialPalette> {
    palette: &'a P,
}

impl<'a, P: MaterialPalette> BuildOctreeUseCase<'a, P> {
    pub closed spec fn spec_palette(&self) -> &'a P {
        self.palette
    }

    pub fn new(palette: &'a P) -> (use_case: Self)
        ensures
            use_case.spec_palette() == palette,
    {
        BuildOctreeUseCase { palette }
    }

    /// Converts `grid` into an octree of `depth` levels whose every voxel is
    /// the grid's voxel at the same coordinates (air beyond the grid).
    pub fn execute(&self, grid: &VoxelGrid, depth: u32, world_size_bits: u32) -> (octree: SparseVoxelOctree)
        requires
            grid.wf(),
            depth < 32,
            arena_bound(depth as nat) < u32::MAX,
        ensures
            octree.wf(),
            octree.depth == depth,
            octree.world_size_bits == world_size_bits,
            forall|x: int, y: int, z: int|
                in_cube(x, y, z, depth as nat) ==> #[trigger] octree.voxel(x, y, z) == grid_attrs(
                    self.spec_palette(),
                    grid@,
                    x,
                    y,
                    z,
                ),
            octree.nodes@ == octree_arena(self.spec_palette(), grid@, depth as nat),
            octree.root == octree.nodes@.len() - 1,
    {
        self.execute_internal::<true>(grid, depth, world_size_bits)
    }

    /// Shared implementation, generic over the pruning policy so the pruned
    /// traversal can be compared with the exhaustive one. Pruning changes
    /// neither the nodes nor their numbering: either way the arena is
    /// [`octree_arena`], which does not depend on it.
    pub fn execute_internal<const PRUNE_OUTSIDE: bool>(
        &self,
        grid: &VoxelGrid,
        depth: u32,
        world_size_bits: u32,
    ) -> (octree: SparseVoxelOctree)
        requires
            grid.wf(),
            depth < 32,
            arena_bound(depth as nat) < u32::MAX,
        ensures
            octree.wf(),
            octree.depth == depth,
            octree.world_size_bits == world_size_bits,
            forall|x: int, y: int, z: int|
                in_cube(x, y, z, depth as nat) ==> #[trigger] octree.voxel(x, y, z) == grid_attrs(
                    self.spec_palette(),
                    grid@,
                    x,
                    y,
                    z,
                ),
            octree.nodes@ == octree_arena(self.spec_palette(), grid@, depth as nat),
            octree.root == octree.nodes@.len() - 1,
    {
        let mut nodes: Vec<SvoNode> = Vec::new();
        let root_node = self.build_recursive::<PRUNE_OUTSIDE>(grid, &mut nodes, OctreeRegion::root(depth));
        let ghost before = nodes@;
        let root = nodes.len();
        nodes.push(root_node);
        proof {
            let field = grid_field(self.palette, grid@);
            assert(is_prefix(before, nodes@)) by {
                assert(nodes@.subrange(0, before.len() as int) =~= before);
            }
            lemma_extend_represents(before, nodes@, root_node, field, 0, 0, 0, depth as nat);
            assert(nodes@[root as int] == root_node);
            assert(nodes@ =~= octree_arena(self.palette, grid@, depth as nat));
        }
        SparseVoxelOctree { root, nodes, depth, world_size_bits }
    }

    fn build_recursive<const PRUNE_OUTSIDE: bool>(
        &self,
        grid: &VoxelGrid,
        nodes: &mut Vec<SvoNode>,
        region: OctreeRegion,
    ) -> (n: SvoNode)
        requires
            grid.wf(),
            region.valid(),
            old(nodes)@.len() + arena_bound(region.depth as nat) <= u32::MAX,
        ensures
            is_prefix(old(nodes)@, final(nodes)@),
            final(nodes)@.len() <= old(nodes)@.len() + arena_bound(region.depth as nat),
            final(nodes)@ == old(nodes)@ + built(
                grid_field(self.palette, grid@),
                region.origin[0] as int,
                region.origin[1] as int,
                region.origin[2] as int,
                region.depth as nat,
                old(nodes)@.len() as int,
            ).0,
            n == built(
                grid_field(self.palette, grid@),
                region.origin[0] as int,
                region.origin[1] as int,
                region.origin[2] as int,
                region.depth as nat,
                old(nodes)@.len() as int,
            ).1,
            represents(
                final(nodes)@,
                n,
                grid_field(self.palette, grid@),
                region.origin[0] as int,
                region.origin[1] as int,
                region.origin[2] as int,
                region.depth as nat,
            ),
        decreases region.depth,
    {
        let ghost field = grid_field(self.palette, grid@);
        let ghost (ox, oy, oz) = (region.origin[0] as int, region.origin[1] as int, region.origin[2] as int);
        let ghost d = region.depth as nat;
        proof {
            assert(is_prefix(nodes@, nodes@)) by {
                assert(nodes@.subrange(0, nodes@.len() as int) =~= nodes@);
            }
        }
        // Every coordinate sampled outside the dense grid is canonical air,
        // and cubes only extend in the positive direction.
        if PRUNE_OUTSIDE && self.region_is_outside_grid(grid, region.origin) {
            proof {
                assert forall|x: int, y: int, z: int| in_cube(x, y, z, d) implies #[trigger] lookup(
                    nodes@,
                    air_leaf(),
                    x,
                    y,
                    z,
                    d,
                ) == field(ox + x, oy + y, oz + z) by {
                    assert(!grid@.in_bounds(ox + x, oy + y, oz + z));
                }
                assert forall|x: int, y: int, z: int| in_cube(x, y, z, d) implies #[trigger] field(ox + x, oy + y, oz + z)
                    == air() by {
                    assert(!grid@.in_bounds(ox + x, oy + y, oz + z));
                }
                lemma_uniform_cube_built(field, ox, oy, oz, d, nodes@.len() as int, air());
                assert(leaf_of(air()) == air_leaf()) by {
                    assert(air().2 =~= [0u8, 0u8, 0u8]);
                }
                assert(nodes@ + Seq::<SvoNode>::empty() =~= nodes@);
            }
            return air_leaf_exec();
        }
        if region.depth == 0 {
            let (v_type, color, ll, fo) = self.get_voxel_attrs(grid, region.origin[0], region.origin[1], region.origin[2]);
            let leaf = SvoNode::Leaf { voxel_type: v_type, color, light_rgb: ll, face_occlusion: fo };
            proof {
                vstd::arithmetic::power2::lemma2_to64();
                assert forall|x: int, y: int, z: int| in_cube(x, y, z, d) implies #[trigger] lookup(
                    nodes@,
                    leaf,
                    x,
                    y,
                    z,
                    d,
                ) == field(ox + x, oy + y, oz + z) by {
                    assert(x == 0 && y == 0 && z == 0);
                }
                assert(nodes@ + Seq::<SvoNode>::empty() =~= nodes@);
            }
            return leaf;
        }
        let ghost dd = (d - 1) as nat;
        proof {
            lemma_pow2_unfold(d);
            lemma_pow2_pos(dd);
        }
        let ghost start = nodes@;
        let mut children: Vec<SvoNode> = Vec::new();
        let mut octant_idx: u32 = 0;
        while octant_idx < 8
            invariant
                grid.wf(),
                region.valid(),
                region.depth > 0,
                d == region.depth,
                dd == d - 1,
                field == grid_field(self.palette, grid@),
                ox == region.origin[0] as int,
                oy == region.origin[1] as int,
                oz == region.origin[2] as int,
                start.len() + arena_bound(d) <= u32::MAX,
                arena_bound(d) == 8 + 8 * arena_bound(dd),
                0 <= octant_idx <= 8,
                children@.len() == octant_idx,
                is_prefix(start, nodes@),
                nodes@.len() <= start.len() + octant_idx * arena_bound(dd),
                nodes@ == start + built_children(grid_field(self.palette, grid@), ox, oy, oz, d, start.len() as int, octant_idx as nat).0,
                children@ == built_children(grid_field(self.palette, grid@), ox, oy, oz, d, start.len() as int, octant_idx as nat).1,
                forall|k: int|
                    0 <= k < octant_idx ==> represents(
                        nodes@,
                        #[trigger] children@[k],
                        field,
                        ox + octant_dx(k) * pow2(dd),
                        oy + octant_dy(k) * pow2(dd),
                        oz + octant_dz(k) * pow2(dd),
                        dd,
                    ),
            decreases 8 - octant_idx,
        {
            let ghost prev = nodes@;
            let child_region = region.child(octant_idx);
            proof {
                assert(octant_idx * arena_bound(dd) + arena_bound(dd) <= 8 * arena_bound(dd)) by (nonlinear_arith)
                    requires
                        octant_idx < 8,
                ;
            }
            let child = self.build_recursive::<PRUNE_OUTSIDE>(grid, nodes, child_region);
            proof {
                assert(is_prefix(start, nodes@)) by {
                    assert(nodes@.subrange(0, start.len() as int) =~= nodes@.subrange(0, prev.len() as int).subrange(0, start.len() as int));
                }
                assert((octant_idx + 1) * arena_bound(dd) == octant_idx * arena_bound(dd) + arena_bound(dd)) by (nonlinear_arith);
                assert forall|k: int| 0 <= k < octant_idx implies represents(
                    nodes@,
                    #[trigger] children@[k],
                    field,
                    ox + octant_dx(k) * pow2(dd),
                    oy + octant_dy(k) * pow2(dd),
                    oz + octant_dz(k) * pow2(dd),
                    dd,
                ) by {
                    lemma_extend_represents(
                        prev,
                        nodes@,
                        children@[k],
                        field,
                        ox + octant_dx(k) * pow2(dd),
                        oy + octant_dy(k) * pow2(dd),
                        oz + octant_dz(k) * pow2(dd),
                        dd,
                    );
                }
                assert(child_region.size as nat == pow2(dd));
                let bc = built_children(grid_field(self.palette, grid@), ox, oy, oz, d, start.len() as int, octant_idx as nat);
                assert(prev.len() == start.len() + bc.0.len());
                assert(nodes@ =~= start + (bc.0 + built(
                    grid_field(self.palette, grid@),
                    child_region.origin[0] as int,
                    child_region.origin[1] as int,
                    child_region.origin[2] as int,
                    dd,
                    prev.len() as int,
                ).0));
            }
            children.push(child);
            octant_idx = octant_idx + 1;
        }
        // Eight identical leaves collapse into one.
        let mut uniform = true;
        let mut k: usize = 0;
        while k < 8
            invariant
                children@.len() == 8,
                0 <= k <= 8,
                uniform == forall|j: int|
                    0 <= j < k ==> #[trigger] children@[j] is Leaf && leaf_attrs(children@[j])
                        == leaf_attrs(children@[0]),
            decreases 8 - k,
        {
            if !same_leaf(&children[k], &children[0]) {
                uniform = false;
            }
            k = k + 1;
        }
        if uniform {
            let leaf = leaf_copy(&children[0]);
            proof {
                lemma_uniform_represents(nodes@, children@, leaf, field, ox, oy, oz, d);
                assert(nodes@.len() <= start.len() + arena_bound(d));
                assert(all_same_leaf(children@));
            }
            return leaf;
        }
        // Push the eight children contiguously.
        let ghost before = nodes@;
        let child_base_index = nodes.len() as u32;
        let mut child_mask: u8 = 0;
        proof {
            assert forall|j: int| 0 <= j < 8 implies !mask_has(0u8, j) by {
                lemma_mask_empty(j as u8);
            }
        }
        let mut k: usize = 0;
        while k < 8
            invariant
                children@.len() == 8,
                0 <= k <= 8,
                nodes@ == before + children@.subrange(0, k as int),
                forall|j: int|
                    0 <= j < k ==> (mask_has(child_mask, j) <==> !(#[trigger] children@[j] matches SvoNode::Leaf {
                        voxel_type,
                        ..
                    } && voxel_type == 0)),
                forall|j: int| k <= j < 8 ==> !mask_has(child_mask, j),
                child_mask == mask_upto(children@, k as nat),
            decreases 8 - k,
        {
            let child = children[k];
            let occupied = match child {
                SvoNode::Leaf { voxel_type, .. } => voxel_type != 0,
                SvoNode::Internal { .. } => true,
            };
            let ghost old_mask = child_mask;
            if occupied {
                child_mask = child_mask | (1u8 << (k as u8));
            }
            proof {
                assert forall|j: int| 0 <= j < 8 implies mask_has(child_mask, j) == (if j == k {
                    occupied
                } else {
                    mask_has(old_mask, j)
                }) by {
                    if occupied {
                        lemma_mask_set(old_mask, k as u8, j as u8);
                    }
                }
            }
            nodes.push(child);
            proof {
                assert(nodes@ =~= before + children@.subrange(0, k + 1));
            }
            k = k + 1;
        }
        let node = SvoNode::Internal { child_base_index, child_mask };
        proof {
            assert(children@.subrange(0, 8) =~= children@);
            lemma_internal_represents(before, children@, node, field, ox, oy, oz, d);
            assert(!all_same_leaf(children@));
            assert(nodes@ =~= start + (built_children(grid_field(self.palette, grid@), ox, oy, oz, d, start.len() as int, 8).0
                + children@));
            assert(is_prefix(start, nodes@)) by {
                assert(nodes@.subrange(0, start.len() as int) =~= before.subrange(0, start.len() as int));
            }
        }
        node
    }

    fn region_is_outside_grid(&self, grid: &VoxelGrid, origin: [u32; 3]) -> (r: bool)
        requires
            grid.wf(),
        ensures
            r == (origin[0] >= grid@.width || origin[1] >= grid@.height || origin[2] >= grid@.depth),
    {
        origin[0] as usize >= grid.width() || origin[1] as usize >= grid.height() || origin[2] as usize
            >= grid.depth()
    }

    /// The attributes of one grid voxel; air outside the grid.
    pub fn get_voxel_attrs(&self, grid: &VoxelGrid, x: u32, y: u32, z: u32) -> (r: VoxelAttrs)
        requires
            grid.wf(),
        ensures
            r == grid_attrs(self.spec_palette(), grid@, x as int, y as int, z as int),
    {
        if x as usize >= grid.width() || y as usize >= grid.height() || z as usize >= grid.depth() {
            return (0u8, 0u32, [0u8, 0u8, 0u8], 0u8);
        }
        let v_id = grid.get(x as usize, y as usize, z as usize);
        if v_id == VOXEL_AIR {
            return (0u8, 0u32, [0u8, 0u8, 0u8], 0u8);
        }
        let ll = grid.get_light_rgb(x as usize, y as usize, z as usize);
        let fo = grid.get_face_occlusion(x as usize, y as usize, z as usize);
        let base_color = self.palette.color(v_id);
        (v_id, base_color, ll, fo)
    }
}

pub open spec fn air_leaf() -> SvoNode {
    SvoNode::Leaf { voxel_type: 0, color: 0, light_rgb: [0u8, 0u8, 0u8], face_occlusion: 0 }
}

fn air_leaf_exec() -> (n: SvoNode)
    ensures
        n == air_leaf(),
{
    SvoNode::Leaf { voxel_type: 0, color: 0, light_rgb: [0u8, 0u8, 0u8], face_occlusion: 0 }
}

/// Whether `a` is a leaf with exactly the attributes of leaf `b`.
pub fn same_leaf(a: &SvoNode, b: &SvoNode) -> (r: bool)
    ensures
        r == (a is Leaf && b is Leaf && leaf_attrs(*a) == leaf_attrs(*b)),
{
    match (a, b) {
        (
            SvoNode::Leaf { voxel_type: t1, color: c1, light_rgb: l1, face_occlusion: f1 },
            SvoNode::Leaf { voxel_type: t2, color: c2, light_rgb: l2, face_occlusion: f2 },
        ) => {
            let r = *t1 == *t2 && *c1 == *c2 && l1[0] == l2[0] && l1[1] == l2[1] && l1[2] == l2[2]
                && *f1 == *f2;
            proof {
                if *t1 == *t2 && *c1 == *c2 && l1[0] == l2[0] && l1[1] == l2[1] && l1[2] == l2[2] && *f1 == *f2 {
                    assert(*l1 =~= *l2);
                }
            }
            r
        },
        _ => false,
    }
}

fn leaf_copy(n: &SvoNode) -> (r: SvoNode)
    requires
        *n is Leaf,
    ensures
        r == *n,
{
    *n
}

} // verus!
