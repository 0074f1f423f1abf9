//! Direct-to-SVO emission: build the octree straight from a sampling
//! function, with no dense intermediate grid.
//!
//! A sampler that can prove a whole cube uniform lets the builder emit one
//! leaf and never descend, so cost tracks the surface of the geometry, not
//! its volume. The arena layout (children contiguous per block, root pushed
//! last, uniform blocks collapsed to a leaf) matches the dense builder.

use vstd::prelude::*;
use vstd::arithmetic::power2::{pow2, lemma_pow2_unfold, lemma_pow2_pos};
use crate::build_octree::{
    OctreeRegion, all_same_leaf, arena_bound, built, built_children, field_arena, grid_attrs, grid_field, leaf_of,
    lemma_uniform_cube_built, mask_upto, octree_arena, same_leaf,
};
use crate::ports::MaterialPalette;
use crate::svo::{
    SparseVoxelOctree, SvoNode, VoxelAttrs, air, canonical_air, in_cube, is_prefix, leaf_attrs,
    lemma_extend_lookup, lemma_mask_empty, lemma_mask_set, lemma_octant_split, lemma_shl_pow2,
    lemma_wf_intro, local_coord, lookup, mask_has, octant_dx, octant_dy, octant_dz, octant_of,
    represents, wf_node,
};
use crate::voxel_grid::{VoxelGrid, VOXEL_AIR};

verus! {

/// The attributes of one voxel as the octree stores them.
#[derive(Debug, Clone, Copy, PartialEq, Eq)]
pub struct SvoLeaf {
    pub voxel_type: u8,
    pub color: u32,
    pub light_rgb: [u8; 3],
    pub face_occlusion: u8,
}

pub open spec fn attrs_of(leaf: SvoLeaf) -> VoxelAttrs {
    (leaf.voxel_type, leaf.color, leaf.light_rgb, leaf.face_occlusion)
}

impl SvoLeaf {
    /// The canonical air voxel.
    pub fn air() -> (leaf: SvoLeaf)
        ensures
            attrs_of(leaf) == air(),
    {
        SvoLeaf { voxel_type: VOXEL_AIR, color: 0, light_rgb: [0u8, 0u8, 0u8], face_occlusion: 0 }
    }

    pub fn to_node(self) -> (node: SvoNode)
        ensures
            node is Leaf,
            leaf_attrs(node) == attrs_of(self),
            node == leaf_of(attrs_of(self)),
    {
        SvoNode::Leaf {
            voxel_type: self.voxel_type,
            color: self.color,
            light_rgb: self.light_rgb,
            face_occlusion: self.face_occlusion,
        }
    }
}

/// A volume the builder can sample point-wise, plus an optional proof that a
/// whole cube is uniform. A hint must never be wrong, only conservative.
pub trait VoxelSampler {
    /// The sampler is ready to answer queries.
    spec fn ready(&self) -> bool;

    /// What the sampler answers at `(x, y, z)`.
    spec fn spec_sample(&self, x: int, y: int, z: int) -> SvoLeaf;

    fn sample(&self, x: u32, y: u32, z: u32) -> (leaf: SvoLeaf)
        requires
            self.ready(),
        ensures
            leaf == self.spec_sample(x as int, y as int, z as int),
    ;

    /// `Some(leaf)` when every voxel of the cube at `origin` with edge `size`
    /// has these attributes; `None` just means "descend".
    fn uniform_hint(&self, origin: [u32; 3], size: u32) -> (hint: Option<SvoLeaf>)
        requires
            self.ready(),
        ensures
            hint matches Some(leaf) ==> forall|x: int, y: int, z: int|
                origin[0] <= x < origin[0] + size && origin[1] <= y < origin[1] + size && origin[2] <= z
                    < origin[2] + size ==> #[trigger] self.spec_sample(x, y, z) == leaf,
    ;
}

pub open spec fn sampler_field<S: VoxelSampler>(sampler: &S) -> spec_fn(int, int, int) -> VoxelAttrs {
    |x: int, y: int, z: int| attrs_of(sampler.spec_sample(x, y, z))
}

/// Adapts a dense grid (plus presentation palette) to the sampler port.
/// Out-of-grid coordinates are canonical air, and any cube lying entirely
/// past the grid proves itself uniform.
pub struct GridSampler<'a, P: MaterialPalette> {
    pub grid: &'a VoxelGrid,
    pub palette: &'a P,
}

impl<'a, P: MaterialPalette> VoxelSampler for GridSampler<'a, P> {
    open spec fn ready(&self) -> bool {
        self.grid.wf()
    }

    open spec fn spec_sample(&self, x: int, y: int, z: int) -> SvoLeaf {
        let g = self.grid@;
        if !g.in_bounds(x, y, z) || g.material(x, y, z) == VOXEL_AIR {
            SvoLeaf { voxel_type: 0, color: 0, light_rgb: [0u8, 0u8, 0u8], face_occlusion: 0 }
        } else {
            SvoLeaf {
                voxel_type: g.material(x, y, z),
                color: self.palette.spec_color(g.material(x, y, z)),
                light_rgb: g.light_at(x, y, z),
                face_occlusion: g.occlusion_at(x, y, z),
            }
        }
    }

    fn sample(&self, x: u32, y: u32, z: u32) -> (leaf: SvoLeaf) {
        let (x, y, z) = (x as usize, y as usize, z as usize);
        if x >= self.grid.width() || y >= self.grid.height() || z >= self.grid.depth() {
            return SvoLeaf { voxel_type: 0, color: 0, light_rgb: [0u8, 0u8, 0u8], face_occlusion: 0 };
        }
        let voxel_type = self.grid.get(x, y, z);
        if voxel_type == VOXEL_AIR {
            return SvoLeaf { voxel_type: 0, color: 0, light_rgb: [0u8, 0u8, 0u8], face_occlusion: 0 };
        }
        SvoLeaf {
            voxel_type,
            color: self.palette.color(voxel_type),
            light_rgb: self.grid.get_light_rgb(x, y, z),
            face_occlusion: self.grid.get_face_occlusion(x, y, z),
        }
    }

    /// Proves a cube uniform exactly when its minimum corner lies past the
    /// grid on some axis; the whole cube is then canonical air.
    fn uniform_hint(&self, origin: [u32; 3], size: u32) -> (hint: Option<SvoLeaf>)
        ensures
            hint is Some <==> (origin[0] >= self.grid@.width || origin[1] >= self.grid@.height || origin[2]
                >= self.grid@.depth),
            hint matches Some(leaf) ==> attrs_of(leaf) == air(),
    {
        let outside = origin[0] as usize >= self.grid.width() || origin[1] as usize >= self.grid.height()
            || origin[2] as usize >= self.grid.depth();
        if outside {
            Some(SvoLeaf { voxel_type: 0, color: 0, light_rgb: [0u8, 0u8, 0u8], face_occlusion: 0 })
        } else {
            None
        }
    }
}

/// A grid sampler always answers canonical air for material zero.
pub proof fn lemma_grid_sampler_canonical<P: MaterialPalette>(sampler: &GridSampler<P>)
    ensures
        canonical_air(sampler_field(sampler)),
{
}

/// The sampling build and the dense build describe the same volume: a grid
/// sampler answers at every point exactly the voxel the dense builder reads
/// from the grid, so the two octrees agree at every voxel of their cube.
pub proof fn law_grid_sampler_matches_dense<P: MaterialPalette>(sampler: &GridSampler<P>, x: int, y: int, z: int)
    ensures
        attrs_of(sampler.spec_sample(x, y, z)) == grid_attrs(sampler.palette, sampler.grid@, x, y, z),
{
}

/// Direct emission reproduces the dense builder's arena exactly: sampling a
/// grid, the direct builder's arena of any depth, node for node and in the
/// same numbering, is the one the dense builder makes from that grid.
pub proof fn law_direct_emission_matches_dense<P: MaterialPalette>(sampler: &GridSampler<P>, depth: nat)
    ensures
        field_arena(sampler_field(sampler), depth) == octree_arena(sampler.palette, sampler.grid@, depth),
{
    assert(sampler_field(sampler) =~= grid_field(sampler.palette, sampler.grid@));
}

/// Builds an SVO of `depth` levels by recursive sampling, emitting leaves
/// for provably uniform cubes without descending into them. For a sampler
/// whose material-zero voxels are canonical air, every voxel of the octree
/// is the sampler's voxel.
pub fn build_octree_direct<S: VoxelSampler>(sampler: &S, depth: u32, world_size_bits: u32) -> (octree: SparseVoxelOctree)
    requires
        sampler.ready(),
        depth < 32,
        arena_bound(depth as nat) < u32::MAX,
    ensures
        octree.wf(),
        octree.depth == depth,
        octree.world_size_bits == world_size_bits,
        canonical_air(sampler_field(sampler)) ==> forall|x: int, y: int, z: int|
            in_cube(x, y, z, depth as nat) ==> #[trigger] octree.voxel(x, y, z) == attrs_of(
                sampler.spec_sample(x, y, z),
            ),
        octree.nodes@ == field_arena(sampler_field(sampler), depth as nat),
        octree.root == octree.nodes@.len() - 1,
{
    let mut nodes: Vec<SvoNode> = Vec::new();
    let region = OctreeRegion::root(depth);
    let root_node = emit_cube(sampler, &mut nodes, region.origin, region.size, depth);
    let ghost before = nodes@;
    let root = nodes.len();
    nodes.push(root_node);
    proof {
        assert(is_prefix(before, nodes@)) by {
            assert(nodes@.subrange(0, before.len() as int) =~= before);
        }
        lemma_extend_lookup(before, nodes@, root_node, depth as nat);
        assert(nodes@[root as int] == root_node);
        assert(nodes@ =~= field_arena(sampler_field(sampler), depth as nat));
    }
    SparseVoxelOctree { root, nodes, depth, world_size_bits }
}

pub open spec fn cube_ok(origin: [u32; 3], size: u32, depth: u32) -> bool {
    &&& depth < 32
    &&& size as nat == pow2(depth as nat)
    &&& origin[0] + size <= 0x1_0000_0000
    &&& origin[1] + size <= 0x1_0000_0000
    &&& origin[2] + size <= 0x1_0000_0000
}

/// Emits the cube at `origin` with edge `size == 2^depth`.
pub fn emit_cube<S: VoxelSampler>(
    sampler: &S,
    nodes: &mut Vec<SvoNode>,
    origin: [u32; 3],
    size: u32,
    depth: u32,
) -> (n: SvoNode)
    requires
        sampler.ready(),
        cube_ok(origin, size, depth),
        old(nodes)@.len() + arena_bound(depth as nat) <= u32::MAX,
    ensures
        is_prefix(old(nodes)@, final(nodes)@),
        final(nodes)@.len() <= old(nodes)@.len() + arena_bound(depth as nat),
        final(nodes)@ == old(nodes)@ + built(
            sampler_field(sampler),
            origin[0] as int,
            origin[1] as int,
            origin[2] as int,
            depth as nat,
            old(nodes)@.len() as int,
        ).0,
        n == built(
            sampler_field(sampler),
            origin[0] as int,
            origin[1] as int,
            origin[2] as int,
            depth as nat,
            old(nodes)@.len() as int,
        ).1,
        wf_node(final(nodes)@, n, depth as nat),
        canonical_air(sampler_field(sampler)) ==> represents(
            final(nodes)@,
            n,
            sampler_field(sampler),
            origin[0] as int,
            origin[1] as int,
            origin[2] as int,
            depth as nat,
        ),
    decreases depth,
{
    let ghost field = sampler_field(sampler);
    let ghost (ox, oy, oz) = (origin[0] as int, origin[1] as int, origin[2] as int);
    let ghost d = depth as nat;
    proof {
        assert(is_prefix(nodes@, nodes@)) by {
            assert(nodes@.subrange(0, nodes@.len() as int) =~= nodes@);
        }
    }
    if let Some(leaf) = sampler.uniform_hint(origin, size) {
        let node = leaf.to_node();
        proof {
            assert forall|x: int, y: int, z: int| in_cube(x, y, z, d) implies #[trigger] lookup(
                nodes@,
                node,
                x,
                y,
                z,
                d,
            ) == field(ox + x, oy + y, oz + z) by {
                assert(sampler.spec_sample(ox + x, oy + y, oz + z) == leaf);
            }
            assert forall|x: int, y: int, z: int| in_cube(x, y, z, d) implies #[trigger] field(ox + x, oy + y, oz + z)
                == attrs_of(leaf) by {
                assert(sampler.spec_sample(ox + x, oy + y, oz + z) == leaf);
            }
            lemma_uniform_cube_built(field, ox, oy, oz, d, nodes@.len() as int, attrs_of(leaf));
            assert(nodes@ + Seq::<SvoNode>::empty() =~= nodes@);
        }
        return node;
    }
    if depth == 0 {
        let node = sampler.sample(origin[0], origin[1], origin[2]).to_node();
        proof {
            vstd::arithmetic::power2::lemma2_to64();
            assert forall|x: int, y: int, z: int| in_cube(x, y, z, d) implies #[trigger] lookup(
                nodes@,
                node,
                x,
                y,
                z,
                d,
            ) == field(ox + x, oy + y, oz + z) by {
                assert(x == 0 && y == 0 && z == 0);
            }
            assert(nodes@ + Seq::<SvoNode>::empty() =~= nodes@);
        }
        return node;
    }
    let ghost dd = (d - 1) as nat;
    proof {
        lemma_pow2_unfold(d);
        lemma_pow2_pos(dd);
    }
    let region = OctreeRegion { origin, size, depth };
    let half = size / 2;
    let ghost start = nodes@;
    let mut children: Vec<SvoNode> = Vec::new();
    let mut octant: u32 = 0;
    while octant < 8
        invariant
            sampler.ready(),
            region.valid(),
            region.origin == origin,
            region.depth == depth,
            depth > 0,
            d == depth,
            dd == d - 1,
            half as nat == pow2(dd),
            field == sampler_field(sampler),
            ox == origin[0] as int,
            oy == origin[1] as int,
            oz == origin[2] as int,
            start.len() + arena_bound(d) <= u32::MAX,
            arena_bound(d) == 8 + 8 * arena_bound(dd),
            0 <= octant <= 8,
            children@.len() == octant,
            is_prefix(start, nodes@),
            nodes@.len() <= start.len() + octant * arena_bound(dd),
            nodes@ == start + built_children(field, ox, oy, oz, d, start.len() as int, octant as nat).0,
            children@ == built_children(field, ox, oy, oz, d, start.len() as int, octant as nat).1,
            forall|k: int| 0 <= k < octant ==> wf_node(nodes@, #[trigger] children@[k], dd),
            canonical_air(field) ==> forall|k: int|
                0 <= k < octant ==> represents(
                    nodes@,
                    #[trigger] children@[k],
                    field,
                    ox + octant_dx(k) * pow2(dd),
                    oy + octant_dy(k) * pow2(dd),
                    oz + octant_dz(k) * pow2(dd),
                    dd,
                ),
        decreases 8 - octant,
    {
        let ghost prev = nodes@;
        let child_region = region.child(octant);
        proof {
            assert(octant * arena_bound(dd) + arena_bound(dd) <= 8 * arena_bound(dd)) by (nonlinear_arith)
                requires
                    octant < 8,
            ;
        }
        let child = emit_cube(sampler, nodes, child_region.origin, half, depth - 1);
        proof {
            assert(is_prefix(start, nodes@)) by {
                assert(nodes@.subrange(0, start.len() as int) =~= nodes@.subrange(0, prev.len() as int).subrange(0, start.len() as int));
            }
            assert((octant + 1) * arena_bound(dd) == octant * arena_bound(dd) + arena_bound(dd)) by (nonlinear_arith);
            assert forall|k: int| 0 <= k < octant implies wf_node(nodes@, #[trigger] children@[k], dd) && (canonical_air(field) ==> represents(
                nodes@,
                children@[k],
                field,
                ox + octant_dx(k) * pow2(dd),
                oy + octant_dy(k) * pow2(dd),
                oz + octant_dz(k) * pow2(dd),
                dd,
            )) by {
                lemma_extend_lookup(prev, nodes@, children@[k], dd);
            }
            let bc = built_children(field, ox, oy, oz, d, start.len() as int, octant as nat);
            assert(prev.len() == start.len() + bc.0.len());
            assert(nodes@ =~= start + (bc.0 + built(
                field,
                child_region.origin[0] as int,
                child_region.origin[1] as int,
                child_region.origin[2] as int,
                dd,
                prev.len() as int,
            ).0));
        }
        children.push(child);
        octant = octant + 1;
    }
    let uniform = uniform_leaf(&children);
    if let Some(leaf) = uniform {
        let node = leaf.to_node();
        proof {
            if canonical_air(field) {
                assert forall|x: int, y: int, z: int| in_cube(x, y, z, d) implies #[trigger] lookup(
                    nodes@,
                    node,
                    x,
                    y,
                    z,
                    d,
                ) == field(ox + x, oy + y, oz + z) by {
                    lemma_octant_split(x, y, z, d);
                    let hf = pow2(dd) as int;
                    let k = octant_of(x, y, z, hf);
                    let c = children@[k];
                    let (lx, ly, lz) = (local_coord(x, hf), local_coord(y, hf), local_coord(z, hf));
                    assert(lookup(nodes@, c, lx, ly, lz, dd) == field(
                        ox + octant_dx(k) * hf + lx,
                        oy + octant_dy(k) * hf + ly,
                        oz + octant_dz(k) * hf + lz,
                    ));
                }
            }
            assert(nodes@.len() <= start.len() + arena_bound(d));
            assert(all_same_leaf(children@));
            assert(node == children@[0]);
        }
        return node;
    }
    let ghost before = nodes@;
    let child_base_index = nodes.len() as u32;
    let mut child_mask: u8 = 0;
    proof {
        assert forall|j: int| 0 <= j < 8 implies !mask_has(0u8, j) by {
            lemma_mask_empty(j as u8);
        }
    }
    let mut k: usize = 0;
    while k < 8
        invariant
            children@.len() == 8,
            0 <= k <= 8,
            nodes@ == before + children@.subrange(0, k as int),
            forall|j: int|
                0 <= j < k ==> (mask_has(child_mask, j) <==> !(#[trigger] children@[j] matches SvoNode::Leaf {
                    voxel_type,
                    ..
                } && voxel_type == 0)),
            forall|j: int| k <= j < 8 ==> !mask_has(child_mask, j),
            child_mask == mask_upto(children@, k as nat),
        decreases 8 - k,
    {
        let child = children[k];
        let occupied = match child {
            SvoNode::Leaf { voxel_type, .. } => voxel_type != VOXEL_AIR,
            SvoNode::Internal { .. } => true,
        };
        let ghost old_mask = child_mask;
        if occupied {
            child_mask = child_mask | (1u8 << (k as u8));
        }
        proof {
            assert forall|j: int| 0 <= j < 8 implies mask_has(child_mask, j) == (if j == k {
                occupied
            } else {
                mask_has(old_mask, j)
            }) by {
                if occupied {
                    lemma_mask_set(old_mask, k as u8, j as u8);
                }
            }
        }
        nodes.push(child);
        proof {
            assert(nodes@ =~= before + children@.subrange(0, k + 1));
        }
        k = k + 1;
    }
    let node = SvoNode::Internal { child_base_index, child_mask };
    proof {
        assert(children@.subrange(0, 8) =~= children@);
        let after = before + children@;
        assert(is_prefix(before, after)) by {
            assert(after.subrange(0, before.len() as int) =~= before);
        }
        assert forall|j: int| 0 <= j < 8 implies #[trigger] wf_node(after, after[child_base_index + j], dd) by {
            assert(after[child_base_index + j] == children@[j]);
            lemma_extend_lookup(before, after, children@[j], dd);
        }
        lemma_wf_intro(after, node, d);
        if canonical_air(field) {
            crate::build_octree::lemma_internal_represents_pub(before, children@, node, field, ox, oy, oz, d);
        }
        assert(!all_same_leaf(children@));
        assert(nodes@ =~= start + (built_children(field, ox, oy, oz, d, start.len() as int, 8).0 + children@));
        assert(is_prefix(start, nodes@)) by {
            assert(nodes@.subrange(0, start.len() as int) =~= before.subrange(0, start.len() as int));
        }
    }
    node
}

/// `Some` when all eight children are leaves with identical attributes.
pub fn uniform_leaf(children: &Vec<SvoNode>) -> (r: Option<SvoLeaf>)
    requires
        children@.len() == 8,
    ensures
        r is Some <==> (forall|k: int| 0 <= k < 8 ==> (#[trigger] children@[k]) is Leaf && leaf_attrs(children@[k]) == leaf_attrs(children@[0])),
        r matches Some(leaf) ==> attrs_of(leaf) == leaf_attrs(children@[0]),
{
    let mut k: usize = 0;
    while k < 8
        invariant
            children@.len() == 8,
            0 <= k <= 8,
            forall|j: int| 0 <= j < k ==> (#[trigger] children@[j]) is Leaf && leaf_attrs(children@[j]) == leaf_attrs(children@[0]),
        decreases 8 - k,
    {
        if !same_leaf(&children[k], &children[0]) {
            return None;
        }
        k = k + 1;
    }
    match children[0] {
        SvoNode::Leaf { voxel_type, color, light_rgb, face_occlusion } => Some(
            SvoLeaf { voxel_type, color, light_rgb, face_occlusion },
        ),
        SvoNode::Internal { .. } => None,
    }
}

} // verus!
