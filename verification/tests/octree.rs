use vackrooms::brick_pool::build_brick_pool;
use vackrooms::build_octree::BuildOctreeUseCase;
use vackrooms::build_octree_direct::{build_octree_direct, GridSampler};
use vackrooms::compress_svdag::compress_svdag;
use vackrooms::ports::ColorTable;
use vackrooms::svo::{SparseVoxelOctree, SvoNode};
use vackrooms::voxel_grid::{
    VoxelGrid, VOXEL_CEILING, VOXEL_FLOOR, VOXEL_RED_WALL, VOXEL_WALL,
};

const FACE_OCCLUDED_POSITIVE_Y: u8 = 1 << 2;
const FACE_OCCLUDED_NEGATIVE_X: u8 = 1 << 1;

/// The shipped look: walls in the familiar yellow.
fn default_palette() -> ColorTable {
    let mut colors = vec![0x808080u32; 32];
    colors[VOXEL_WALL as usize] = 0xddcc66;
    colors[VOXEL_FLOOR as usize] = 0x8a7a4a;
    colors[VOXEL_CEILING as usize] = 0xeeeecc;
    colors[VOXEL_RED_WALL as usize] = 0xaa1111;
    ColorTable { colors }
}

fn test_palette() -> ColorTable {
    ColorTable { colors: (0..=255u32).map(|m| m * 0x010101).collect() }
}

fn bits(size: f32) -> u32 {
    size.to_bits()
}

fn traversal_call_count<const PRUNE_OUTSIDE: bool>(
    dimensions: [u32; 3],
    origin: [u32; 3],
    depth: u32,
) -> usize {
    if PRUNE_OUTSIDE
        && (origin[0] >= dimensions[0] || origin[1] >= dimensions[1] || origin[2] >= dimensions[2])
    {
        return 1;
    }
    if depth == 0 {
        return 1;
    }
    let child_size = 1 << (depth - 1);
    let mut calls = 1;
    for octant in 0..8u32 {
        calls += traversal_call_count::<PRUNE_OUTSIDE>(
            dimensions,
            [
                origin[0] + (octant & 1) * child_size,
                origin[1] + ((octant >> 1) & 1) * child_size,
                origin[2] + ((octant >> 2) & 1) * child_size,
            ],
            depth - 1,
        );
    }
    calls
}

#[test]
fn test_empty_grid_collapses_to_single_root_leaf() {
    let grid = VoxelGrid::new(4, 4, 4);
    let palette = default_palette();
    let builder = BuildOctreeUseCase::new(&palette);
    let svo = builder.execute(&grid, 2, bits(4.0));
    assert_eq!(svo.nodes.len(), 1);
    match svo.nodes[svo.root] {
        SvoNode::Leaf { voxel_type, .. } => assert_eq!(voxel_type, 0),
        _ => panic!("Expected root to be a collapsed leaf node"),
    }
}

#[test]
fn test_single_voxel_splits_octree() {
    let mut grid = VoxelGrid::new(4, 4, 4);
    grid.set(0, 0, 0, VOXEL_WALL);
    let palette = default_palette();
    let builder = BuildOctreeUseCase::new(&palette);
    let svo = builder.execute(&grid, 2, bits(4.0));
    assert!(svo.nodes.len() > 1);
    match svo.nodes[svo.root] {
        SvoNode::Internal { child_mask, .. } => {
            assert!(child_mask > 0);
        }
        _ => panic!("Expected root to be an internal parent node"),
    }
    let val = svo.get(0, 0, 0);
    assert!(val.is_some());
    let (v_type, color, _, _) = val.unwrap();
    assert_eq!(v_type, VOXEL_WALL);
    assert_eq!(color, 0xddcc66);
}

#[test]
fn octree_uses_the_injected_presentation_palette() {
    let mut grid = VoxelGrid::new(1, 1, 1);
    grid.set(0, 0, 0, VOXEL_RED_WALL);
    let palette = test_palette();
    let svo = BuildOctreeUseCase::new(&palette).execute(&grid, 0, bits(1.0));
    assert_eq!(svo.get(0, 0, 0).unwrap().1, 0x050505);
}

#[test]
fn outside_pruning_preserves_non_power_of_two_tree_and_lookups() {
    let mut grid = VoxelGrid::new(5, 3, 6);
    grid.set(0, 0, 0, VOXEL_WALL);
    grid.set_light_rgb(0, 0, 0, [7, 5, 3]);
    grid.set_face_occlusion(0, 0, 0, FACE_OCCLUDED_POSITIVE_Y);
    grid.set(3, 1, 4, VOXEL_CEILING);
    grid.set_light_rgb(3, 1, 4, [2, 4, 6]);
    grid.set(4, 2, 5, VOXEL_RED_WALL);
    grid.set_face_occlusion(4, 2, 5, FACE_OCCLUDED_NEGATIVE_X);

    let palette = default_palette();
    let builder = BuildOctreeUseCase::new(&palette);
    let optimized = builder.execute_internal::<true>(&grid, 3, bits(8.0));
    let exhaustive = builder.execute_internal::<false>(&grid, 3, bits(8.0));
    assert_eq!(optimized, exhaustive, "pruning must not renumber or alter nodes");
    for z in 0..8 {
        for y in 0..8 {
            for x in 0..8 {
                assert_eq!(optimized.get(x, y, z), exhaustive.get(x, y, z));
            }
        }
    }
    let dimensions = [grid.width() as u32, grid.height() as u32, grid.depth() as u32];
    let optimized_calls = traversal_call_count::<true>(dimensions, [0; 3], 3);
    let exhaustive_calls = traversal_call_count::<false>(dimensions, [0; 3], 3);
    assert_eq!(optimized_calls, 185);
    assert_eq!(exhaustive_calls, 585);
    assert!(optimized_calls * 3 <= exhaustive_calls);
}

fn structured_grid() -> VoxelGrid {
    let mut grid = VoxelGrid::new(13, 7, 11);
    for z in 0..11 {
        for x in 0..13 {
            grid.set(x, 0, z, VOXEL_FLOOR);
            grid.set(x, 6, z, VOXEL_CEILING);
            if (x * 7 + z * 3) % 5 == 0 {
                grid.set(x, 1 + (x + z) % 5, z, VOXEL_WALL);
                grid.set_light_rgb(x, 1 + (x + z) % 5, z, [(x % 16) as u8, 3, 9]);
                grid.set_face_occlusion(x, 1 + (x + z) % 5, z, ((x + z) % 64) as u8);
            }
        }
    }
    grid
}

#[test]
fn direct_emission_reproduces_the_dense_builder_arena_exactly() {
    let grid = structured_grid();
    let palette = default_palette();
    let dense = BuildOctreeUseCase::new(&palette).execute(&grid, 4, bits(16.0));
    let sampler = GridSampler { grid: &grid, palette: &palette };
    let direct = build_octree_direct(&sampler, 4, bits(16.0));
    assert_eq!(direct, dense, "the two build paths must be interchangeable");
}

/// The attributes of the deterministic pseudo-random fill: a slab of solid,
/// a void, and a noisy band, each voxel with its own color, light and
/// occlusion.
fn populated_voxel(extent: u32, x: u32, y: u32, z: u32) -> (u8, u32, [u8; 3], u8) {
    let solid = y < extent / 4 || (y > extent / 2 && (x * 7 + y * 13 + z * 29) % 5 == 0);
    if !solid {
        return (0, 0, [0; 3], 0);
    }
    (
        ((x + y + z) % 7 + 1) as u8,
        0x00AB_CDEF ^ (x * 131 + z * 17),
        [(x % 16) as u8, (y % 16) as u8, (z % 16) as u8],
        (x % 64) as u8,
    )
}

/// Appends the full subtree of the cube at `origin` with edge `size`,
/// returning its node; every voxel gets its own leaf.
fn emit_full(nodes: &mut Vec<SvoNode>, extent: u32, origin: [u32; 3], size: u32) -> SvoNode {
    if size == 1 {
        let (voxel_type, color, light_rgb, face_occlusion) =
            populated_voxel(extent, origin[0], origin[1], origin[2]);
        return SvoNode::Leaf { voxel_type, color, light_rgb, face_occlusion };
    }
    let half = size / 2;
    let mut children = Vec::new();
    let mut mask = 0u8;
    for octant in 0..8u32 {
        let child_origin = [
            origin[0] + (octant & 1) * half,
            origin[1] + ((octant >> 1) & 1) * half,
            origin[2] + ((octant >> 2) & 1) * half,
        ];
        let child = emit_full(nodes, extent, child_origin, half);
        if child != (SvoNode::Leaf { voxel_type: 0, color: 0, light_rgb: [0; 3], face_occlusion: 0 }) {
            mask |= 1 << octant;
        }
        children.push(child);
    }
    let base = nodes.len() as u32;
    nodes.extend(children);
    SvoNode::Internal { child_base_index: base, child_mask: mask }
}

fn populated_octree(depth: u32) -> SparseVoxelOctree {
    let mut nodes = Vec::new();
    let root_node = emit_full(&mut nodes, 1 << depth, [0; 3], 1 << depth);
    let root = nodes.len();
    nodes.push(root_node);
    SparseVoxelOctree { root, nodes, depth, world_size_bits: bits(10.0) }
}

#[test]
fn every_voxel_survives_the_round_trip() {
    for depth in [4, 5, 6] {
        let octree = populated_octree(depth);
        let pool = build_brick_pool(&octree);
        assert_eq!(pool.depth, octree.depth);
        let extent = 1u32 << depth;
        for z in 0..extent {
            for y in 0..extent {
                for x in 0..extent {
                    assert_eq!(pool.get(x, y, z), octree.get(x, y, z));
                }
            }
        }
    }
}

#[test]
fn bricks_collapse_the_bottom_of_the_tree() {
    let octree = populated_octree(6);
    let pool = build_brick_pool(&octree);
    assert!(
        pool.nodes.len() < octree.nodes.len() / 4,
        "expected a large node reduction, got {} from {}",
        pool.nodes.len(),
        octree.nodes.len()
    );
    assert!(pool.brick_count() > 0, "a noisy world must produce bricks");
}

#[test]
fn uniform_subtrees_cost_no_brick() {
    let empty = SparseVoxelOctree::new(6, bits(10.0));
    let pool = build_brick_pool(&empty);
    assert_eq!(pool.brick_count(), 0);
    assert_eq!(pool.nodes.len(), 1);
    assert_eq!(pool.get(0, 0, 0), Some((0, 0, [0; 3], 0)));
}

#[test]
fn coordinates_outside_the_volume_are_rejected() {
    let pool = build_brick_pool(&populated_octree(4));
    assert_eq!(pool.get(16, 0, 0), None);
    assert_eq!(pool.get(0, 99, 0), None);
}

fn repetitive_grid() -> VoxelGrid {
    let mut grid = VoxelGrid::new(16, 8, 16);
    for z in 0..16 {
        for x in 0..16 {
            grid.set(x, 0, z, VOXEL_FLOOR);
            grid.set(x, 7, z, VOXEL_CEILING);
            if x % 4 == 0 && z % 4 == 0 {
                for y in 1..7 {
                    grid.set(x, y, z, VOXEL_WALL);
                }
            }
        }
    }
    grid
}

fn build(grid: &VoxelGrid) -> SparseVoxelOctree {
    let palette = default_palette();
    BuildOctreeUseCase::new(&palette).execute(grid, 4, bits(16.0))
}

#[test]
fn every_lookup_survives_compression_unchanged() {
    let svo = build(&repetitive_grid());
    let (dag, _) = compress_svdag(&svo);
    assert_eq!(dag.depth, svo.depth);
    assert_eq!(dag.world_size_bits, svo.world_size_bits);
    for z in 0..16 {
        for y in 0..16 {
            for x in 0..16 {
                assert_eq!(dag.get(x, y, z), svo.get(x, y, z), "at ({x},{y},{z})");
            }
        }
    }
}

#[test]
fn repeated_modules_share_one_subtree() {
    let svo = build(&repetitive_grid());
    let (_, stats) = compress_svdag(&svo);
    assert_eq!(stats.nodes_before, svo.nodes.len());
    assert!(
        stats.nodes_after * 2 <= stats.nodes_before,
        "expected >=2x arena reduction on periodic architecture, got {} -> {}",
        stats.nodes_before,
        stats.nodes_after
    );
}

#[test]
fn compression_is_idempotent() {
    let svo = build(&repetitive_grid());
    let (once, first) = compress_svdag(&svo);
    let (_, twice) = compress_svdag(&once);
    assert_eq!(twice.nodes_after, first.nodes_after);
}

#[test]
fn leaf_only_octree_passes_through() {
    let grid = VoxelGrid::new(4, 4, 4);
    let svo = build(&grid);
    let (dag, stats) = compress_svdag(&svo);
    assert_eq!(stats.nodes_after, 1);
    assert_eq!(dag.get(0, 0, 0), svo.get(0, 0, 0));
}

#[test]
fn the_brick_pool_of_a_compressed_octree_reads_the_same() {
    let svo = build(&repetitive_grid());
    let (dag, _) = compress_svdag(&svo);
    let pool = build_brick_pool(&dag);
    for z in 0..16 {
        for y in 0..16 {
            for x in 0..16 {
                assert_eq!(pool.get(x, y, z), svo.get(x, y, z));
            }
        }
    }
}

#[test]
fn compressed_child_blocks_start_on_multiples_of_eight() {
    let svo = build(&repetitive_grid());
    let (dag, _) = compress_svdag(&svo);
    assert_eq!(dag.nodes.len() % 8, 1);
    assert_eq!(dag.root, dag.nodes.len() - 1);
    for node in &dag.nodes {
        if let SvoNode::Internal { child_base_index, .. } = node {
            assert_eq!(child_base_index % 8, 0);
        }
    }
}

fn leaf(voxel_type: u8, color: u32, light_rgb: [u8; 3], face_occlusion: u8) -> SvoNode {
    SvoNode::Leaf { voxel_type, color, light_rgb, face_occlusion }
}

#[test]
fn bricks_keep_the_packed_bits_of_wide_voxels() {
    // Two levels: the root's eight children are voxels, so the whole tree
    // becomes one brick.
    let mut nodes = vec![leaf(0, 0, [0; 3], 0); 8];
    nodes[0] = leaf(7, 0xAB12_3456, [0x1F, 0x22, 0x0F], 0x3C);
    nodes[3] = leaf(2, 0x00DD_CC66, [3, 4, 5], 1);
    let root = nodes.len();
    nodes.push(SvoNode::Internal { child_base_index: 0, child_mask: 0b0000_1001 });
    let octree = SparseVoxelOctree { root, nodes, depth: 1, world_size_bits: bits(2.0) };
    let pool = build_brick_pool(&octree);
    assert_eq!(pool.brick_count(), 1);
    assert_eq!(pool.get(0, 0, 0), Some((7, 0x0012_3456, [0xF, 0x2, 0xF], 0x3C)));
    assert_eq!(pool.get(1, 1, 0), Some((2, 0x00DD_CC66, [3, 4, 5], 1)));
    assert_eq!(pool.get(1, 0, 0), Some((0, 0, [0; 3], 0)));
}

#[test]
fn uniform_subtrees_keep_wide_voxels_whole() {
    let nodes = vec![leaf(7, 0xAB12_3456, [200, 100, 50], 9)];
    let octree = SparseVoxelOctree { root: 0, nodes, depth: 3, world_size_bits: bits(8.0) };
    let pool = build_brick_pool(&octree);
    assert_eq!(pool.brick_count(), 0);
    assert_eq!(pool.get(5, 2, 7), Some((7, 0xAB12_3456, [200, 100, 50], 9)));
}
