//! Deterministic voxel-world logic: grids, octrees, bricks, cellular
//! automata, hysteresis and the stable addressing of recursive levels.

pub mod voxel_grid;
pub mod determinism;
pub mod anomaly;
pub mod recursive_level;
pub mod cellular_decay;
pub mod ports;
pub mod svo;
pub mod build_octree;
pub mod build_octree_direct;
pub mod brick_pool;
pub mod compress_svdag;
pub mod frame_quality;
pub mod authoring;
pub mod infinite_level;
pub mod levels;
pub mod fabric_ca;
pub mod office_blueprint;
pub mod light_bake;
pub mod architecture;
pub mod air_propagation;
pub mod resolution;
pub mod menger_bsp;
pub mod office_drawing;
