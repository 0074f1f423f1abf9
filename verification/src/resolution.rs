//! The integer rules a scene resolution must meet: a whole number of voxels
//! per chunk axis that also tiles the half-resolution proxy, an octree no
//! deeper than every renderer supports, and a dense allocation inside the
//! memory budget.

use vstd::prelude::*;
use vstd::arithmetic::power2::{pow2, lemma2_to64};

verus! {

/// Deepest octree every renderer and serializer supports.
pub const MAX_SUPPORTED_SVO_DEPTH: u32 = 8;
/// The fine axis must also divide into the half-resolution proxy.
pub const PROGRESSIVE_LOD_DIVISOR: u32 = 2;
/// Most dense X/Z voxel columns generated for one chunk, halo included.
pub const MAX_DENSE_CHUNK_COLUMNS: u64 = 40_804;
/// Most dense voxel samples allocated before octree compression.
pub const MAX_DENSE_CHUNK_VOXELS: u64 = 9_874_568;

/// Why an axis resolution cannot be used.
#[derive(Debug, Clone, Copy, PartialEq, Eq, Structural)]
pub enum ResolutionError {
    DoesNotTileProgressiveLod { fine_axis_voxels: u32, divisor: u32 },
    SvoDepthExceedsLimit { required: u32, maximum: u32 },
    DenseChunkBudgetExceeded { required_columns: u64, maximum_columns: u64 },
    DenseVoxelBudgetExceeded { required_voxels: u64, maximum_voxels: u64 },
}

/// `d` is the octree depth an axis of `voxels` cells needs: the exponent
/// of the smallest power of two at least `voxels`, or 32 past the largest
/// `u32` power of two.
pub open spec fn is_depth_for(voxels: u32, d: u32) -> bool {
    &&& d <= 32
    &&& d == 32 ==> voxels > 0x8000_0000u32
    &&& d < 32 ==> pow2(d as nat) >= voxels && (d == 0 || pow2((d - 1) as nat) < voxels)
}

/// `u32::next_power_of_two` and `trailing_zeros`, with 32 where the next
/// power of two does not fit.
pub fn svo_depth_for_axis(voxels: u32) -> (d: u32)
    ensures
        is_depth_for(voxels, d),
{
    proof {
        lemma2_to64();
    }
    let mut d: u32 = 0;
    while d < 32 && (1u64 << (d as u64)) < voxels as u64
        invariant
            d <= 32,
            forall|e: u32| e < d ==> #[trigger] pow2(e as nat) < voxels,
        decreases 32 - d,
    {
        proof {
            vstd::bits::lemma_u64_pow2_no_overflow(d as nat);
            vstd::bits::lemma_u64_shl_is_mul(1u64, d as u64);
        }
        d = d + 1;
    }
    proof {
        if d < 32 {
            vstd::bits::lemma_u64_pow2_no_overflow(d as nat);
            vstd::bits::lemma_u64_shl_is_mul(1u64, d as u64);
            if d > 0 {
                assert(pow2((d - 1) as u32 as nat) < voxels);
            }
        } else {
            assert(pow2(31u32 as nat) < voxels);
        }
    }
    d
}

/// The depth an axis needs is unique.
pub proof fn lemma_depth_unique(voxels: u32, d1: u32, d2: u32)
    requires
        is_depth_for(voxels, d1),
        is_depth_for(voxels, d2),
    ensures
        d1 == d2,
{
    lemma2_to64();
    if d1 < d2 {
        let top: nat = if d2 < 32 { (d2 - 1) as nat } else { 31 };
        if d1 < top {
            vstd::arithmetic::power2::lemma_pow2_strictly_increases(d1 as nat, top);
        }
    } else if d2 < d1 {
        let top: nat = if d1 < 32 { (d1 - 1) as nat } else { 31 };
        if d2 < top {
            vstd::arithmetic::power2::lemma_pow2_strictly_increases(d2 as nat, top);
        }
    }
}

/// The error, if any, for a fine axis of `axis_voxels` cells and a dense
/// height of `height_voxels` cells; the checks run in this order.
pub open spec fn resolution_check(axis_voxels: u32, height_voxels: u64, depth: u32) -> Result<(), ResolutionError> {
    let columns = (axis_voxels + 2) * (axis_voxels + 2);
    let voxels = if columns * height_voxels <= u64::MAX { (columns * height_voxels) as u64 } else { u64::MAX };
    if axis_voxels % PROGRESSIVE_LOD_DIVISOR != 0 {
        Err(ResolutionError::DoesNotTileProgressiveLod { fine_axis_voxels: axis_voxels, divisor: PROGRESSIVE_LOD_DIVISOR })
    } else if depth > MAX_SUPPORTED_SVO_DEPTH {
        Err(ResolutionError::SvoDepthExceedsLimit { required: depth, maximum: MAX_SUPPORTED_SVO_DEPTH })
    } else if columns > MAX_DENSE_CHUNK_COLUMNS {
        Err(
            ResolutionError::DenseChunkBudgetExceeded {
                required_columns: columns as u64,
                maximum_columns: MAX_DENSE_CHUNK_COLUMNS,
            },
        )
    } else if voxels > MAX_DENSE_CHUNK_VOXELS {
        Err(ResolutionError::DenseVoxelBudgetExceeded { required_voxels: voxels, maximum_voxels: MAX_DENSE_CHUNK_VOXELS })
    } else {
        Ok(())
    }
}

/// Checks a fine axis resolution and the dense height it implies.
pub fn check_resolution(axis_voxels: u32, height_voxels: u64) -> (r: Result<(), ResolutionError>)
    ensures
        exists|d: u32| is_depth_for(axis_voxels, d) && r == resolution_check(axis_voxels, height_voxels, d),
{
    let required_depth = svo_depth_for_axis(axis_voxels);
    if axis_voxels % PROGRESSIVE_LOD_DIVISOR != 0 {
        return Err(
            ResolutionError::DoesNotTileProgressiveLod { fine_axis_voxels: axis_voxels, divisor: PROGRESSIVE_LOD_DIVISOR },
        );
    }
    if required_depth > MAX_SUPPORTED_SVO_DEPTH {
        return Err(ResolutionError::SvoDepthExceedsLimit { required: required_depth, maximum: MAX_SUPPORTED_SVO_DEPTH });
    }
    proof {
        lemma2_to64();
        if required_depth < 8 {
            vstd::arithmetic::power2::lemma_pow2_strictly_increases(required_depth as nat, 8);
        }
        assert(axis_voxels <= 256);
    }
    let allocated_axis = axis_voxels as u64 + 2;
    proof {
        assert(allocated_axis * allocated_axis <= 258 * 258) by (nonlinear_arith)
            requires
                allocated_axis <= 258,
        ;
    }
    let required_columns = allocated_axis * allocated_axis;
    if required_columns > MAX_DENSE_CHUNK_COLUMNS {
        return Err(
            ResolutionError::DenseChunkBudgetExceeded {
                required_columns,
                maximum_columns: MAX_DENSE_CHUNK_COLUMNS,
            },
        );
    }
    let required_voxels = match required_columns.checked_mul(height_voxels) {
        Some(v) => v,
        None => u64::MAX,
    };
    if required_voxels > MAX_DENSE_CHUNK_VOXELS {
        return Err(ResolutionError::DenseVoxelBudgetExceeded { required_voxels, maximum_voxels: MAX_DENSE_CHUNK_VOXELS });
    }
    Ok(())
}

} // verus!
