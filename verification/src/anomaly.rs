//! Canonical reality state: which anomaly encounters a wanderer has entered,
//! and how far each has progressed.

use vstd::prelude::*;

verus! {

/// A horizontal world axis.
#[derive(Debug, Clone, Copy, PartialEq, Eq, Hash, Structural)]
pub enum Axis2 {
    X,
    Z,
}

/// A sign along an axis.
#[derive(Debug, Clone, Copy, PartialEq, Eq, Hash, Structural)]
pub enum AxisDirection {
    Positive,
    Negative,
}

/// Progress of one Red Room encounter, in the order it advances.
#[derive(Debug, Clone, Copy, PartialEq, Eq, Hash, Structural)]
pub enum RedRoomPhase {
    Outside,
    Sealed,
    EscapeOpen,
}

/// Position of a phase in its natural progression.
pub open spec fn phase_rank(phase: RedRoomPhase) -> int {
    match phase {
        RedRoomPhase::Outside => 0,
        RedRoomPhase::Sealed => 1,
        RedRoomPhase::EscapeOpen => 2,
    }
}

/// The recorded state of one anomaly instance.
#[derive(Debug, Clone, Copy, PartialEq, Eq, Hash, Structural)]
pub struct AnomalyStateStamp {
    pub instance_id: u64,
    pub epoch: u32,
    /// IEEE-754 bit pattern of the crossing plane, world units; carried
    /// through unchanged.
    pub gate_plane_bits: u32,
    pub axis: Axis2,
    pub direction: AxisDirection,
    pub phase: RedRoomPhase,
    pub loop_count: u8,
    pub last_gate_id: u64,
}

impl AnomalyStateStamp {
    #[allow(clippy::too_many_arguments)]
    pub fn new(
        instance_id: u64,
        epoch: u32,
        gate_plane_bits: u32,
        axis: Axis2,
        direction: AxisDirection,
        phase: RedRoomPhase,
        loop_count: u8,
        last_gate_id: u64,
    ) -> (stamp: Self)
        ensures
            stamp == (AnomalyStateStamp {
                instance_id,
                epoch,
                gate_plane_bits,
                axis,
                direction,
                phase,
                loop_count,
                last_gate_id,
            }),
    {
        AnomalyStateStamp {
            instance_id,
            epoch,
            gate_plane_bits,
            axis,
            direction,
            phase,
            loop_count,
            last_gate_id,
        }
    }
}

/// Every anomaly state the world currently remembers, in arrival order.
#[derive(Debug, Clone)]
pub struct RealitySnapshot {
    stamps: Vec<AnomalyStateStamp>,
}

impl View for RealitySnapshot {
    type V = Seq<AnomalyStateStamp>;

    closed spec fn view(&self) -> Seq<AnomalyStateStamp> {
        self.stamps@
    }
}

impl RealitySnapshot {
    pub fn new(stamps: Vec<AnomalyStateStamp>) -> (snapshot: Self)
        ensures
            snapshot@ == stamps@,
    {
        RealitySnapshot { stamps }
    }

    pub fn stamps(&self) -> (stamps: &[AnomalyStateStamp])
        ensures
            stamps@ == self@,
    {
        self.stamps.as_slice()
    }
}

} // verus!
