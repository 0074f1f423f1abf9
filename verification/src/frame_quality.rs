//! Frame quality and budget control.
//!
//! Quality tiers degrade at once on a slow frame and upgrade only after a
//! run of consecutive fast frames, so a frame rate hovering at the edge of a
//! threshold cannot make the tier oscillate. Per-frame work is capped by the
//! active tier's chunk and triangle budgets, closest chunks first.

use vstd::prelude::*;
use core::time::Duration;

verus! {

/// Rendering quality tiers, lowest first.
#[derive(Debug, Clone, Copy, PartialEq, Eq, Structural)]
pub enum SurfaceQualityTier {
    UltraLow,
    Low,
    Balanced,
    High,
}

pub open spec fn tier_rank(tier: SurfaceQualityTier) -> int {
    match tier {
        SurfaceQualityTier::UltraLow => 0,
        SurfaceQualityTier::Low => 1,
        SurfaceQualityTier::Balanced => 2,
        SurfaceQualityTier::High => 3,
    }
}

/// The work budgets that come with one tier.
#[derive(Debug, Clone, Copy, PartialEq, Eq, Structural)]
pub struct SurfaceQualityProfile {
    pub tier: SurfaceQualityTier,
    pub max_visible_chunks: usize,
    pub max_triangles_per_frame: usize,
    pub max_dynamic_lights: usize,
}

pub open spec fn profile_for(tier: SurfaceQualityTier) -> SurfaceQualityProfile {
    match tier {
        SurfaceQualityTier::UltraLow => SurfaceQualityProfile {
            tier,
            max_visible_chunks: 16,
            max_triangles_per_frame: 60_000,
            max_dynamic_lights: 1,
        },
        SurfaceQualityTier::Low => SurfaceQualityProfile {
            tier,
            max_visible_chunks: 32,
            max_triangles_per_frame: 150_000,
            max_dynamic_lights: 2,
        },
        SurfaceQualityTier::Balanced => SurfaceQualityProfile {
            tier,
            max_visible_chunks: 64,
            max_triangles_per_frame: 400_000,
            max_dynamic_lights: 4,
        },
        SurfaceQualityTier::High => SurfaceQualityProfile {
            tier,
            max_visible_chunks: 128,
            max_triangles_per_frame: 1_000_000,
            max_dynamic_lights: 8,
        },
    }
}

impl SurfaceQualityProfile {
    pub fn ultra_low() -> (p: Self)
        ensures
            p == profile_for(SurfaceQualityTier::UltraLow),
    {
        SurfaceQualityProfile {
            tier: SurfaceQualityTier::UltraLow,
            max_visible_chunks: 16,
            max_triangles_per_frame: 60_000,
            max_dynamic_lights: 1,
        }
    }

    pub fn low() -> (p: Self)
        ensures
            p == profile_for(SurfaceQualityTier::Low),
    {
        SurfaceQualityProfile {
            tier: SurfaceQualityTier::Low,
            max_visible_chunks: 32,
            max_triangles_per_frame: 150_000,
            max_dynamic_lights: 2,
        }
    }

    pub fn balanced() -> (p: Self)
        ensures
            p == profile_for(SurfaceQualityTier::Balanced),
    {
        SurfaceQualityProfile {
            tier: SurfaceQualityTier::Balanced,
            max_visible_chunks: 64,
            max_triangles_per_frame: 400_000,
            max_dynamic_lights: 4,
        }
    }

    pub fn high() -> (p: Self)
        ensures
            p == profile_for(SurfaceQualityTier::High),
    {
        SurfaceQualityProfile {
            tier: SurfaceQualityTier::High,
            max_visible_chunks: 128,
            max_triangles_per_frame: 1_000_000,
            max_dynamic_lights: 8,
        }
    }
}

/// One tier down, or nothing at the lowest tier.
pub open spec fn tier_below(tier: SurfaceQualityTier) -> Option<SurfaceQualityTier> {
    match tier {
        SurfaceQualityTier::High => Some(SurfaceQualityTier::Balanced),
        SurfaceQualityTier::Balanced => Some(SurfaceQualityTier::Low),
        SurfaceQualityTier::Low => Some(SurfaceQualityTier::UltraLow),
        SurfaceQualityTier::UltraLow => None,
    }
}

/// One tier up, or nothing at the highest tier.
pub open spec fn tier_above(tier: SurfaceQualityTier) -> Option<SurfaceQualityTier> {
    match tier {
        SurfaceQualityTier::UltraLow => Some(SurfaceQualityTier::Low),
        SurfaceQualityTier::Low => Some(SurfaceQualityTier::Balanced),
        SurfaceQualityTier::Balanced => Some(SurfaceQualityTier::High),
        SurfaceQualityTier::High => None,
    }
}

/// The profile after a move to `next`, and whether the tier changed.
pub open spec fn moved(profile: SurfaceQualityProfile, next: Option<SurfaceQualityTier>) -> (SurfaceQualityProfile, bool) {
    match next {
        Some(t) => (profile_for(t), true),
        None => (profile, false),
    }
}

/// Target frame time, about 60 FPS.
pub const TARGET_FRAME_NANOS: u128 = 16_000_000;
/// Slack above the target before a frame counts as slow.
pub const SLOW_SLACK_NANOS: u128 = 4_000_000;
/// Frames shorter than this count as fast.
pub const FAST_FRAME_NANOS: u128 = 11_000_000;
/// Consecutive fast frames needed for one upgrade.
pub const UPGRADE_THRESHOLD_FRAMES: usize = 30;

/// How a frame of `nanos` nanoseconds moves the controller: the profile
/// after it, the run of fast frames after it, and whether the tier changed.
pub open spec fn frame_step(profile: SurfaceQualityProfile, fast_frames: nat, nanos: int) -> (
    SurfaceQualityProfile,
    nat,
    bool,
) {
    if nanos > TARGET_FRAME_NANOS + SLOW_SLACK_NANOS {
        let (p, changed) = moved(profile, tier_below(profile.tier));
        (p, 0, changed)
    } else if nanos < FAST_FRAME_NANOS {
        if fast_frames + 1 >= UPGRADE_THRESHOLD_FRAMES {
            let (p, changed) = moved(profile, tier_above(profile.tier));
            (p, 0, changed)
        } else {
            (profile, fast_frames + 1, false)
        }
    } else {
        (profile, 0, false)
    }
}

/// The profile and fast-frame run after a whole sequence of frames.
pub open spec fn frame_run(profile: SurfaceQualityProfile, fast_frames: nat, frames: Seq<int>) -> (
    SurfaceQualityProfile,
    nat,
)
    decreases frames.len(),
{
    if frames.len() == 0 {
        (profile, fast_frames)
    } else {
        let (p, f, _) = frame_step(profile, fast_frames, frames[0]);
        frame_run(p, f, frames.drop_first())
    }
}

/// The whole number of nanoseconds a `Duration` holds, as
/// `Duration::as_nanos` reports it.
pub uninterp spec fn duration_nanos(d: Duration) -> u128;

/// Calls `Duration::as_nanos`; its contract claims only that the result is
/// the named count for that duration.
#[verifier::external_body]
fn frame_nanos(d: Duration) -> (n: u128)
    ensures
        n == duration_nanos(d),
{
    d.as_nanos()
}

/// Runtime quality governor with hysteresis between tiers.
#[derive(Debug, Clone)]
pub struct FrameQualityController {
    pub profile: SurfaceQualityProfile,
    target_frame_nanos: u128,
    fast_frame_counter: usize,
    upgrade_threshold_frames: usize,
}

impl FrameQualityController {
    /// The active profile.
    pub closed spec fn current_profile(&self) -> SurfaceQualityProfile {
        self.profile
    }

    /// Length of the current run of fast frames.
    pub closed spec fn fast_frames(&self) -> nat {
        self.fast_frame_counter as nat
    }

    /// The controller's fixed thresholds are in place and the fast-frame run
    /// is shorter than the upgrade threshold.
    pub closed spec fn wf(&self) -> bool {
        &&& self.target_frame_nanos == TARGET_FRAME_NANOS
        &&& self.upgrade_threshold_frames == UPGRADE_THRESHOLD_FRAMES
        &&& self.fast_frame_counter < UPGRADE_THRESHOLD_FRAMES
    }

    pub fn new(initial_tier: SurfaceQualityTier) -> (c: Self)
        ensures
            c.wf(),
            c.current_profile() == profile_for(initial_tier),
            c.fast_frames() == 0,
    {
        let profile = match initial_tier {
            SurfaceQualityTier::UltraLow => SurfaceQualityProfile::ultra_low(),
            SurfaceQualityTier::Low => SurfaceQualityProfile::low(),
            SurfaceQualityTier::Balanced => SurfaceQualityProfile::balanced(),
            SurfaceQualityTier::High => SurfaceQualityProfile::high(),
        };
        FrameQualityController {
            profile,
            target_frame_nanos: TARGET_FRAME_NANOS,
            fast_frame_counter: 0,
            upgrade_threshold_frames: UPGRADE_THRESHOLD_FRAMES,
        }
    }

    /// Reports a completed frame's duration and applies the hysteresis
    /// rules; returns whether the quality tier changed.
    pub fn report_frame_time(&mut self, frame_duration: Duration) -> (changed: bool)
        requires
            old(self).wf(),
        ensures
            final(self).wf(),
            (final(self).current_profile(), final(self).fast_frames(), changed) == frame_step(
                old(self).current_profile(),
                old(self).fast_frames(),
                duration_nanos(frame_duration) as int,
            ),
    {
        let nanos = frame_nanos(frame_duration);
        self.report_frame_nanos(nanos)
    }

    /// The hysteresis rules for a frame of `nanos` nanoseconds.
    pub fn report_frame_nanos(&mut self, nanos: u128) -> (changed: bool)
        requires
            old(self).wf(),
        ensures
            final(self).wf(),
            (final(self).current_profile(), final(self).fast_frames(), changed) == frame_step(
                old(self).current_profile(),
                old(self).fast_frames(),
                nanos as int,
            ),
    {
        let slow_threshold = self.target_frame_nanos.saturating_add(SLOW_SLACK_NANOS);
        if nanos > slow_threshold {
            self.fast_frame_counter = 0;
            self.downgrade_tier()
        } else if nanos < FAST_FRAME_NANOS {
            self.fast_frame_counter = self.fast_frame_counter + 1;
            if self.fast_frame_counter >= self.upgrade_threshold_frames {
                self.fast_frame_counter = 0;
                self.upgrade_tier()
            } else {
                false
            }
        } else {
            self.fast_frame_counter = 0;
            false
        }
    }

    fn downgrade_tier(&mut self) -> (changed: bool)
        ensures
            (final(self).profile, changed) == moved(old(self).profile, tier_below(old(self).profile.tier)),
            final(self).target_frame_nanos == old(self).target_frame_nanos,
            final(self).fast_frame_counter == old(self).fast_frame_counter,
            final(self).upgrade_threshold_frames == old(self).upgrade_threshold_frames,
    {
        match self.profile.tier {
            SurfaceQualityTier::High => {
                self.profile = SurfaceQualityProfile::balanced();
                true
            },
            SurfaceQualityTier::Balanced => {
                self.profile = SurfaceQualityProfile::low();
                true
            },
            SurfaceQualityTier::Low => {
                self.profile = SurfaceQualityProfile::ultra_low();
                true
            },
            SurfaceQualityTier::UltraLow => false,
        }
    }

    fn upgrade_tier(&mut self) -> (changed: bool)
        ensures
            (final(self).profile, changed) == moved(old(self).profile, tier_above(old(self).profile.tier)),
            final(self).target_frame_nanos == old(self).target_frame_nanos,
            final(self).fast_frame_counter == old(self).fast_frame_counter,
            final(self).upgrade_threshold_frames == old(self).upgrade_threshold_frames,
    {
        match self.profile.tier {
            SurfaceQualityTier::UltraLow => {
                self.profile = SurfaceQualityProfile::low();
                true
            },
            SurfaceQualityTier::Low => {
                self.profile = SurfaceQualityProfile::balanced();
                true
            },
            SurfaceQualityTier::Balanced => {
                self.profile = SurfaceQualityProfile::high();
                true
            },
            SurfaceQualityTier::High => false,
        }
    }
}

/// A surface chunk offered for rendering, with its quad count. Candidates
/// are ordered by distance from the player before the budget pass.
#[derive(Debug, Clone, Copy, PartialEq, Eq, Structural)]
pub struct ChunkSurfaceCandidate {
    pub chunk_x: i32,
    pub chunk_z: i32,
    pub quad_count: usize,
}

/// What the budget pass left out and sent on.
#[derive(Debug, Clone, Copy, PartialEq, Eq, Structural)]
pub struct BudgetOutcome {
    pub budget_culled_chunks: usize,
    pub submitted_quads: usize,
    pub submitted_triangles: usize,
}

pub open spec fn quad_total(quads: Seq<usize>) -> int
    decreases quads.len(),
{
    if quads.len() == 0 {
        0
    } else {
        quad_total(quads.drop_last()) + quads.last()
    }
}

/// The budget pass over candidates already ordered closest first: the
/// positions accepted, how many were culled, and the quads and triangles
/// sent. A candidate is culled once the chunk budget is full, or when its
/// triangles would overrun the triangle budget and something was already
/// accepted; the closest candidate is always sent.
pub open spec fn budget_pass(profile: SurfaceQualityProfile, quads: Seq<usize>) -> (Seq<usize>, int, int, int)
    decreases quads.len(),
{
    if quads.len() == 0 {
        (Seq::empty(), 0, 0, 0)
    } else {
        let (accepted, culled, sent_quads, tris) = budget_pass(profile, quads.drop_last());
        let i = (quads.len() - 1) as usize;
        let cand = 2 * quads.last();
        if accepted.len() >= profile.max_visible_chunks {
            (accepted, culled + 1, sent_quads, tris)
        } else if tris + cand > profile.max_triangles_per_frame && accepted.len() > 0 {
            (accepted, culled + 1, sent_quads, tris)
        } else {
            (accepted.push(i), culled, sent_quads + quads.last(), tris + cand)
        }
    }
}

proof fn lemma_budget_pass_bounds(profile: SurfaceQualityProfile, quads: Seq<usize>)
    ensures
        ({
            let (accepted, culled, sent_quads, tris) = budget_pass(profile, quads);
            &&& 0 <= sent_quads <= quad_total(quads)
            &&& tris == 2 * sent_quads
            &&& culled + accepted.len() == quads.len()
            &&& 0 <= culled
            &&& quad_total(quads) >= 0
        }),
    decreases quads.len(),
{
    if quads.len() > 0 {
        lemma_budget_pass_bounds(profile, quads.drop_last());
    }
}

impl FrameQualityController {
    /// Applies the active tier's chunk and triangle budgets to candidates
    /// ordered closest first, given each candidate's quad count; returns the
    /// positions of the accepted candidates, in order, and the tallies.
    pub fn select_within_budget(&self, quads_by_distance: &Vec<usize>) -> (r: (Vec<usize>, BudgetOutcome))
        requires
            2 * quad_total(quads_by_distance@) <= usize::MAX,
        ensures
            ({
                let (accepted, culled, sent_quads, tris) = budget_pass(self.current_profile(), quads_by_distance@);
                &&& r.0@ == accepted
                &&& r.1.budget_culled_chunks == culled
                &&& r.1.submitted_quads == sent_quads
                &&& r.1.submitted_triangles == tris
            }),
    {
        let ghost quads = quads_by_distance@;
        let ghost profile = self.profile;
        let mut accepted: Vec<usize> = Vec::new();
        let mut culled: usize = 0;
        let mut sent_quads: usize = 0;
        let mut tris: usize = 0;
        let mut i: usize = 0;
        proof {
            lemma_budget_pass_bounds(profile, quads);
        }
        while i < quads_by_distance.len()
            invariant
                0 <= i <= quads.len(),
                quads == quads_by_distance@,
                profile == self.profile,
                2 * quad_total(quads) <= usize::MAX,
                quad_total(quads) >= 0,
                (accepted@, culled as int, sent_quads as int, tris as int) == budget_pass(profile, quads.take(i as int)),
            decreases quads.len() - i,
        {
            proof {
                let next = quads.take(i + 1);
                assert(next.drop_last() =~= quads.take(i as int));
                assert(next.last() == quads[i as int]);
                lemma_budget_pass_bounds(profile, next);
                lemma_prefix_total(quads, i + 1);
                lemma_budget_pass_bounds(profile, quads.take(i as int));
                assert(culled <= i);
            }
            let q = quads_by_distance[i];
            let cand = q * 2;
            if accepted.len() >= self.profile.max_visible_chunks {
                culled = culled + 1;
            } else if tris + cand > self.profile.max_triangles_per_frame && accepted.len() > 0 {
                culled = culled + 1;
            } else {
                tris = tris + cand;
                sent_quads = sent_quads + q;
                accepted.push(i);
            }
            i = i + 1;
        }
        proof {
            assert(quads.take(quads.len() as int) =~= quads);
        }
        (accepted, BudgetOutcome { budget_culled_chunks: culled, submitted_quads: sent_quads, submitted_triangles: tris })
    }
}

proof fn lemma_prefix_total(quads: Seq<usize>, n: int)
    requires
        0 <= n <= quads.len(),
    ensures
        0 <= quad_total(quads.take(n)) <= quad_total(quads),
    decreases quads.len(),
{
    if n == quads.len() {
        assert(quads.take(n) =~= quads);
        lemma_total_nonneg(quads);
    } else {
        assert(quads.drop_last().take(n) =~= quads.take(n));
        lemma_prefix_total(quads.drop_last(), n);
    }
}

proof fn lemma_total_nonneg(quads: Seq<usize>)
    ensures
        quad_total(quads) >= 0,
    decreases quads.len(),
{
    if quads.len() > 0 {
        lemma_total_nonneg(quads.drop_last());
    }
}

/// The budget pass never sends more chunks than the tier allows, never
/// overruns the triangle budget except with the closest chunk alone, and
/// sends the closest chunk whenever any chunk may be sent.
pub proof fn law_budgets_are_enforced(profile: SurfaceQualityProfile, quads: Seq<usize>)
    requires
        quads.len() <= usize::MAX,
    ensures
        ({
            let (accepted, culled, sent_quads, tris) = budget_pass(profile, quads);
            &&& accepted.len() <= profile.max_visible_chunks
            &&& tris <= profile.max_triangles_per_frame || accepted.len() <= 1
            &&& quads.len() > 0 && profile.max_visible_chunks > 0 ==> accepted.len() > 0 && accepted[0] == 0
            &&& forall|i: int, j: int| 0 <= i < j < accepted.len() ==> accepted[i] < accepted[j]
            &&& forall|i: int| 0 <= i < accepted.len() ==> accepted[i] < quads.len()
        }),
    decreases quads.len(),
{
    if quads.len() > 0 {
        let rest = quads.drop_last();
        law_budgets_are_enforced(profile, rest);
        lemma_budget_pass_bounds(profile, rest);
        let (acc, culled, sent, tris) = budget_pass(profile, rest);
        let i = (quads.len() - 1) as usize;
        let cand = 2 * quads.last();
        let (acc2, culled2, sent2, tris2) = budget_pass(profile, quads);
        if acc.len() >= profile.max_visible_chunks {
            assert(acc2 == acc && tris2 == tris);
        } else if tris + cand > profile.max_triangles_per_frame && acc.len() > 0 {
            assert(acc2 == acc && tris2 == tris);
        } else {
            assert(acc2 == acc.push(i) && tris2 == tris + cand);
            assert(forall|k: int| 0 <= k < acc.len() ==> acc2[k] == acc[k]);
            assert(acc2[acc.len() as int] == i);
            if acc.len() == 0 {
                assert(rest.len() == 0 || profile.max_visible_chunks == 0);
            }
        }
    }
}

/// A single slow frame moves the tier down one step at once (or leaves the
/// lowest tier alone) and ends any run of fast frames.
pub proof fn law_slow_frame_downgrades_at_once(profile: SurfaceQualityProfile, fast_frames: nat, nanos: int)
    requires
        nanos > TARGET_FRAME_NANOS + SLOW_SLACK_NANOS,
    ensures
        ({
            let (p, f, changed) = frame_step(profile, fast_frames, nanos);
            &&& f == 0
            &&& changed <==> profile.tier != SurfaceQualityTier::UltraLow
            &&& changed ==> tier_rank(p.tier) == tier_rank(profile.tier) - 1
            &&& !changed ==> p == profile
        }),
{
}

/// Every frame moves the tier by at most one step, and the reported change
/// is exactly whether the tier moved.
pub proof fn law_tier_moves_one_step(profile: SurfaceQualityProfile, fast_frames: nat, nanos: int)
    ensures
        ({
            let (p, _, changed) = frame_step(profile, fast_frames, nanos);
            &&& -1 <= tier_rank(p.tier) - tier_rank(profile.tier) <= 1
            &&& changed <==> p.tier != profile.tier
        }),
{
}

pub open spec fn all_fast(frames: Seq<int>) -> bool {
    forall|i: int| 0 <= i < frames.len() ==> #[trigger] frames[i] < FAST_FRAME_NANOS
}

/// Fast frames only accumulate: while the run stays short of the upgrade
/// threshold the profile does not move.
pub proof fn law_fast_frames_accumulate_without_upgrade(
    profile: SurfaceQualityProfile,
    fast_frames: nat,
    frames: Seq<int>,
)
    requires
        all_fast(frames),
        fast_frames + frames.len() < UPGRADE_THRESHOLD_FRAMES,
    ensures
        frame_run(profile, fast_frames, frames) == (profile, fast_frames + frames.len()),
    decreases frames.len(),
{
    if frames.len() > 0 {
        assert(frames[0] < FAST_FRAME_NANOS);
        assert(all_fast(frames.drop_first())) by {
            assert forall|i: int| 0 <= i < frames.drop_first().len() implies #[trigger] frames.drop_first()[i]
                < FAST_FRAME_NANOS by {
                assert(frames.drop_first()[i] == frames[i + 1]);
            }
        }
        law_fast_frames_accumulate_without_upgrade(profile, fast_frames + 1, frames.drop_first());
    }
}

/// From a fresh run, exactly the threshold's worth of consecutive fast frames
/// upgrades the tier one step (or keeps the highest tier) and restarts the run.
pub proof fn law_sustained_fast_frames_upgrade(profile: SurfaceQualityProfile, frames: Seq<int>)
    requires
        all_fast(frames),
        frames.len() == UPGRADE_THRESHOLD_FRAMES,
    ensures
        frame_run(profile, 0, frames) == (moved(profile, tier_above(profile.tier)).0, 0nat),
{
    let head = frames.subrange(0, UPGRADE_THRESHOLD_FRAMES - 1);
    assert(all_fast(head)) by {
        assert forall|i: int| 0 <= i < head.len() implies #[trigger] head[i] < FAST_FRAME_NANOS by {
            assert(head[i] == frames[i]);
        }
    }
    law_fast_frames_accumulate_without_upgrade(profile, 0, head);
    lemma_run_split(profile, 0, frames, UPGRADE_THRESHOLD_FRAMES - 1);
    let last = frames.subrange(UPGRADE_THRESHOLD_FRAMES - 1, UPGRADE_THRESHOLD_FRAMES as int);
    assert(last[0] == frames[UPGRADE_THRESHOLD_FRAMES - 1]);
    assert(last[0] < FAST_FRAME_NANOS);
    let (p, f, _) = frame_step(profile, (UPGRADE_THRESHOLD_FRAMES - 1) as nat, last[0]);
    assert(p == moved(profile, tier_above(profile.tier)).0 && f == 0);
    assert(frame_run(p, f, last.drop_first()) == (p, f));
    assert(frame_run(profile, (UPGRADE_THRESHOLD_FRAMES - 1) as nat, last) == (p, f));
}

/// Running a sequence is running its prefix, then the rest.
proof fn lemma_run_split(profile: SurfaceQualityProfile, fast_frames: nat, frames: Seq<int>, n: int)
    requires
        0 <= n <= frames.len(),
    ensures
        ({
            let (p, f) = frame_run(profile, fast_frames, frames.subrange(0, n));
            frame_run(p, f, frames.subrange(n, frames.len() as int)) == frame_run(profile, fast_frames, frames)
        }),
    decreases n,
{
    if n == 0 {
        assert(frames.subrange(0, frames.len() as int) =~= frames);
    } else {
        let (p1, f1, _) = frame_step(profile, fast_frames, frames[0]);
        lemma_run_split(p1, f1, frames.drop_first(), n - 1);
        assert(frames.subrange(0, n).drop_first() =~= frames.drop_first().subrange(0, n - 1));
        assert(frames.drop_first().subrange(n - 1, frames.drop_first().len() as int) =~= frames.subrange(
            n,
            frames.len() as int,
        ));
        assert(frames.subrange(0, n)[0] == frames[0]);
    }
}

} // verus!
