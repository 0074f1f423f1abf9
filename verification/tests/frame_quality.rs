use std::time::Duration;
use vackrooms::frame_quality::{FrameQualityController, SurfaceQualityProfile, SurfaceQualityTier};

#[test]
fn test_hysteresis_prevents_rapid_oscillation() {
    let mut controller = FrameQualityController::new(SurfaceQualityTier::Low);

    // 1 fast frame shouldn't upgrade immediately
    let upgraded = controller.report_frame_time(Duration::from_millis(5));
    assert!(!upgraded);
    assert_eq!(controller.profile.tier, SurfaceQualityTier::Low);

    // Sustained 30 fast frames triggers upgrade
    for _ in 0..29 {
        controller.report_frame_time(Duration::from_millis(5));
    }
    assert_eq!(controller.profile.tier, SurfaceQualityTier::Balanced);

    // A single slow frame triggers immediate downgrade
    let downgraded = controller.report_frame_time(Duration::from_millis(25));
    assert!(downgraded);
    assert_eq!(controller.profile.tier, SurfaceQualityTier::Low);
}

#[test]
fn test_budget_culling_prioritizes_closest_chunks() {
    let controller = FrameQualityController::new(SurfaceQualityTier::UltraLow);
    // Candidates i * 20 units from the player, already ordered closest first.
    let quads: Vec<usize> = (0..50).map(|_| 10).collect();
    let (accepted, outcome) = controller.select_within_budget(&quads);

    // UltraLow allows max 16 visible chunks
    assert_eq!(accepted.len(), 16);
    assert_eq!(outcome.budget_culled_chunks, 34);
    // The accepted chunks must be the 16 closest (indices 0..16)
    for (idx, item) in accepted.iter().enumerate() {
        assert_eq!(*item, idx);
    }
    assert_eq!(outcome.submitted_quads, 160);
    assert_eq!(outcome.submitted_triangles, 320);
}

#[test]
fn a_medium_frame_resets_the_fast_run() {
    let mut controller = FrameQualityController::new(SurfaceQualityTier::Low);
    for _ in 0..29 {
        assert!(!controller.report_frame_time(Duration::from_millis(5)));
    }
    // Neither slow nor fast: the run starts over.
    assert!(!controller.report_frame_time(Duration::from_millis(15)));
    for _ in 0..29 {
        assert!(!controller.report_frame_time(Duration::from_millis(5)));
    }
    assert_eq!(controller.profile.tier, SurfaceQualityTier::Low);
    assert!(controller.report_frame_time(Duration::from_millis(5)));
    assert_eq!(controller.profile.tier, SurfaceQualityTier::Balanced);
}

#[test]
fn the_lowest_and_highest_tiers_hold() {
    let mut low = FrameQualityController::new(SurfaceQualityTier::UltraLow);
    assert!(!low.report_frame_time(Duration::from_millis(40)));
    assert_eq!(low.profile, SurfaceQualityProfile::ultra_low());
    let mut high = FrameQualityController::new(SurfaceQualityTier::High);
    for _ in 0..30 {
        assert!(!high.report_frame_nanos(1_000_000));
    }
    assert_eq!(high.profile, SurfaceQualityProfile::high());
    // Exactly twenty milliseconds is not yet slow.
    assert!(!high.report_frame_nanos(20_000_000));
    assert!(high.report_frame_nanos(20_000_001));
    assert_eq!(high.profile.tier, SurfaceQualityTier::Balanced);
}

#[test]
fn the_triangle_budget_culls_but_always_sends_the_closest() {
    let controller = FrameQualityController::new(SurfaceQualityTier::UltraLow);
    let budget = controller.profile.max_triangles_per_frame;
    // The closest alone overruns the budget; it is still sent.
    let quads = vec![budget, 1, 2];
    let (accepted, outcome) = controller.select_within_budget(&quads);
    assert_eq!(accepted, vec![0]);
    assert_eq!(outcome.budget_culled_chunks, 2);
    assert_eq!(outcome.submitted_triangles, 2 * budget);
    // A large one in the middle is skipped; smaller later ones still fit.
    let quads = vec![10, budget, 20];
    let (accepted, outcome) = controller.select_within_budget(&quads);
    assert_eq!(accepted, vec![0, 2]);
    assert_eq!(outcome.submitted_quads, 30);
    assert_eq!(outcome.budget_culled_chunks, 1);
}
