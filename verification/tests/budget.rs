//! The byte budget that follows how long writes block.

use rmatrix::budget::{Feedback, Governor, ROOM, TARGET_LOAD};
use std::time::Duration;

const CUT: f32 = 0.7;
const CREEP_UP: f32 = 1.03;
const CREEP_DOWN: f32 = 0.98;

fn governor(cells: usize) -> Governor {
    Governor::new((cells as f32 * 24.0).to_bits())
}

/// One frame, with the arithmetic around it.
fn observe(g: &mut Governor, bytes: usize, write: Duration, period: Duration) {
    let b = f32::from_bits(g.raw_budget());
    g.observe(Feedback {
        load: (write.as_secs_f32() / period.as_secs_f32().max(1e-4)).to_bits(),
        cut: (bytes as f32 * CUT).to_bits(),
        down: (b * CREEP_DOWN).to_bits(),
        up: (b * CREEP_UP).to_bits(),
    });
}

#[test]
fn the_governor_only_throttles_once_a_write_blocks() {
    let period = Duration::from_millis(33);
    let mut g = governor(204 * 175);
    let wide_open = g.budget();
    assert!(!g.throttling());

    // Instant writes teach it nothing, so it stays out of the way.
    for _ in 0..50 {
        observe(&mut g, 50_000, Duration::from_micros(200), period);
    }
    assert_eq!(g.budget(), wide_open);

    // A single blocked write is not evidence: it could just as easily be this
    // process losing the CPU for a moment.
    observe(&mut g, 50_000, Duration::from_millis(50), period);
    assert!(!g.throttling(), "one spike must not throttle");
    for _ in 0..30 {
        observe(&mut g, 50_000, Duration::from_micros(200), period);
    }
    assert_eq!(
        g.budget(),
        wide_open,
        "an isolated spike changed the budget"
    );

    // A consumer that consistently makes 50 KB take a frame and a half.
    for _ in 0..3 {
        observe(&mut g, 50_000, Duration::from_millis(50), period);
    }
    assert!(g.throttling());
    assert!(
        g.budget() < 50_000,
        "an overshoot must cut below what it just sent, got {}",
        g.budget()
    );

    // Once throttling, it settles rather than hunting: hold the load in the dead
    // band and the budget must stop moving, however long for.
    let in_band = period.mul_f32(f32::from_bits(TARGET_LOAD) * 0.92);
    for _ in 0..8 {
        let b = g.budget();
        observe(&mut g, b, in_band, period);
    }
    let settled = g.budget();
    for _ in 0..500 {
        observe(&mut g, settled, in_band, period);
    }
    assert_eq!(g.budget(), settled, "budget hunted instead of settling");
    assert!(g.throttling(), "should still be throttling");

    // Consumer recovers: the budget climbs back to wide open, and once there it
    // stops constraining anything.
    for _ in 0..400 {
        observe(&mut g, 20_000, Duration::from_micros(100), period);
    }
    assert!(!g.throttling());
    assert_eq!(g.budget(), wide_open);
}

#[test]
fn the_governor_never_collapses_to_nothing() {
    let period = Duration::from_millis(33);
    let mut g = governor(80 * 24);
    for _ in 0..500 {
        observe(&mut g, 1, Duration::from_secs(1), period);
    }
    assert!(g.budget() >= 2048, "budget bottomed out at {}", g.budget());
}

#[test]
fn the_thresholds_are_the_documented_ones() {
    assert_eq!(f32::from_bits(rmatrix::budget::OVERSHOOT), 0.9);
    assert_eq!(f32::from_bits(TARGET_LOAD), 0.6);
    assert_eq!(f32::from_bits(ROOM), 0.6f32 * 0.85f32);
    assert_eq!(f32::from_bits(rmatrix::budget::FLOOR), 2048.0);
    assert_eq!(f32::from_bits(rmatrix::budget::MIN_CEILING), 4096.0);
}

#[test]
fn the_ceiling_is_a_full_repaint_but_never_tiny() {
    assert_eq!(governor(1000).budget(), 24_000);
    assert_eq!(governor(1).budget(), 4096);
}

#[test]
fn a_resize_keeps_what_was_learnt() {
    let period = Duration::from_millis(33);
    let mut g = governor(204 * 175);
    for _ in 0..3 {
        observe(&mut g, 50_000, Duration::from_millis(50), period);
    }
    let learnt = g.budget();
    assert_eq!(learnt, 35_000);
    g.resize((100.0f32 * 100.0 * 24.0).to_bits());
    assert!(g.throttling());
    assert_eq!(g.budget(), learnt);
    // A window too small for the budget is not throttled any more.
    g.resize((40.0f32 * 25.0 * 24.0).to_bits());
    assert!(!g.throttling());
    assert_eq!(g.budget(), 24_000);
}

#[test]
fn a_budget_that_does_not_bite_is_a_full_repaint() {
    let period = Duration::from_millis(33);
    let ceiling = (204.0f32 * 175.0 * 24.0) as usize;
    let mut g = governor(204 * 175);
    for i in 0..600u64 {
        // A slow stretch now and then.
        let write = if i % 200 < 20 { 50_000 } else { 100 };
        observe(&mut g, 50_000, Duration::from_micros(write), period);
        if !g.throttling() {
            assert_eq!(g.budget(), ceiling);
        }
    }
    assert!(!g.throttling());
}
