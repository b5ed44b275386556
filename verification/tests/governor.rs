//! The quality governor, in isolation and in a loop with a terminal.

use rmatrix::bits;
use rmatrix::governor::{Backpressure, Governor, GovernorConfig, Observation, Quality};
use rmatrix::DEFAULT_COLOR_TOLERANCE;
use std::time::Duration;

const BUDGET: Duration = Duration::from_micros(33_333);
/// One step of the default 24-level green ramp.
const STEP: f32 = 10.9;

fn gov() -> Governor {
    Governor::new(STEP.to_bits(), GovernorConfig::default())
}

fn tol(g: &Governor) -> f32 {
    f32::from_bits(g.tolerance())
}

/// One frame's backpressure, with the arithmetic around it.
fn observe(g: &mut Governor, blocked: Duration, budget: Duration) -> Quality {
    let cfg = g.config();
    let f = f32::from_bits;
    g.observe(Observation {
        budget: budget.as_nanos(),
        ratio: (blocked.as_secs_f32() / budget.as_secs_f32()).to_bits(),
        climbed: (tol(g) + f(cfg.climb).max(0.0)).to_bits(),
        bled: (tol(g) - f(cfg.bleed).max(0.0)).to_bits(),
        ceiling: (f(cfg.max_steps) * f(g.ramp_step())).max(0.0).to_bits(),
    })
}

fn feed(g: &mut Governor, load: f32, frames: usize) {
    for _ in 0..frames {
        observe(g, BUDGET.mul_f32(load), BUDGET);
    }
}

/// Bytes per frame against redraw tolerance, measured at 204x175. The plant the
/// closed-loop tests run against; note the plateaus, which are real: a tolerance
/// below one ramp step changes nothing at all.
const PLANT: [(f32, f32); 7] = [
    (0.0, 78314.0),
    (8.0, 78314.0),
    (16.0, 57476.0),
    (24.0, 46087.0),
    (32.0, 42411.0),
    (48.0, 34644.0),
    (64.0, 31650.0),
];

fn demand(tol: f32) -> f32 {
    let mut out = PLANT[PLANT.len() - 1].1;
    for w in PLANT.windows(2) {
        let ((x0, y0), (x1, y1)) = (w[0], w[1]);
        if tol <= x1 {
            let t = ((tol - x0) / (x1 - x0)).clamp(0.0, 1.0);
            out = y0 + (y1 - y0) * t;
            break;
        }
    }
    out
}

/// The closed loop, not the controller in isolation. `capacity` is what the
/// terminal can absorb per frame; blocked time is the overflow past it, which is
/// the shape that makes a stepped actuator hunt.
fn closed_loop(capacity: f32, frames: usize) -> Vec<f32> {
    let mut g = gov();
    let mut trace = Vec::with_capacity(frames);
    for _ in 0..frames {
        let load = (demand(tol(&g)) / capacity - 1.0).max(0.0);
        observe(&mut g, BUDGET.mul_f32(load), BUDGET);
        trace.push(tol(&g));
    }
    trace
}

#[test]
fn idle_never_gives_up_quality() {
    let mut g = gov();
    feed(&mut g, 0.0, 600);
    assert_eq!(
        g.quality(),
        Quality {
            redraw_tolerance: 0
        }
    );
}

#[test]
fn a_load_inside_the_deadband_is_left_alone() {
    let mut g = gov();
    feed(&mut g, 0.06, 1200);
    assert_eq!(
        g.quality(),
        Quality {
            redraw_tolerance: 0
        },
        "the deadband is not a deadband"
    );
}

#[test]
fn sustained_overload_climbs_to_the_ceiling_and_stops() {
    let mut g = gov();
    feed(&mut g, 3.0, 600);
    let cap = (f32::from_bits(GovernorConfig::default().max_steps) * STEP).round() as u16;
    assert_eq!(g.quality().redraw_tolerance, cap);
    feed(&mut g, 3.0, 600);
    assert_eq!(
        g.quality().redraw_tolerance,
        cap,
        "climbed past the ceiling"
    );
}

#[test]
fn it_sheds_fast_and_recovers_slow() {
    let mut g = gov();
    let mut to_shed = 0;
    while g.quality().redraw_tolerance == 0 {
        observe(&mut g, BUDGET.mul_f32(3.0), BUDGET);
        to_shed += 1;
        assert!(to_shed < 60, "never reacted to a 3x overload");
    }
    assert!(to_shed <= 10, "took {to_shed} frames to react");

    feed(&mut g, 3.0, 300);
    let deep = g.quality().redraw_tolerance;
    let mut to_recover = 0;
    while g.quality().redraw_tolerance == deep {
        observe(&mut g, Duration::ZERO, BUDGET);
        to_recover += 1;
        assert!(to_recover < 6000, "never recovered");
    }
    assert!(
        to_recover > to_shed * 3,
        "recovery ({to_recover} frames) is not meaningfully slower than \
         shedding ({to_shed} frames)"
    );
}

#[test]
fn it_returns_to_full_quality_when_the_machine_goes_idle() {
    let mut g = gov();
    feed(&mut g, 3.0, 600);
    assert!(g.quality().redraw_tolerance > 0);
    feed(&mut g, 0.0, 3000); // 100 s at 30 fps
    assert_eq!(
        g.quality(),
        Quality {
            redraw_tolerance: 0
        },
        "never came back to full quality"
    );
}

#[test]
fn it_is_deterministic_for_a_fixed_sequence() {
    let seq: Vec<f32> = (0..900)
        .map(|i| match i % 7 {
            0 => 2.4,
            1 => 0.0,
            2 => 0.11,
            3 => 0.019,
            4 => 1.2,
            5 => 0.07,
            _ => 0.8,
        })
        .collect();
    let trace = || {
        let mut g = gov();
        seq.iter()
            .map(|l| observe(&mut g, BUDGET.mul_f32(*l), BUDGET).redraw_tolerance)
            .collect::<Vec<_>>()
    };
    assert_eq!(trace(), trace());
}

#[test]
fn the_closed_loop_settles_without_pumping() {
    // Terminals that can absorb between 90% and 45% of what full quality asks of
    // them. In every case the tolerance must come to rest, and the residual
    // ripple must be far below one step of the ramp.
    for pct in [90u32, 80, 70, 60, 50, 45] {
        let capacity = 78314.0 * pct as f32 / 100.0;
        let trace = closed_loop(capacity, 2400); // 80 s at 30 fps
        let tail = &trace[trace.len() / 2..];
        let lo = tail.iter().copied().fold(f32::MAX, f32::min);
        let hi = tail.iter().copied().fold(f32::MIN, f32::max);
        assert!(
            hi - lo < STEP,
            "capacity {pct}%: tolerance still swinging {:.1} RGB units \
             ({lo:.1}..{hi:.1}), which is {:.1} steps of the ramp",
            hi - lo,
            (hi - lo) / STEP
        );
    }
}

#[test]
fn the_closed_loop_actually_relieves_the_overload() {
    // Settling is worthless if it settles somewhere useless.
    let capacity = 78314.0 * 0.6;
    let trace = closed_loop(capacity, 2400);
    let settled = trace[trace.len() - 1];
    let before = (demand(0.0) / capacity - 1.0).max(0.0);
    let after = (demand(settled) / capacity - 1.0).max(0.0);
    assert!(
        after < before * 0.25,
        "overload only fell from {before:.2} to {after:.2} of a frame"
    );
    assert!(
        settled <= f32::from_bits(GovernorConfig::default().max_steps) * STEP,
        "settled past the visual ceiling"
    );
}

#[test]
fn a_brief_spike_costs_almost_nothing() {
    // Two bad frames in an otherwise idle run must not be visible, and must not
    // persist.
    let mut g = gov();
    feed(&mut g, 0.0, 120);
    observe(&mut g, BUDGET.mul_f32(4.0), BUDGET);
    observe(&mut g, BUDGET.mul_f32(4.0), BUDGET);
    let mut worst = g.quality().redraw_tolerance;
    for _ in 0..900 {
        observe(&mut g, Duration::ZERO, BUDGET);
        worst = worst.max(g.quality().redraw_tolerance);
    }
    assert!(
        worst <= DEFAULT_COLOR_TOLERANCE,
        "a two-frame hiccup cost {worst} RGB units, past the {} the renderer \
         already treats as invisible",
        DEFAULT_COLOR_TOLERANCE
    );
    assert_eq!(g.quality().redraw_tolerance, 0, "and it never came back");
}

/// An idle distribution: mostly ~0.04 of a frame, but with a long tail out to 3
/// whole frames. Deterministic, so this is a fixture and not a flaky test.
fn healthy_but_bursty(i: usize) -> f32 {
    match i % 100 {
        0 => 3.06,      // the once-in-a-hundred 100 ms stall
        1..=3 => 0.35,  // p99
        4..=12 => 0.10, // p90
        13..=45 => 0.06,
        _ => 0.04, // p50
    }
}

#[test]
fn a_healthy_but_bursty_terminal_costs_no_quality() {
    let mut g = gov();
    let mut worst = 0u16;
    for i in 0..3000 {
        let tol = observe(&mut g, BUDGET.mul_f32(healthy_but_bursty(i)), BUDGET).redraw_tolerance;
        worst = worst.max(tol);
    }
    assert_eq!(worst, 0, "a healthy terminal cost {worst} RGB units");
}

#[test]
fn it_recovers_through_the_idle_noise_floor() {
    // Recovery has to survive contact with the real idle distribution, not just
    // a clean zero.
    let mut g = gov();
    feed(&mut g, 3.0, 600);
    assert!(g.quality().redraw_tolerance > 0);
    for i in 0..3000 {
        observe(&mut g, BUDGET.mul_f32(healthy_but_bursty(i)), BUDGET);
    }
    assert_eq!(
        g.quality().redraw_tolerance,
        0,
        "never recovered against a realistic idle terminal"
    );
}

#[test]
fn the_ceiling_scales_with_the_ramp() {
    // A coarser ramp has bigger steps, so the same budget in steps has to allow
    // more raw drift to mean the same thing.
    let mut fine = gov();
    feed(&mut fine, 3.0, 600);
    let mut coarse = Governor::new((STEP * 3.0).to_bits(), GovernorConfig::default());
    feed(&mut coarse, 3.0, 600);
    assert!(coarse.quality().redraw_tolerance > fine.quality().redraw_tolerance);
}

#[test]
fn the_tolerance_only_ever_moves_gradually() {
    // No single frame may jump the quality by a visible amount, in either
    // direction: that is what a viewer would see as a flicker.
    let mut g = gov();
    let mut prev = 0u16;
    for i in 0..2000 {
        let load = if (i / 97) % 2 == 0 { 3.0 } else { 0.0 };
        let tol = observe(&mut g, BUDGET.mul_f32(load), BUDGET).redraw_tolerance;
        assert!(
            tol.abs_diff(prev) <= 2,
            "tolerance jumped {prev} -> {tol} in one frame"
        );
        prev = tol;
    }
}

#[test]
fn hostile_inputs_do_not_move_it() {
    let mut g = Governor::new(f32::NAN.to_bits(), GovernorConfig::default());
    for _ in 0..600 {
        observe(&mut g, Duration::ZERO, Duration::ZERO);
    }
    assert_eq!(g.quality().redraw_tolerance, 0);
    // A zero budget must not read as infinite load.
    let mut g = gov();
    for _ in 0..600 {
        observe(&mut g, Duration::from_secs(1), Duration::ZERO);
    }
    assert_eq!(
        g.quality().redraw_tolerance,
        0,
        "a zero budget drove the controller"
    );
}

#[test]
fn the_default_thresholds_are_the_documented_ones() {
    let c = GovernorConfig::default();
    let f = f32::from_bits;
    assert_eq!((f(c.degrade_above), f(c.recover_below)), (0.12, 0.06));
    assert_eq!((c.fast_window, c.slow_window), (9, 61));
    assert_eq!((f(c.climb), f(c.bleed), f(c.max_steps)), (2.0, 0.25, 4.0));
    assert_eq!(Quality::default().redraw_tolerance, 0);
    assert_eq!(f(Governor::new(0, c).ramp_step()), 1.0);
    assert_eq!(f(gov().ramp_step()), STEP);
}

#[test]
fn the_load_is_the_median_of_the_short_window() {
    let mut g = gov();
    let loads = [0.5f32, 0.1, 0.9, 0.2, 0.8, 0.3, 0.7, 0.4, 0.6];
    for (i, l) in loads.iter().enumerate() {
        g.observe(Observation {
            budget: 1,
            ratio: l.to_bits(),
            climbed: 0,
            bled: 0,
            ceiling: 0,
        });
        let mut seen: Vec<f32> = loads[..=i].to_vec();
        seen.resize(9, 0.0);
        seen.sort_by(f32::total_cmp);
        assert_eq!(f32::from_bits(g.load()), seen[4]);
    }
    // Out of range samples are clamped.
    for _ in 0..9 {
        g.observe(Observation {
            budget: 1,
            ratio: 100.0f32.to_bits(),
            climbed: 0,
            bled: 0,
            ceiling: 0,
        });
    }
    assert_eq!(f32::from_bits(g.load()), 4.0);
}

#[test]
fn four_bad_frames_of_nine_shed_nothing_and_five_do() {
    let mut g = gov();
    feed(&mut g, 0.0, 20);
    feed(&mut g, 4.0, 4);
    assert_eq!(tol(&g), 0.0);
    feed(&mut g, 4.0, 1);
    assert_eq!(tol(&g), 2.0);
}

#[test]
fn backpressure_adds_up_and_resets() {
    let mut b = Backpressure::new(Vec::<u8>::new());
    assert_eq!(b.elapsed(), 0);
    b.charge(12_000_000);
    b.charge(3);
    b.inner_mut().push(7);
    assert_eq!(b.elapsed(), 12_000_003);
    b.reset();
    assert_eq!(b.elapsed(), 0);
    assert_eq!(*b.inner_mut(), vec![7]);
}

#[test]
fn bit_patterns_are_ordered_like_their_numbers() {
    let all = [
        f32::NEG_INFINITY,
        f32::MIN,
        -1.5,
        -f32::MIN_POSITIVE,
        -0.0,
        0.0,
        f32::from_bits(1),
        f32::MIN_POSITIVE,
        0.012,
        1.0,
        3.4e38,
        f32::INFINITY,
        f32::NAN,
        -f32::NAN,
    ];
    for a in all {
        assert_eq!(bits::is_nan(a.to_bits()), a.is_nan());
        assert_eq!(bits::is_finite(a.to_bits()), a.is_finite());
        for b in all {
            let (x, y) = (a.to_bits(), b.to_bits());
            assert_eq!(bits::less(x, y), a < b, "{a} < {b}");
            assert_eq!(bits::at_most(x, y), a <= b, "{a} <= {b}");
            assert_eq!(bits::precedes(x, y), a.total_cmp(&b).is_lt(), "{a}, {b}");
            let (lo, hi) = (f32::from_bits(bits::min(x, y)), f32::from_bits(bits::max(x, y)));
            assert!(lo == a.min(b) || (lo.is_nan() && a.is_nan() && b.is_nan()));
            assert!(hi == a.max(b) || (hi.is_nan() && a.is_nan() && b.is_nan()));
        }
        let c = f32::from_bits(bits::clamp(a.to_bits(), 0.0f32.to_bits(), 4.0f32.to_bits()));
        assert!(c == a.clamp(0.0, 4.0) || (c.is_nan() && a.is_nan()));
    }
}

#[test]
fn whole_numbers_are_read_off_the_bits() {
    for v in [
        0.0f32, -0.0, -3.5, 0.3, 0.499_999_97, 0.5, 0.999_999_94, 1.0, 1.5, 2.5, 10.9, 43.6,
        255.499, 2048.0, 65_534.5, 65_535.0, 65_535.5, 65_536.0, 1e7, 16_777_216.0, 3.3e9, 9e18,
        1e19, 3e38, f32::INFINITY, f32::NEG_INFINITY, f32::NAN,
    ] {
        assert_eq!(bits::whole(v.to_bits()), v as usize, "{v}");
        assert_eq!(
            bits::nearest(v.to_bits()),
            v.round().clamp(0.0, 65_535.0) as u16,
            "{v}"
        );
    }
}

#[test]
fn the_time_blocked_is_counted_from_the_last_reset() {
    let mut b = Backpressure::new(());
    for (nanos, want) in [(5, 5), (7, 12), (0, 12)] {
        b.charge(nanos);
        assert_eq!(b.elapsed(), want);
    }
    b.reset();
    b.reset();
    assert_eq!(b.elapsed(), 0);
    b.charge(9);
    assert_eq!(b.elapsed(), 9);
}

#[test]
fn the_quality_moves_through_its_gates() {
    let f = f32::from_bits;
    let mut g = gov();
    let mut seen = 0;
    // Overload, then a load inside the dead band, then quiet.
    for (load, frames) in [(0.5, 30), (0.09, 80), (0.0, 200), (0.5, 10)] {
        for _ in 0..frames {
            let before = g.quality().redraw_tolerance;
            let after = observe(&mut g, BUDGET.mul_f32(load), BUDGET).redraw_tolerance;
            seen += 1;
            assert_eq!(after, g.quality().redraw_tolerance);
            assert!(after.abs_diff(before) <= 2);
            assert!(f32::from(after) <= (4.0 * STEP).round());
            if after > before {
                assert!(f(g.load()) > 0.12);
            }
            if after < before {
                assert!(f(g.load()) <= 0.12 && seen >= 61);
            }
        }
    }
}

#[test]
fn a_copy_goes_on_by_itself() {
    let mut g = gov();
    feed(&mut g, 2.0, 40);
    let mut copy = g.clone();
    let held = g.tolerance();
    feed(&mut copy, 0.0, 400);
    assert_eq!(g.tolerance(), held);
    assert!(tol(&copy) < tol(&g));
    feed(&mut g, 0.0, 400);
    assert_eq!(g.tolerance(), copy.tolerance());
}
