//! What options are accepted, and what becomes of them.

use rmatrix::cli::{
    default_max_step, frame_period, validate, Invalid, Options, Settings, CYCLE, MAX_STEP_FLOOR,
    MAX_STEP_FRAMES, SECOND,
};
use rmatrix::theme::{BaseColor, Levels};
use rmatrix::{Charset, Depth};
use std::time::Duration;

fn args() -> Options {
    Options::default()
}

fn check(o: &Options) -> Result<Settings, Invalid> {
    validate(o, Depth::True, three_frames)
}

fn three_frames(frame: u128) -> u32 {
    (seconds(frame) * f32::from(MAX_STEP_FRAMES)).to_bits()
}

/// The largest step, in seconds.
fn max_step(s: &Settings) -> f32 {
    f32::from_bits(s.max_step)
}

/// The step clamp for a frame period, in seconds.
fn derived(frame: Duration) -> f32 {
    f32::from_bits(default_max_step(three_frames(frame.as_nanos())))
}

fn seconds(nanos: u128) -> f32 {
    span(nanos).as_secs_f32()
}

fn span(nanos: u128) -> Duration {
    Duration::new((nanos / SECOND) as u64, (nanos % SECOND) as u32)
}

fn at_fps(fps: u16) -> Options {
    Options { fps, ..args() }
}

fn holds_defaults_are_valid() {
    assert!(check(&args()).is_ok());
}

#[test]
fn cli_defaults_are_valid() {
    holds_defaults_are_valid();
}

#[test]
fn main_defaults_are_valid() {
    holds_defaults_are_valid();
}

fn holds_cli_parses_the_documented_flags() {
    let a = Options {
        color: "#ff0000".into(),
        charset: Charset::Katakana,
        speed: 2.0f32.to_bits(),
        density: 0.9f32.to_bits(),
        bold: true,
        screensaver: true,
        fps: 30,
        seed: Some(12),
        tail_min: 2.0f32.to_bits(),
        tail_max: 9.0f32.to_bits(),
        ..args()
    };
    let s = check(&a).expect("should validate");
    assert_eq!(s.base, (255, 0, 0));
    assert_eq!(span(s.frame), Duration::from_secs_f64(1.0 / 30.0));
    assert_eq!(s.config.seed, Some(12));
    assert_eq!(s.config.glyphs, Charset::Katakana.glyphs(""));
}

#[test]
fn cli_cli_parses_the_documented_flags() {
    holds_cli_parses_the_documented_flags();
}

#[test]
fn main_cli_parses_the_documented_flags() {
    holds_cli_parses_the_documented_flags();
}

fn holds_rainbow_sets_the_flag_not_a_literal_colour() {
    let mut a = args();
    a.color = "rainbow".into();
    assert!(check(&a).expect("valid").rainbow);
}

#[test]
fn cli_rainbow_sets_the_flag_not_a_literal_colour() {
    holds_rainbow_sets_the_flag_not_a_literal_colour();
}

#[test]
fn main_rainbow_sets_the_flag_not_a_literal_colour() {
    holds_rainbow_sets_the_flag_not_a_literal_colour();
}

fn holds_bad_density_is_rejected() {
    for d in [-0.1, 1.1, f32::NAN] {
        let mut a = args();
        a.density = d.to_bits();
        assert!(check(&a).is_err(), "density {d} should be rejected");
    }
}

#[test]
fn cli_bad_density_is_rejected() {
    holds_bad_density_is_rejected();
}

#[test]
fn main_bad_density_is_rejected() {
    holds_bad_density_is_rejected();
}

fn holds_bad_tails_are_rejected() {
    let mut a = args();
    (a.tail_min, a.tail_max) = (20.0f32.to_bits(), 5.0f32.to_bits());
    assert!(
        check(&a).is_err(),
        "tail-max below tail-min should be rejected"
    );

    let mut a = args();
    a.tail_min = 0.0f32.to_bits();
    assert!(check(&a).is_err(), "zero tail-min should be rejected");
}

#[test]
fn cli_bad_tails_are_rejected() {
    holds_bad_tails_are_rejected();
}

#[test]
fn main_bad_tails_are_rejected() {
    holds_bad_tails_are_rejected();
}

fn holds_nonpositive_speed_is_rejected() {
    for sp in [0.0, -1.0, f32::INFINITY] {
        let mut a = args();
        a.speed = sp.to_bits();
        assert!(check(&a).is_err(), "speed {sp} should be rejected");
    }
}

#[test]
fn cli_nonpositive_speed_is_rejected() {
    holds_nonpositive_speed_is_rejected();
}

#[test]
fn main_nonpositive_speed_is_rejected() {
    holds_nonpositive_speed_is_rejected();
}

fn holds_custom_charset_requires_glyphs() {
    let mut a = args();
    a.charset = Charset::Custom;
    assert!(
        check(&a).is_err(),
        "custom charset without --custom should be rejected"
    );
    a.custom = "ab".into();
    assert!(check(&a).is_ok());
}

#[test]
fn cli_custom_charset_requires_glyphs() {
    holds_custom_charset_requires_glyphs();
}

#[test]
fn main_custom_charset_requires_glyphs() {
    holds_custom_charset_requires_glyphs();
}

fn holds_custom_glyphs_that_would_desync_the_renderer_are_rejected() {
    for (bad, what) in [
        ("a\u{7}b", "a control character"),
        ("ab\u{1b}", "an escape"),
        ("日", "a fullwidth ideograph"),
        ("Ａ", "fullwidth ASCII"),
        ("🌧", "a pictograph"),
        ("e\u{0301}", "a combining acute"),
        ("a\u{200D}b", "a zero-width joiner"),
    ] {
        let mut a = args();
        a.charset = Charset::Custom;
        a.custom = bad.into();
        assert!(
            check(&a).is_err(),
            "{bad:?} contains {what} and should be rejected"
        );
    }
}

#[test]
fn cli_custom_glyphs_that_would_desync_the_renderer_are_rejected() {
    holds_custom_glyphs_that_would_desync_the_renderer_are_rejected();
}

#[test]
fn main_custom_glyphs_that_would_desync_the_renderer_are_rejected() {
    holds_custom_glyphs_that_would_desync_the_renderer_are_rejected();
}

fn holds_single_column_custom_glyphs_are_accepted() {
    // Halfwidth katakana is the case that must not be caught by the width check:
    // it sits directly above the fullwidth block it is screening for.
    for good in ["abc", "ｱｲｳ", "01", "αβγ", "!@#"] {
        let mut a = args();
        a.charset = Charset::Custom;
        a.custom = good.into();
        assert!(check(&a).is_ok(), "{good:?} should be accepted");
    }
}

#[test]
fn cli_single_column_custom_glyphs_are_accepted() {
    holds_single_column_custom_glyphs_are_accepted();
}

#[test]
fn main_single_column_custom_glyphs_are_accepted() {
    holds_single_column_custom_glyphs_are_accepted();
}

fn holds_a_rejected_custom_glyph_says_which_flag_and_which_character() {
    for bad in ["a\u{7}b", "日", "a\u{200D}b"] {
        let mut a = args();
        a.charset = Charset::Custom;
        a.custom = bad.into();
        let e = check(&a).expect_err("should reject").message("x", "");
        assert!(e.contains("--custom"), "error did not name the flag: {e}");
        assert!(
            e.contains("U+"),
            "error did not identify the character: {e}"
        );
    }
}

#[test]
fn cli_a_rejected_custom_glyph_says_which_flag_and_which_character() {
    holds_a_rejected_custom_glyph_says_which_flag_and_which_character();
}

#[test]
fn main_a_rejected_custom_glyph_says_which_flag_and_which_character() {
    holds_a_rejected_custom_glyph_says_which_flag_and_which_character();
}

fn holds_unknown_colour_is_rejected_with_context() {
    let mut a = args();
    a.color = "chartreuse".into();
    let e = check(&a).expect_err("should reject");
    let text = e.message("chartreuse", "");
    assert!(text.contains("--color"), "error lost its context: {text}");
}

#[test]
fn cli_unknown_colour_is_rejected_with_context() {
    holds_unknown_colour_is_rejected_with_context();
}

#[test]
fn main_unknown_colour_is_rejected_with_context() {
    holds_unknown_colour_is_rejected_with_context();
}

fn holds_the_step_clamp_never_throttles_the_frame_rate_asked_for() {
    for fps in [1u16, 5, 10, 15, 24, 30, 60, 120, 240] {
        let s = check(&at_fps(fps)).expect("valid");
        assert!(
            max_step(&s) >= seconds(s.frame),
            "at {fps} fps the clamp {} is under the frame period {:?}",
            max_step(&s),
            s.frame
        );
    }
}

#[test]
fn cli_the_step_clamp_never_throttles_the_frame_rate_asked_for() {
    holds_the_step_clamp_never_throttles_the_frame_rate_asked_for();
}

#[test]
fn main_the_step_clamp_never_throttles_the_frame_rate_asked_for() {
    holds_the_step_clamp_never_throttles_the_frame_rate_asked_for();
}

fn holds_the_step_clamp_is_unchanged_at_the_default_frame_rate() {
    assert!((max_step(&check(&args()).expect("valid")) - 0.1).abs() < 1e-6);
    // Faster frame rates keep the floor rather than shrinking with it.
    assert!((max_step(&check(&at_fps(120)).expect("valid")) - 0.1).abs() < 1e-6);
    // Slower ones scale up.
    assert!((max_step(&check(&at_fps(5)).expect("valid")) - 0.6).abs() < 1e-6);
}

#[test]
fn cli_the_step_clamp_is_unchanged_at_the_default_frame_rate() {
    holds_the_step_clamp_is_unchanged_at_the_default_frame_rate();
}

#[test]
fn main_the_step_clamp_is_unchanged_at_the_default_frame_rate() {
    holds_the_step_clamp_is_unchanged_at_the_default_frame_rate();
}

fn holds_fps_is_clamped_rather_than_dividing_by_zero() {
    assert_eq!(
        span(check(&at_fps(0)).expect("valid").frame),
        Duration::from_secs(1)
    );
    assert_eq!(
        span(check(&at_fps(u16::MAX)).expect("valid").frame),
        Duration::from_secs_f64(1.0 / 240.0)
    );
}

#[test]
fn cli_fps_is_clamped_rather_than_dividing_by_zero() {
    holds_fps_is_clamped_rather_than_dividing_by_zero();
}

#[test]
fn main_fps_is_clamped_rather_than_dividing_by_zero() {
    holds_fps_is_clamped_rather_than_dividing_by_zero();
}

fn holds_colour_depth_can_be_forced() {
    for (flag, want) in [
        ("truecolor", Depth::True),
        ("256", Depth::Ansi256),
        ("16", Depth::Ansi16),
    ] {
        let mut a = args();
        a.color_depth = flag.into();
        assert_eq!(check(&a).expect("valid").depth, want);
    }
}

#[test]
fn cli_colour_depth_can_be_forced() {
    holds_colour_depth_can_be_forced();
}

#[test]
fn main_colour_depth_can_be_forced() {
    holds_colour_depth_can_be_forced();
}

fn holds_every_cycled_charset_yields_glyphs() {
    for cs in CYCLE {
        assert!(!cs.glyphs("").is_empty(), "{cs:?} produced no glyphs");
    }
}

#[test]
fn cli_every_cycled_charset_yields_glyphs() {
    holds_every_cycled_charset_yields_glyphs();
}

#[test]
fn main_every_cycled_charset_yields_glyphs() {
    holds_every_cycled_charset_yields_glyphs();
}

fn holds_perf_defaults_favour_the_terminal() {
    // These two defaults exist to keep output volume down; raising them casually
    // should give pause.
    let a = args();
    assert_eq!(a.fps, 30, "fps default drives output volume linearly");
    assert_eq!(
        a.levels,
        Levels::Auto,
        "quality should size itself to the window"
    );
    assert!(!a.stats, "the overlay should be opt-in");
}

#[test]
fn cli_perf_defaults_favour_the_terminal() {
    holds_perf_defaults_favour_the_terminal();
}

#[test]
fn main_perf_defaults_favour_the_terminal() {
    holds_perf_defaults_favour_the_terminal();
}

fn holds_levels_and_stats_are_settable() {
    let a = Options {
        levels: Levels::parse("8").expect("a number"),
        stats: true,
        fps: 120,
        ..args()
    };
    assert_eq!(a.levels, Levels::Fixed(8));
    assert!(a.stats);
    assert!(check(&a).is_ok());

    // 0 is the documented "no quantisation" escape hatch.
    let a = Options {
        levels: Levels::parse("0").expect("a number"),
        ..args()
    };
    assert_eq!(a.levels, Levels::Fixed(0));
    assert!(check(&a).is_ok());
}

#[test]
fn cli_levels_and_stats_are_settable() {
    holds_levels_and_stats_are_settable();
}

#[test]
fn main_levels_and_stats_are_settable() {
    holds_levels_and_stats_are_settable();
}

fn holds_auto_levels_track_the_window_but_a_fixed_setting_does_not() {
    let auto = args().levels;
    assert!(auto.resolve(80, 24) > auto.resolve(204, 175));

    let fixed = Levels::parse("20").expect("a number");
    assert_eq!(fixed.resolve(80, 24), fixed.resolve(204, 175));
}

#[test]
fn cli_auto_levels_track_the_window_but_a_fixed_setting_does_not() {
    holds_auto_levels_track_the_window_but_a_fixed_setting_does_not();
}

#[test]
fn main_auto_levels_track_the_window_but_a_fixed_setting_does_not() {
    holds_auto_levels_track_the_window_but_a_fixed_setting_does_not();
}

fn holds_bad_levels_are_rejected_by_the_parser() {
    for bad in ["twelve", "-3", "auto2", "1.5"] {
        assert!(
            Levels::parse(bad).is_none(),
            "--levels {bad} should be rejected"
        );
    }
}

#[test]
fn cli_bad_levels_are_rejected_by_the_parser() {
    holds_bad_levels_are_rejected_by_the_parser();
}

#[test]
fn main_bad_levels_are_rejected_by_the_parser() {
    holds_bad_levels_are_rejected_by_the_parser();
}

fn holds_the_step_clamp_never_truncates_an_ordinary_frame() {
    for fps in [1u16, 2, 5, 10, 24, 30, 60, 120, 240] {
        let frame = Duration::from_secs_f64(1.0 / f64::from(fps));
        let clamp = derived(frame);
        assert!(
            clamp >= frame.as_secs_f32(),
            "--fps {fps}: clamp {clamp} truncates a normal {:?} frame",
            frame
        );
    }
}

#[test]
fn cli_the_step_clamp_never_truncates_an_ordinary_frame() {
    holds_the_step_clamp_never_truncates_an_ordinary_frame();
}

#[test]
fn main_the_step_clamp_never_truncates_an_ordinary_frame() {
    holds_the_step_clamp_never_truncates_an_ordinary_frame();
}

fn holds_the_step_clamp_is_unchanged_at_thirty_fps_and_above() {
    for fps in [30u16, 60, 120, 240] {
        let frame = Duration::from_secs_f64(1.0 / f64::from(fps));
        assert_eq!(
            derived(frame),
            0.1,
            "--fps {fps} changed behaviour"
        );
    }
    // Below 30 it is deliberately looser, but never tighter.
    for fps in [10u16, 24] {
        let frame = Duration::from_secs_f64(1.0 / f64::from(fps));
        assert!(
            derived(frame) >= 0.1,
            "--fps {fps} got tighter, not looser"
        );
    }
}

#[test]
fn cli_the_step_clamp_is_unchanged_at_thirty_fps_and_above() {
    holds_the_step_clamp_is_unchanged_at_thirty_fps_and_above();
}

#[test]
fn main_the_step_clamp_is_unchanged_at_thirty_fps_and_above() {
    holds_the_step_clamp_is_unchanged_at_thirty_fps_and_above();
}

fn holds_the_step_clamp_still_catches_a_real_stall() {
    // It must not become so loose that a genuine stall teleports the rain.
    for fps in [5u16, 30, 60] {
        let frame = Duration::from_secs_f64(1.0 / f64::from(fps));
        let clamp = derived(frame);
        assert!(clamp <= 0.6, "--fps {fps}: clamp {clamp} is too permissive");
        // A ten-frame stall is abnormal and must still be clamped.
        assert!(clamp < frame.as_secs_f32() * 10.0);
    }
}

#[test]
fn cli_the_step_clamp_still_catches_a_real_stall() {
    holds_the_step_clamp_still_catches_a_real_stall();
}

#[test]
fn main_the_step_clamp_still_catches_a_real_stall() {
    holds_the_step_clamp_still_catches_a_real_stall();
}

#[test]
fn each_broken_rule_has_its_own_error() {
    let cases: Vec<(Options, Invalid)> = vec![
        (
            Options {
                color: "#12345g".into(),
                ..args()
            },
            Invalid::Color,
        ),
        (
            Options {
                density: (-0.1f32).to_bits(),
                ..args()
            },
            Invalid::Density,
        ),
        (
            Options {
                speed: 0.0f32.to_bits(),
                ..args()
            },
            Invalid::Speed,
        ),
        (
            Options {
                tail_min: f32::NAN.to_bits(),
                ..args()
            },
            Invalid::TailMin,
        ),
        (
            Options {
                tail_max: f32::INFINITY.to_bits(),
                ..args()
            },
            Invalid::TailMax,
        ),
        (
            Options {
                mutate: (-1.0f32).to_bits(),
                ..args()
            },
            Invalid::Mutate,
        ),
        (
            Options {
                charset: Charset::Custom,
                ..args()
            },
            Invalid::NoGlyphs,
        ),
        (
            Options {
                custom: "ab\u{7}日".into(),
                ..args()
            },
            Invalid::Control('\u{7}'),
        ),
        (
            Options {
                custom: "a日\u{7}".into(),
                ..args()
            },
            Invalid::Wide('日'),
        ),
        (
            Options {
                custom: "a\u{200D}".into(),
                ..args()
            },
            Invalid::ZeroWidth('\u{200D}'),
        ),
    ];
    for (o, want) in cases {
        assert_eq!(check(&o).expect_err("should reject"), want);
    }
}

#[test]
fn the_first_broken_rule_is_the_one_reported() {
    let o = Options {
        density: 2.0f32.to_bits(),
        speed: (-1.0f32).to_bits(),
        custom: "日".into(),
        ..args()
    };
    assert_eq!(check(&o).expect_err("should reject"), Invalid::Density);
}

#[test]
fn the_edges_of_each_range_are_accepted() {
    let o = Options {
        density: 0.0f32.to_bits(),
        tail_min: 0.25f32.to_bits(),
        tail_max: 0.25f32.to_bits(),
        mutate: 0.0f32.to_bits(),
        speed: f32::MIN_POSITIVE.to_bits(),
        ..args()
    };
    assert!(check(&o).is_ok());
    let o = Options {
        density: 1.0f32.to_bits(),
        mutate: (-0.0f32).to_bits(),
        ..args()
    };
    assert!(check(&o).is_ok());
}

#[test]
fn messages_are_exact() {
    assert_eq!(
        Invalid::TailMax.message("5", "20"),
        "--tail-max (5) must be >= --tail-min (20)"
    );
    assert_eq!(
        Invalid::Density.message("1.1", ""),
        "--density must be between 0.0 and 1.0, got 1.1"
    );
    assert_eq!(
        Invalid::Control('\u{7}').message("", ""),
        "--custom cannot contain control characters, found U+0007"
    );
    assert_eq!(
        Invalid::Wide('🌧').message("'🌧'", ""),
        "--custom needs single-column glyphs, but '🌧' (U+1F327) is double-width"
    );
    assert_eq!(
        Invalid::ZeroWidth('\u{200D}').message("", ""),
        "--custom needs single-column glyphs, but U+200D is combining or zero-width"
    );
    assert_eq!(
        Invalid::NoGlyphs.message("", ""),
        "--charset custom needs --custom <GLYPHS>"
    );
}

#[test]
fn a_given_step_limit_is_kept() {
    let o = Options {
        max_step: 0.25f32.to_bits(),
        ..args()
    };
    assert_eq!(check(&o).expect("valid").max_step, 0.25f32.to_bits());
    for bad in [0.0, -1.0, f32::NAN, f32::INFINITY] {
        let o = Options {
            max_step: bad.to_bits(),
            ..args()
        };
        assert_eq!(check(&o).expect("valid").max_step, MAX_STEP_FLOOR);
        assert_eq!(f32::from_bits(MAX_STEP_FLOOR), 0.1);
    }
}

#[test]
fn an_unforced_depth_is_the_detected_one() {
    for d in [Depth::True, Depth::Ansi256, Depth::Ansi16] {
        assert_eq!(validate(&args(), d, three_frames).expect("valid").depth, d);
    }
}

#[test]
fn frame_periods_are_to_the_nearest_nanosecond() {
    for fps in 1..=240u16 {
        assert_eq!(
            span(frame_period(fps)),
            Duration::from_secs_f64(1.0 / f64::from(fps)),
            "{fps} fps"
        );
    }
}

#[test]
fn colours_are_read_by_name_and_by_number() {
    assert_eq!(
        BaseColor::parse("#00fF41"),
        Some(BaseColor((0, 255, 65), false))
    );
    assert_eq!(
        BaseColor::parse("green"),
        Some(BaseColor((0, 255, 65), false))
    );
    assert_eq!(
        BaseColor::parse("cyan"),
        Some(BaseColor((0, 255, 255), false))
    );
    for bad in ["", "#", "#12345", "#1234567", "00ff41", "#00ff4g", "Green "] {
        assert_eq!(BaseColor::parse(bad), None, "{bad:?}");
    }
}

#[test]
fn level_counts_are_read_to_their_limits() {
    assert_eq!(Levels::parse("auto"), Some(Levels::Auto));
    assert_eq!(Levels::parse("65535"), Some(Levels::Fixed(u16::MAX)));
    assert_eq!(Levels::parse("+7"), Some(Levels::Fixed(7)));
    assert_eq!(Levels::parse("007"), Some(Levels::Fixed(7)));
    for bad in ["", "+", "65536", "99999999999999999999", " 8", "8 ", "Auto"] {
        assert_eq!(Levels::parse(bad), None, "{bad:?}");
    }
}

#[test]
fn the_depth_follows_what_the_terminal_calls_itself() {
    for (colorterm, term, want) in [
        ("truecolor", "xterm", Depth::True),
        ("x-24bit", "", Depth::True),
        ("", "xterm-256color", Depth::Ansi256),
        ("yes", "screen-256color-bce", Depth::Ansi256),
        ("", "vt100", Depth::Ansi16),
        ("", "", Depth::Ansi16),
        ("true", "256colo", Depth::Ansi16),
    ] {
        assert_eq!(Depth::detect(colorterm, term), want, "{colorterm} {term}");
    }
}

#[test]
fn a_derived_step_limit_is_three_frames_to_the_last_bit() {
    for fps in 1..=240u16 {
        let frame = Duration::from_secs_f64(1.0 / f64::from(fps));
        let want = (frame.as_secs_f32() * 3.0).max(0.1);
        assert_eq!(max_step(&check(&at_fps(fps)).expect("valid")), want, "{fps} fps");
    }
}
