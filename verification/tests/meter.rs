//! The stats readout.

use rmatrix::meter::{control, draw_overlay, overlay_line, set_title, title, Figures, Meter, Tally};
use rmatrix::DrawStats;

const MS: u128 = 1_000_000;

/// The figures as they are printed, from what the meter published.
fn figures(m: &Meter, speed: f32) -> Figures {
    let (fps, per_frame, damage, coalesced) = numbers(m);
    Figures {
        fps: format!("{fps:.0}"),
        speed: format!("{speed:.2}"),
        kilobytes: format!("{:.1}", per_frame / 1024.0),
        megabytes: format!("{:.2}", per_frame * fps / 1.0e6),
        cells: format!("{damage:.1}"),
        coalesced: format!("{coalesced:.0}"),
    }
}

/// Frames a second, bytes a frame, percent damaged, percent coalesced.
fn numbers(m: &Meter) -> (f32, f32, f32, f32) {
    let Some(t) = m.published() else {
        return (0.0, 0.0, 0.0, 0.0);
    };
    let secs = (t.window as f64 / 1e9) as f32;
    let damage = if t.cells == 0 {
        0.0
    } else {
        t.damaged as f32 / (t.frames as usize * t.cells) as f32 * 100.0
    };
    (
        t.frames as f32 / secs.max(f32::EPSILON),
        t.bytes as f32 / t.frames as f32,
        damage,
        t.skipped as f32 / (t.frames + t.skipped).max(1) as f32 * 100.0,
    )
}

fn stats(cells_damaged: usize, bytes: usize) -> DrawStats {
    DrawStats {
        cells_damaged,
        bytes,
        ..DrawStats::default()
    }
}

fn reports_zero() {
    let mut m = Meter::default();
    m.record(10 * MS, stats(5, 100), 1000);
    assert_eq!(
        numbers(&m).0,
        0.0,
        "should not publish an average from one sample"
    );
    assert!(overlay_line(&figures(&m, 1.0), 24, true).contains("fps"));
}

#[test]
fn meter_meter_reports_zero_before_its_first_window_closes() {
    reports_zero();
}

#[test]
fn main_meter_reports_zero_before_its_first_window_closes() {
    reports_zero();
}

fn averages() {
    let mut m = Meter::default();
    // 30 frames of 1/30s each = exactly one second, so 30 fps.
    for _ in 0..30 {
        m.record(33_333_333, stats(100, 2048), 1000);
    }
    let (fps, per_frame, damage, _) = numbers(&m);
    assert!((fps - 30.0).abs() < 1.0, "fps was {fps}");
    assert!((per_frame - 2048.0).abs() < 1.0);
    assert!((damage - 10.0).abs() < 0.5, "damage was {damage}");
}

#[test]
fn meter_meter_averages_over_its_window() {
    averages();
}

#[test]
fn main_meter_averages_over_its_window() {
    averages();
}

fn signals() {
    let mut m = Meter::default();
    // Under the 500ms window: no refresh, so no title churn.
    assert!(!m.record(100 * MS, DrawStats::default(), 100));
    assert!(!m.record(300 * MS, DrawStats::default(), 100));
    // Crossing it publishes.
    assert!(m.record(200 * MS, DrawStats::default(), 100));
    // And the window resets, so the next tick is quiet again.
    assert!(!m.record(100 * MS, DrawStats::default(), 100));
}

#[test]
fn meter_meter_signals_only_when_its_window_closes() {
    signals();
}

#[test]
fn main_meter_signals_only_when_its_window_closes() {
    signals();
}

fn legible() {
    // The title is the fallback readout when the terminal font remaps ASCII, so
    // it must survive being written raw into an OSC sequence.
    let mut m = Meter::default();
    for _ in 0..30 {
        m.record(20 * MS, stats(10, 500), 1000);
    }
    let t = title(&figures(&m, 1.0), 8, true);
    assert!(t.starts_with("rmatrix"));
    assert!(t.contains("fps"), "{t}");
    assert!(
        !t.chars().any(char::is_control),
        "title had a control char: {t:?}"
    );

    let mut buf = Vec::new();
    set_title(&mut buf, "evil\x07title\x1b[0m");
    assert_eq!(
        buf, b"\x1b]2;eviltitle[0m\x07",
        "control chars leaked into the OSC"
    );
}

#[test]
fn meter_title_stays_legible_without_control_characters() {
    legible();
}

#[test]
fn main_title_stays_legible_without_control_characters() {
    legible();
}

#[test]
fn both_readouts_name_the_speed_the_simulation_is_actually_using() {
    let m = Meter::default();
    for (speed, want) in [
        (1.0, "1.00x"),
        (1.0 / 3.0, "0.33x"),
        (3.0, "3.00x"),
        (0.05, "0.05x"),
    ] {
        let f = figures(&m, speed);
        let l = overlay_line(&f, 8, true);
        let t = title(&f, 8, true);
        assert!(l.contains(want), "line was {l:?}");
        assert!(t.contains(want), "title was {t:?}");
    }
}

#[test]
fn the_speed_field_survives_an_eighty_column_window() {
    let mut m = Meter::default();
    for _ in 0..30 {
        m.record(20 * MS, stats(900, 20_000), 1000);
    }
    let l = overlay_line(&figures(&m, 1.0 / 3.0), 8, true);
    // The premise: this line does not fit, so ordering decides what is seen.
    assert!(l.chars().count() > 80, "line got short enough to fit");

    let mut buf = Vec::new();
    draw_overlay(&mut buf, 80, &l);
    let text = String::from_utf8(buf).expect("the overlay is valid UTF-8");
    assert!(text.contains("0.33x speed"), "80-col overlay was {text:?}");
}

fn zero_cells() {
    let mut m = Meter::default();
    for _ in 0..30 {
        m.record(50 * MS, DrawStats::default(), 0);
    }
    assert_eq!(numbers(&m).2, 0.0);
    assert!(overlay_line(&figures(&m, 1.0), 24, false).contains("0.0% cells"));
}

#[test]
fn meter_meter_survives_a_zero_cell_screen() {
    zero_cells();
}

#[test]
fn main_meter_survives_a_zero_cell_screen() {
    zero_cells();
}

#[test]
fn a_closed_window_publishes_exactly_what_was_counted() {
    let mut m = Meter::default();
    m.skip();
    m.record(300 * MS, stats(3, 40), 50);
    m.skip();
    assert_eq!(m.published(), None);
    assert!(m.record(200 * MS, stats(4, 60), 70));
    assert_eq!(
        m.published(),
        Some(Tally {
            frames: 2,
            skipped: 2,
            window: 500 * MS,
            bytes: 100,
            damaged: 7,
            cells: 70,
        })
    );
    assert_eq!(m.running(), Tally::default());
}

fn sample_figures() -> Figures {
    Figures {
        fps: "30".to_string(),
        speed: "1.00".to_string(),
        kilobytes: "2.0".to_string(),
        megabytes: "0.06".to_string(),
        cells: "10.0".to_string(),
        coalesced: "0".to_string(),
    }
}

#[test]
fn the_readouts_are_exact() {
    let f = sample_figures();
    assert_eq!(
        overlay_line(&f, 24, true),
        " 30 fps · 1.00x speed · 2.0 KB/frame · 0.06 MB/s · 10.0% cells · 0% coalesced · 24 auto · q quit "
    );
    assert_eq!(
        overlay_line(&f, 0, false),
        " 30 fps · 1.00x speed · 2.0 KB/frame · 0.06 MB/s · 10.0% cells · 0% coalesced · 0 · q quit "
    );
    assert_eq!(
        title(&f, 65535, false),
        "rmatrix — 30 fps · 1.00x speed · 2.0 KB/frame · 0.06 MB/s · 10.0% cells · 0% coalesced · 65535 levels"
    );
    assert!(title(&f, 8, true).ends_with("8 levels (auto)"));
}

#[test]
fn the_overlay_leaves_no_colour_behind() {
    let mut buf = b"x".to_vec();
    draw_overlay(&mut buf, 3, "äbcdef");
    assert_eq!(
        String::from_utf8(buf).expect("valid UTF-8"),
        "x\x1b[1;1H\x1b[0m\x1b[48;2;0;40;12m\x1b[38;2;190;255;200mäbc\x1b[0m"
    );
    let mut buf = Vec::new();
    draw_overlay(&mut buf, 80, "hi");
    assert!(buf.ends_with(b"mhi\x1b[0m"));
}

#[test]
fn control_characters_are_told_apart() {
    for c in ['\0', '\x07', '\x1b', '\x1f', '\x7f', '\u{80}', '\u{9f}'] {
        assert!(control(c) && c.is_control(), "{c:?}");
    }
    for c in [' ', 'a', '~', '\u{a0}', 'é', '日'] {
        assert!(!control(c) && !c.is_control(), "{c:?}");
    }
    let mut buf = Vec::new();
    set_title(&mut buf, "é\u{85}日");
    assert_eq!(String::from_utf8(buf).expect("valid UTF-8"), "\x1b]2;é日\x07");
}
