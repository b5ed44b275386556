//! The event loop's decisions, and how the terminal is put back.

use rmatrix::keys::Key;
use rmatrix::meter::{draw_overlay, overlay_line, set_title, title, Figures, Meter};
use rmatrix::render::{Estimate, Frame, Sample};
use rmatrix::session::{Action, Session, Setup, Stroke, BENCH_PRIME_TICKS};
use rmatrix::term::restore_sequence;
use rmatrix::text::{letters, push_hex, push_number, same};
use rmatrix::{
    auto_levels, Charset, Depth, DrawStats, Levels, Renderer, DEFAULT_LEVELS, MIN_AUTO_LEVELS,
};

const MS: u128 = 1_000_000;

fn start() -> Setup {
    Setup {
        w: 80,
        h: 24,
        charset: Charset::Classic,
        levels: Levels::Auto,
        rainbow: false,
        bold: false,
        stats: false,
        screensaver: false,
        bench: None,
        frame: 33 * MS,
        max_step: 0.1f32.to_bits(),
        now: 1_000 * MS,
    }
}

fn press(s: &mut Session, c: char, at_ms: u128) -> Action {
    s.key(Key::Char(c), false, Stroke::Press, at_ms * MS)
}

fn estimate(_: usize, _: usize) -> Estimate {
    Estimate {
        fits: true,
        allow: 0,
    }
}

/// A frame with nothing in it, as drawn at `now`.
fn empty_frame(s: &mut Session, now: u128) -> (Vec<u8>, u128) {
    let nothing = Frame {
        w: 0,
        h: 0,
        cells: Vec::new(),
    };
    let c = s
        .compose(
            Some((Vec::new(), nothing)),
            &mut Renderer::new(0, 0),
            &mut Meter::default(),
            Depth::True,
            estimate,
            now,
        )
        .expect("there was a buffer");
    assert_eq!(c.stats, DrawStats::default());
    (c.buf, c.interval)
}

/// What is parked for the next frame.
fn parked(s: &mut Session) -> Vec<u8> {
    empty_frame(s, 0).0
}

#[test]
fn every_key_does_what_it_says() {
    let mut s = Session::new(start());
    assert_eq!(press(&mut s, ' ', 0), Action::Nothing);
    assert!(s.paused());
    assert_eq!(press(&mut s, 'r', 1), Action::Repaint);
    assert!(s.rainbow());
    assert_eq!(press(&mut s, 'b', 2), Action::Repaint);
    assert_eq!(parked(&mut s), b"\x1b[1m");
    assert_eq!(press(&mut s, 'c', 3), Action::Glyphs(Charset::Katakana));
    assert_eq!(press(&mut s, 'b', 4), Action::Repaint);
    assert_eq!(parked(&mut s), b"\x1b[22m");
    assert_eq!(press(&mut s, 'f', 5), Action::Repaint);
    assert!(s.show_stats());
    assert!(parked(&mut s).is_empty());
    assert_eq!(press(&mut s, '7', 6), Action::Speed(7));
    assert_eq!(press(&mut s, 'f', 7), Action::Repaint);
    assert!(!s.show_stats());
    assert_eq!(parked(&mut s), b"\x1b]2;rmatrix\x07");
    for c in ['0', 'z', '!', 'Q'] {
        assert_eq!(press(&mut s, c, 8), Action::Nothing);
    }
    assert_eq!(
        s.key(Key::Other(3), false, Stroke::Press, 9 * MS),
        Action::Nothing
    );
}

#[test]
fn quit_keys_quit_however_they_come() {
    let mut s = Session::new(start());
    for stroke in [Stroke::Press, Stroke::Repeat] {
        for _ in 0..3 {
            assert_eq!(s.key(Key::Char('q'), false, stroke, 0), Action::Quit);
            assert_eq!(s.key(Key::Esc, false, stroke, 0), Action::Quit);
            assert_eq!(s.key(Key::Char('c'), true, stroke, 0), Action::Quit);
        }
    }
    assert_eq!(
        s.key(Key::Char('q'), false, Stroke::Release, 0),
        Action::Nothing
    );
    let mut saver = Session::new(Setup {
        screensaver: true,
        ..start()
    });
    assert_eq!(press(&mut saver, 'x', 0), Action::Quit);
}

#[test]
fn holding_a_key_toggles_once() {
    let mut s = Session::new(start());
    for i in 0..51 {
        press(&mut s, ' ', 90 * i);
    }
    assert!(s.paused(), "an odd number of repeats");
    for i in 0..7 {
        s.key(Key::Char(' '), false, Stroke::Repeat, 10_000 * MS * i);
    }
    assert!(s.paused(), "what is reported as repeat changed something");
    press(&mut s, ' ', 5_000);
    assert!(!s.paused(), "a fresh press");
}

#[test]
fn the_cycle_comes_round() {
    let mut s = Session::new(Setup {
        charset: Charset::Binary,
        ..start()
    });
    let seen: Vec<Action> = (0..6).map(|i| press(&mut s, 'c', 200 * i)).collect();
    assert_eq!(
        seen,
        vec![
            Action::Glyphs(Charset::Greek),
            Action::Glyphs(Charset::Classic),
            Action::Glyphs(Charset::Katakana),
            Action::Glyphs(Charset::Ascii),
            Action::Glyphs(Charset::Alnum),
            Action::Glyphs(Charset::Binary),
        ]
    );
    // A charset outside the cycle starts it from the beginning.
    let mut s = Session::new(Setup {
        charset: Charset::Hex,
        ..start()
    });
    assert_eq!(press(&mut s, 'c', 0), Action::Glyphs(Charset::Katakana));
}

#[test]
fn a_resize_is_followed_and_never_empty() {
    let mut s = Session::new(Setup {
        w: 0,
        h: 0,
        ..start()
    });
    assert_eq!((s.width(), s.height()), (1, 1));
    s.resize(204, 175);
    assert_eq!((s.width(), s.height()), (204, 175));
    assert_eq!(s.quantisation(), 8);
    assert_eq!(parked(&mut s), b"\x1b[2J");
    s.resize(0, 9);
    assert_eq!((s.width(), s.height()), (1, 9));
    assert_eq!(s.quantisation(), 24);
}

#[test]
fn the_cadence_neither_drifts_nor_bursts() {
    let mut s = Session::new(start());
    assert_eq!(s.remaining(1_000 * MS), Some(33 * MS));
    assert_eq!(s.remaining(1_033 * MS), Some(0));
    assert_eq!(s.remaining(1_034 * MS), None);
    // A tick that comes a little late does not push the next one out.
    let t = s.tick(1_035 * MS);
    assert_eq!((t.interval, t.moves), (35 * MS, true));
    assert_eq!(f32::from_bits(s.step(0.035f32.to_bits())), 0.035);
    assert_eq!(s.remaining(1_035 * MS), Some(31 * MS));
    // A stall is clamped, and the cadence starts afresh.
    let t = s.tick(2_000 * MS);
    assert_eq!(t.interval, 965 * MS);
    assert_eq!(f32::from_bits(s.step(0.965f32.to_bits())), 0.1);
    assert_eq!(s.remaining(2_000 * MS), Some(33 * MS));
}

#[test]
fn a_pause_holds_the_rain_and_a_given_limit_clamps_it() {
    let mut s = Session::new(Setup {
        max_step: 0.25f32.to_bits(),
        ..start()
    });
    assert!(s.tick(1_033 * MS).moves);
    for (secs, want) in [(0.0f32, 0.0f32), (0.2, 0.2), (0.25, 0.25), (7.0, 0.25)] {
        assert_eq!(f32::from_bits(s.step(secs.to_bits())), want);
    }
    press(&mut s, ' ', 1_040);
    assert!(!s.tick(1_066 * MS).moves);
}

#[test]
fn a_bench_run_has_its_ticks() {
    let mut s = Session::new(Setup {
        bench: Some(10),
        ..start()
    });
    let mut ticks = 0;
    loop {
        let t = s.tick(1_000 * MS + 33 * MS * (ticks + 1));
        assert_eq!(t.measured, ticks >= u128::from(BENCH_PRIME_TICKS));
        ticks += 1;
        if s.end_tick(ticks % 3 == 0) {
            break;
        }
    }
    assert_eq!(ticks, 25);
    let (sent, folded) = s.counts();
    assert_eq!(sent + folded, 10);
    assert_eq!(sent, 3);

    let mut endless = Session::new(start());
    for i in 0..100 {
        assert!(!endless.tick(33 * MS * i).measured);
        assert!(!endless.end_tick(true));
    }
}

#[test]
fn frames_are_timed_from_one_to_the_next() {
    let mut s = Session::new(start());
    assert_eq!(empty_frame(&mut s, 1_050 * MS).1, 50 * MS);
    assert_eq!(empty_frame(&mut s, 1_080 * MS).1, 30 * MS);
    assert_eq!(empty_frame(&mut s, 1_000 * MS).1, 0);
}

#[test]
fn the_terminal_is_put_back_exactly() {
    assert_eq!(
        restore_sequence(),
        b"\x1b[23;2t\x1b[0m\x1b[?25h\x1b[?7h\x1b[?1049l"
    );
}

#[test]
fn auto_levels_follow_the_curve() {
    assert_eq!((DEFAULT_LEVELS, MIN_AUTO_LEVELS), (24, 6));
    for ((w, h), want) in [
        ((80, 24), 24),
        ((120, 40), 22),
        ((200, 50), 15),
        ((204, 175), 8),
        ((0, 0), 24),
        ((u16::MAX, u16::MAX), 6),
    ] {
        assert_eq!(auto_levels(w, h), want, "{w}x{h}");
    }
    for (w, h) in [(1u16, 1u16), (33, 47), (200, 200), (120, 120), (300, 81), (999, 3)] {
        let cells = f64::from(w) * f64::from(h);
        let want = (1500.0 / cells.sqrt()).round().clamp(6.0, 24.0) as u16;
        assert_eq!(auto_levels(w, h), want, "{w}x{h}");
    }
}

#[test]
fn small_pieces_of_text() {
    assert!(same("auto", "auto") && !same("auto", "autö") && !same("auto", "aut"));
    assert_eq!(letters("aｱ🌧"), vec!['a', 'ｱ', '🌧']);
    let mut s = String::from("n=");
    push_number(&mut s, 0);
    push_number(&mut s, 4_294_967_295);
    assert_eq!(s, "n=04294967295");
    let mut s = String::new();
    push_hex(&mut s, 7, 4);
    push_hex(&mut s, 0x1F327, 4);
    push_hex(&mut s, 0, 0);
    assert_eq!(s, "00071F3270");
}

#[test]
fn a_busy_terminal_costs_a_skip_and_nothing_else() {
    let mut s = Session::new(start());
    let mut rr = Renderer::new(2, 1);
    let mut meter = Meter::default();
    press(&mut s, 'b', 1);
    for n in 1..=3 {
        assert!(s
            .compose(None, &mut rr, &mut meter, Depth::True, estimate, 5 * MS)
            .is_none());
        assert_eq!(meter.running().skipped, n);
        assert_eq!(rr.max_debt(), 0);
    }
    let frame = Frame {
        w: 2,
        h: 1,
        cells: vec![
            Some(Sample {
                ch: 'x',
                rgb: (0, 255, 65),
                head: false,
            }),
            None,
        ],
    };
    let c = s
        .compose(
            Some((b"<".to_vec(), frame)),
            &mut rr,
            &mut meter,
            Depth::True,
            estimate,
            1_040 * MS,
        )
        .expect("there was a buffer");
    // What was parked comes first, then the frame, once.
    assert_eq!(c.buf, b"<\x1b[1m\x1b[1;1H\x1b[38;2;0;255;65mx");
    assert_eq!((c.stats.cells_drawn, c.interval), (1, 40 * MS));
    assert_eq!((meter.running().skipped, meter.running().frames), (3, 0));
    assert!(parked(&mut s).is_empty());
}

#[test]
fn a_readout_follows_the_frame_where_it_is_shown() {
    let figures = Figures {
        fps: "30".into(),
        speed: "1.00".into(),
        kilobytes: "2.0".into(),
        megabytes: "0.06".into(),
        cells: "7.0".into(),
        coalesced: "0".into(),
    };
    let lit = Sample {
        ch: 'x',
        rgb: (0, 255, 65),
        head: false,
    };
    for (shown, levels, auto, steps) in [
        (false, Levels::Auto, true, 24),
        (true, Levels::Auto, true, 24),
        (true, Levels::Fixed(9), false, 9),
    ] {
        for closed in [false, true] {
            let mut s = Session::new(Setup {
                stats: shown,
                levels,
                ..start()
            });
            let mut rr = Renderer::new(2, 1);
            let picture = |b: Option<Sample>| Frame {
                w: 2,
                h: 1,
                cells: vec![Some(lit), b],
            };
            let compose = |s: &mut Session, rr: &mut Renderer, b: Option<Sample>| {
                s.compose(
                    Some((Vec::new(), picture(b))),
                    rr,
                    &mut Meter::default(),
                    Depth::True,
                    estimate,
                    0,
                )
                .expect("there was a buffer")
            };
            let c = compose(&mut s, &mut rr, None);
            let mut want = c.buf.clone();
            if shown {
                draw_overlay(&mut want, 80, &overlay_line(&figures, steps, auto));
                if closed {
                    set_title(&mut want, &title(&figures, steps, auto));
                }
            }
            assert_eq!(s.annotate(c, &mut rr, &figures, closed), want);
            // Behind a readout, neither the cursor nor the pen is where it was.
            let next = compose(&mut s, &mut rr, Some(lit)).buf;
            let want: &[u8] = if shown {
                b"\x1b[1;2H\x1b[38;2;0;255;65mx"
            } else {
                b"x"
            };
            assert_eq!(next, want);
        }
    }
}
