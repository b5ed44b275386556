//! The auto-repeat filter.

use rmatrix::keys::{Key, Repeat, REPEAT_WINDOW};

const MS: u128 = 1_000_000;

/// `n` presses of `key` spaced `gap_ms` apart, counting how many get through.
fn accepted(key: Key, n: usize, gap_ms: u128) -> usize {
    let mut r = Repeat::default();
    let t0 = 17 * MS;
    (0..n)
        .filter(|i| r.accept(key, t0 + gap_ms * MS * *i as u128))
        .count()
}

#[test]
fn a_held_key_acts_once_however_long_it_is_held() {
    for gap_ms in [15u128, 30, 90, 149] {
        for n in [1usize, 2, 3, 4, 5, 20, 21, 100] {
            assert_eq!(
                accepted(Key::Char(' '), n, gap_ms),
                1,
                "{n} presses {gap_ms}ms apart should act once"
            );
        }
    }
}

#[test]
fn the_window_clears_every_auto_repeat_rate_we_expect_to_meet() {
    for (platform, interval_ms) in [
        ("macOS default", 90u128),
        ("macOS fastest slider", 30),
        ("macOS defaults-write floor", 15),
        ("X11 typical", 33),
    ] {
        assert!(
            REPEAT_WINDOW > interval_ms * MS,
            "{platform} repeats every {interval_ms}ms, inside the window"
        );
    }
}

#[test]
fn deliberate_presses_still_get_through() {
    // The filter is only worth having if it leaves ordinary use alone.
    for gap_ms in [150u128, 200, 400, 1000] {
        assert_eq!(
            accepted(Key::Char(' '), 5, gap_ms),
            5,
            "presses {gap_ms}ms apart are a human, not auto-repeat"
        );
    }
}

#[test]
fn a_different_key_is_never_suppressed() {
    // Auto-repeat only ever repeats one key, so a change of key is always a real
    // press however fast it arrives.
    let mut r = Repeat::default();
    for (i, key) in [
        Key::Char('b'),
        Key::Char('f'),
        Key::Char('r'),
        Key::Char('c'),
        Key::Esc,
        Key::Other(1),
        Key::Other(2),
    ]
    .into_iter()
    .enumerate()
    {
        assert!(
            r.accept(key, 5 * MS * i as u128),
            "{key:?} followed a different key and must be accepted"
        );
    }
}

#[test]
fn releasing_and_pressing_again_works() {
    // Hold, let go, press again: the second press must register, or the filter
    // would make the key feel broken after any held press.
    let mut r = Repeat::default();
    let t0 = 1_000 * MS;
    assert!(r.accept(Key::Char(' '), t0));
    for i in 1..30u128 {
        assert!(!r.accept(Key::Char(' '), t0 + 30 * MS * i));
    }
    let after_release = t0 + 30 * 29 * MS + REPEAT_WINDOW;
    assert!(r.accept(Key::Char(' '), after_release));
}

#[test]
fn a_clock_that_went_backwards_counts_as_no_time() {
    let mut r = Repeat::default();
    assert!(r.accept(Key::Esc, 500 * MS));
    assert!(!r.accept(Key::Esc, 100 * MS));
    assert!(r.accept(Key::Esc, 250 * MS));
}
