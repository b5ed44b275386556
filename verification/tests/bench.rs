//! The timing recorder.

use rmatrix::bench::{quantile, sorted, Bench};

const MS: u128 = 1_000_000;

#[test]
fn numbers_are_sorted() {
    let v: Vec<u128> = (0..500u128).map(|i| (i * 7919) % 503 / 3).collect();
    let mut want = v.clone();
    want.sort();
    assert_eq!(sorted(&v), want);
    assert_eq!(sorted(&vec![]), Vec::<u128>::new());
    assert_eq!(sorted(&vec![u128::MAX, 0, u128::MAX]), vec![0, u128::MAX, u128::MAX]);
}

#[test]
fn quantiles_fall_on_the_nearest_rank() {
    for n in [1usize, 2, 3, 10, 11, 21, 100, 101, 250] {
        let v: Vec<u128> = (0..n as u128).rev().collect();
        for (percent, p) in [(0, 0.0), (50, 0.50), (95, 0.95), (99, 0.99), (100, 1.0)] {
            let want = ((n - 1) as f64 * p).round() as u128;
            assert_eq!(quantile(&v, percent), Some(want), "p{percent} of {n}");
        }
    }
    assert_eq!(quantile(&vec![], 50), None);
}

#[test]
fn the_first_frame_is_dropped_and_the_others_carry_what_was_simulated() {
    let mut b = Bench::default();
    b.tick(33 * MS, 33 * MS);
    b.frame(500 * MS);
    assert!(b.frames().is_empty() && b.steps().is_empty());
    b.tick(40 * MS, 40 * MS);
    b.tick(60 * MS, 35 * MS);
    b.frame(100 * MS);
    b.frame(0);
    b.tick(10 * MS, 50 * MS);
    b.frame(10 * MS);
    assert_eq!(*b.ticks(), vec![33 * MS, 40 * MS, 60 * MS, 10 * MS]);
    assert_eq!(*b.frames(), vec![100 * MS, 0, 10 * MS]);
    assert_eq!(*b.steps(), vec![75 * MS, 0, 50 * MS]);
    assert_eq!(b.totals(), (158 * MS, 143 * MS));
}
