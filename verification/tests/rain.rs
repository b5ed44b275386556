//! The simulation, driven as a frame loop drives it.

use rand::rngs::StdRng;
use rand::{RngExt, SeedableRng};
use rmatrix::rain::{pick, Cell, Drawn, Fall, Launch, Need, Phase, Start};
use rmatrix::{Charset, Config, Rain};
use std::collections::HashMap;

/// The rain with the arithmetic it is driven by.
struct Sim {
    rain: Rain,
}

const EPS: f32 = 0.012;
const MIN_TAIL: f32 = 0.5;

impl Sim {
    fn new(w: u16, h: u16, cfg: Config) -> Sim {
        let mut s = Sim {
            rain: Rain::new(cfg).expect("a generator"),
        };
        s.resize(w, h);
        s
    }

    fn resize(&mut self, w: u16, h: u16) {
        let starts: Vec<Start> = (0..w)
            .map(|x| Start {
                cooldown: self.rain.rng.random_range(0.0f32..2.5).to_bits(),
                gap: self.rain.rng.random_range(2.0f32..14.0).to_bits(),
                hue: (f32::from(x) / f32::from(w.max(1))).to_bits(),
            })
            .collect();
        self.rain.resize(w, h, &starts);
    }

    fn speed(&self) -> f32 {
        f32::from_bits(self.rain.speed_mul) * f32::from_bits(self.rain.config().speed)
    }

    fn elapsed(&self) -> f32 {
        f32::from_bits(self.rain.elapsed)
    }

    fn step(&mut self, dt: f32) {
        let elapsed = self.elapsed() + dt;
        let scaled = dt * self.speed();
        let mut phase = self
            .rain
            .step(dt.to_bits(), elapsed.to_bits(), scaled.to_bits());
        while let Some(p) = phase {
            match p {
                Phase::Fade => self.decay(scaled),
                Phase::Fall => self.advance(scaled),
                Phase::Spawn(x) => self.spawn(x, scaled),
                Phase::Churn => {
                    let mutate = f32::from_bits(self.rain.config().mutate);
                    let budget = ((self.rain.cells().len() as f32) * mutate * scaled) as usize;
                    self.rain.churn(budget);
                }
            }
            phase = self.rain.next(p);
        }
    }

    fn decay(&mut self, dt: f32) {
        let faded: Vec<u32> = self
            .rain
            .cells()
            .iter()
            .map(|c| (f32::from_bits(c.glow) * f32::from_bits(c.decay).powf(dt)).to_bits())
            .collect();
        self.rain.decay(&faded);
    }

    fn advance(&mut self, dt: f32) {
        let h = f32::from(self.rain.height());
        let falls: Vec<Vec<Fall>> = self
            .rain
            .columns()
            .iter()
            .map(|col| {
                col.drops
                    .iter()
                    .map(|d| {
                        let (speed, tail) = (f32::from_bits(d.speed), f32::from_bits(d.tail));
                        let row = f32::from_bits(d.row) + speed * dt;
                        Fall {
                            row: row.to_bits(),
                            floor: row.floor() as i32,
                            decay: EPS.powf(speed / tail.max(MIN_TAIL)).to_bits(),
                            gone: !(row - tail < h),
                        }
                    })
                    .collect()
            })
            .collect();
        self.rain.advance(&falls);
    }

    fn spawn(&mut self, x: usize, dt: f32) {
        let tail_min = f32::from_bits(self.rain.config().tail_min);
        let tail_max = f32::from_bits(self.rain.config().tail_max);
        let col = &self.rain.columns()[x];
        let cooldown = f32::from_bits(col.cooldown) - dt;
        let tail = col.drops.last().map_or(0.0, |d| f32::from_bits(d.tail));
        let bar = tail + f32::from_bits(col.gap);
        let mut drawn = Drawn::Cooled {
            cooldown: cooldown.to_bits(),
            bar: bar.to_bits(),
        };
        loop {
            drawn = match self.rain.spawn(x, drawn) {
                Need::Nothing => break,
                Need::Roll => Drawn::Roll(self.rain.rng.random::<f32>().to_bits()),
                Need::Rest => {
                    Drawn::Rest(self.rain.rng.random_range(0.4f32..3.0).to_bits())
                }
                Need::Launch => {
                    let hi = tail_max.max(tail_min + 0.1);
                    let row = -self.rain.rng.random_range(0.0f32..6.0);
                    Drawn::Launch(Launch {
                        row: row.to_bits(),
                        at: row.floor() as i32,
                        speed: self.rain.rng.random_range(6.0f32..26.0).to_bits(),
                        tail: self.rain.rng.random_range(tail_min..hi).to_bits(),
                        gap: self.rain.rng.random_range(2.0f32..14.0).to_bits(),
                        cooldown: self.rain.rng.random_range(0.0f32..0.6).to_bits(),
                    })
                }
            };
        }
    }
}

fn cfg(seed: u64) -> Config {
    Config {
        seed: Some(seed),
        ..Config::default()
    }
}

fn glow(c: &Cell) -> f32 {
    f32::from_bits(c.glow)
}

/// A comparable snapshot of every cell.
fn snapshot(r: &Rain) -> Vec<Cell> {
    (0..r.height())
        .flat_map(|y| (0..r.width()).map(move |x| (x, y)))
        .map(|(x, y)| *r.cell(x, y).expect("in bounds by construction"))
        .collect()
}

/// Advance a grid and return a comparable snapshot of every cell.
fn run(w: u16, h: u16, cfg: Config, frames: usize) -> Vec<Cell> {
    let mut r = Sim::new(w, h, cfg);
    for _ in 0..frames {
        r.step(1.0 / 60.0);
    }
    snapshot(&r.rain)
}

#[test]
fn same_seed_replays_identically() {
    let a = run(40, 20, cfg(7), 120);
    let b = run(40, 20, cfg(7), 120);
    assert_eq!(a, b);
}

#[test]
fn different_seeds_diverge() {
    let a = run(40, 20, cfg(7), 120);
    let b = run(40, 20, cfg(8), 120);
    assert_ne!(a, b);
}

#[test]
fn the_reported_speed_is_the_one_step_applies() {
    let mut r = Sim::new(
        40,
        20,
        Config {
            speed: 0.5f32.to_bits(),
            ..cfg(7)
        },
    );
    r.rain.speed_mul = 0.5f32.to_bits();
    assert!((r.speed() - 0.25).abs() < 1e-6, "speed() was {}", r.speed());

    // At zero effective speed the grid must not move, while `elapsed` keeps
    // tracking real time because it drives the rainbow rotation.
    r.rain.speed_mul = 0.0f32.to_bits();
    let before = snapshot(&r.rain);
    r.step(1.0);
    assert_eq!(snapshot(&r.rain), before, "zero speed must freeze the rain");
    assert!(
        (r.elapsed() - 1.0).abs() < 1e-6,
        "elapsed was {}",
        r.elapsed()
    );
}

#[test]
fn speed_only_ever_scales_the_clock() {
    // Half speed for twice as long lands exactly where full speed for half the
    // time does. One step each, so both runs draw the same number of times.
    let mut slow = Sim::new(
        40,
        20,
        Config {
            speed: 0.5f32.to_bits(),
            ..cfg(11)
        },
    );
    let mut fast = Sim::new(40, 20, cfg(11));
    slow.step(2.0);
    fast.step(1.0);
    assert_eq!(snapshot(&slow.rain), snapshot(&fast.rain));
}

#[test]
fn rain_actually_lights_cells() {
    let lit = run(40, 20, cfg(1), 120)
        .iter()
        .filter(|c| glow(c) > 0.0)
        .count();
    assert!(lit > 0, "nothing was drawn");
}

#[test]
fn glyph_selection_is_uniform() {
    // Guards the sampler: a biased pick makes the rain look repetitive.
    let mut rng = StdRng::seed_from_u64(99);
    let glyphs = Charset::Katakana.glyphs("");
    let mut counts: HashMap<char, usize> = HashMap::new();
    let n = 56_000;
    for _ in 0..n {
        *counts.entry(pick(&mut rng, &glyphs)).or_default() += 1;
    }
    assert_eq!(counts.len(), glyphs.len(), "some glyphs never appeared");
    let expected = n as f64 / glyphs.len() as f64;
    for (g, c) in &counts {
        let dev = (*c as f64 - expected).abs() / expected;
        assert!(
            dev < 0.20,
            "glyph {g:?} deviates {:.1}% from uniform",
            dev * 100.0
        );
    }
}

#[test]
fn a_dark_cell_never_keeps_a_stale_glyph() {
    let (w, h) = (20u16, 20u16);
    let mut r = Sim::new(
        w,
        h,
        Config {
            density: 1.0f32.to_bits(),
            ..cfg(3)
        },
    );
    let mut ever_lit = false;
    for _ in 0..600 {
        r.step(1.0 / 60.0);
        for y in 0..h {
            for x in 0..w {
                let c = r.rain.cell(x, y).expect("in bounds");
                if glow(c) > 0.0 {
                    ever_lit = true;
                } else {
                    assert_eq!(c.ch, ' ', "dark cell at ({x},{y}) kept {:?}", c.ch);
                    assert!(!c.head, "dark cell at ({x},{y}) is still a head");
                }
            }
        }
    }
    assert!(ever_lit, "nothing ever rendered");
}

#[test]
fn a_trail_fades_through_many_levels() {
    let mut r = Sim::new(
        1,
        60,
        Config {
            density: 1.0f32.to_bits(),
            mutate: 0.0f32.to_bits(),
            ..cfg(21)
        },
    );
    let mut best = 0usize;
    for _ in 0..600 {
        r.step(1.0 / 60.0);
        let levels: std::collections::BTreeSet<u32> = (0..60)
            .filter_map(|y| r.rain.cell(0, y))
            .filter(|c| glow(c) > 0.0)
            .map(|c| (glow(c) * 1000.0) as u32)
            .collect();
        best = best.max(levels.len());
    }
    assert!(
        best >= 5,
        "trail only reached {best} distinct brightness levels"
    );
}

/// Longest run of consecutive frames for which a cell was flagged as a head.
///
/// A head legitimately occupies one cell only until its drop crosses into the
/// next row. The slowest drop falls 6 rows/s, so at 60 fps that is ten frames of
/// stepping plus the frame it was written in.
fn longest_head_run(w: u16, h: u16, cfg: Config, frames: usize) -> u32 {
    let mut r = Sim::new(w, h, cfg);
    let mut run = vec![0u32; w as usize * h as usize];
    let mut worst = 0u32;
    for _ in 0..frames {
        r.step(1.0 / 60.0);
        for y in 0..h {
            for x in 0..w {
                let i = y as usize * w as usize + x as usize;
                if r.rain.cell(x, y).expect("in bounds by construction").head {
                    run[i] += 1;
                    worst = worst.max(run[i]);
                } else {
                    run[i] = 0;
                }
            }
        }
    }
    worst
}

#[test]
fn a_head_that_falls_off_screen_stops_being_a_head() {
    let h = 20u16;
    let worst = longest_head_run(
        1,
        h,
        Config {
            density: 1.0f32.to_bits(),
            mutate: 0.0f32.to_bits(),
            tail_min: 40.0f32.to_bits(),
            tail_max: 40.5f32.to_bits(),
            ..cfg(13)
        },
        1800,
    );
    assert!(worst > 0, "no head ever reached the grid");
    assert!(
        worst <= 12,
        "a cell stayed flagged as the head for {worst} frames"
    );
}

#[test]
fn no_head_outlives_the_drop_that_wrote_it() {
    let worst = longest_head_run(
        40,
        30,
        Config {
            density: 1.0f32.to_bits(),
            tail_min: 40.0f32.to_bits(),
            tail_max: 41.0f32.to_bits(),
            ..cfg(17)
        },
        1200,
    );
    assert!(worst > 0, "nothing ever rendered");
    assert!(
        worst <= 12,
        "a cell stayed flagged as the head for {worst} frames"
    );
}

#[test]
fn zero_density_never_spawns() {
    let lit = run(
        30,
        15,
        Config {
            density: 0.0f32.to_bits(),
            ..cfg(5)
        },
        300,
    )
    .iter()
    .filter(|c| glow(c) > 0.0)
    .count();
    assert_eq!(lit, 0);
}

#[test]
fn degenerate_sizes_do_not_panic() {
    for (w, h) in [(0, 0), (1, 1), (0, 20), (20, 0)] {
        let mut r = Sim::new(w, h, cfg(2));
        for _ in 0..30 {
            r.step(1.0 / 60.0);
        }
        assert!(r.rain.cell(w, h).is_none());
    }
}

#[test]
fn out_of_bounds_reads_are_none_not_panics() {
    let r = Sim::new(4, 4, cfg(2)).rain;
    assert!(r.cell(4, 0).is_none());
    assert!(r.cell(0, 4).is_none());
    assert!(r.cell(u16::MAX, u16::MAX).is_none());
}

#[test]
fn hostile_dt_values_are_ignored() {
    let mut r = Sim::new(20, 10, cfg(4));
    for dt in [f32::NAN, f32::INFINITY, -1.0, 0.0, -f32::INFINITY] {
        r.step(dt);
    }
    let before = r.elapsed();
    assert_eq!(before, 0.0, "a bogus dt advanced the clock");
    r.step(1.0);
    assert!(r.elapsed() > 0.0);
}

#[test]
fn a_long_stall_does_not_panic() {
    let mut r = Sim::new(60, 30, cfg(6));
    r.step(600.0); // e.g. the machine slept
    assert_eq!(r.rain.width(), 60);
}

#[test]
fn resize_clears_and_reshapes() {
    let mut r = Sim::new(40, 20, cfg(9));
    for _ in 0..120 {
        r.step(1.0 / 60.0);
    }
    r.resize(15, 7);
    assert_eq!((r.rain.width(), r.rain.height()), (15, 7));
    for y in 0..7 {
        for x in 0..15 {
            assert_eq!(glow(r.rain.cell(x, y).expect("in bounds")), 0.0);
        }
    }
    // And it keeps running afterwards.
    for _ in 0..120 {
        r.step(1.0 / 60.0);
    }
    assert!((0..7).any(|y| (0..15).any(|x| r.rain.cell(x, y).is_some_and(|c| glow(c) > 0.0))));
}

#[test]
fn empty_glyph_set_falls_back_to_blank_not_panic() {
    let mut r = Sim::new(
        10,
        10,
        Config {
            glyphs: vec![],
            density: 1.0f32.to_bits(),
            ..cfg(11)
        },
    );
    for _ in 0..120 {
        r.step(1.0 / 60.0);
    }
    assert!((0..10).all(|y| (0..10).all(|x| r.rain.cell(x, y).expect("in bounds").ch == ' ')));
}

/// Longest unbroken run of lit cells in a one-column grid. A column can hold
/// several drops at once, so total-lit would conflate them; the contiguous run
/// is the thing a viewer actually perceives as "the tail".
fn longest_trail(tail_min: f32, tail_max: f32, seed: u64) -> usize {
    let h = 80u16;
    let mut r = Sim::new(
        1,
        h,
        Config {
            density: 1.0f32.to_bits(),
            mutate: 0.0f32.to_bits(),
            tail_min: tail_min.to_bits(),
            tail_max: tail_max.to_bits(),
            ..cfg(seed)
        },
    );
    let mut best = 0usize;
    for _ in 0..900 {
        r.step(1.0 / 60.0);
        let mut run = 0usize;
        for y in 0..h {
            if r.rain.cell(0, y).is_some_and(|c| glow(c) > 0.0) {
                run += 1;
                best = best.max(run);
            } else {
                run = 0;
            }
        }
    }
    best
}

#[test]
fn tail_config_controls_trail_length() {
    let short = longest_trail(3.0, 3.5, 12);
    let long = longest_trail(30.0, 32.0, 12);
    assert!(
        short > 0 && long > 0,
        "nothing rendered (short={short}, long={long})"
    );
    assert!(
        long > short * 2,
        "--tail had little effect: short={short} rows, long={long} rows"
    );
}

#[test]
fn the_default_settings_are_the_documented_ones() {
    let c = Config::default();
    assert_eq!(f32::from_bits(c.speed), 1.0);
    assert_eq!(f32::from_bits(c.density), 0.55);
    assert_eq!(f32::from_bits(c.tail_min), 6.0);
    assert_eq!(f32::from_bits(c.tail_max), 26.0);
    assert_eq!(f32::from_bits(c.mutate), 0.35);
    assert_eq!(c.glyphs, Charset::Classic.glyphs(""));
    assert_eq!(c.seed, None);
}

#[test]
fn a_cell_starts_out_blank() {
    let c = Cell::default();
    assert_eq!((c.ch, c.head), (' ', false));
    assert_eq!(glow(&c), 0.0);
    assert_eq!(f32::from_bits(c.decay), 0.5);
}

/// A one-column grid with a single drop above it.
fn one_drop(h: u16, glyphs: Vec<char>) -> Rain {
    let mut r = Rain::new(Config { glyphs, ..cfg(1) }).expect("a generator");
    r.resize(
        1,
        h,
        &vec![Start {
            cooldown: 0,
            gap: 0,
            hue: 0,
        }],
    );
    let need = r.spawn(
        0,
        Drawn::Launch(Launch {
            row: (-1.0f32).to_bits(),
            speed: 10.0f32.to_bits(),
            tail: 4.0f32.to_bits(),
            at: -1,
            gap: 3.0f32.to_bits(),
            cooldown: 0.5f32.to_bits(),
        }),
    );
    assert_eq!(need, Need::Nothing);
    assert_eq!(f32::from_bits(r.columns()[0].gap), 3.0);
    r
}

fn fall(row: f32, gone: bool) -> Fall {
    Fall {
        row: row.to_bits(),
        floor: row.floor() as i32,
        decay: 0.25f32.to_bits(),
        gone,
    }
}

#[test]
fn a_drop_writes_every_row_it_crosses_and_leads_with_its_head() {
    let mut r = one_drop(6, vec!['x']);
    r.advance(&vec![vec![fall(2.5, false)]]);
    for y in 0..3 {
        let c = r.cell(0, y).expect("in bounds");
        assert_eq!((c.ch, glow(c), c.head), ('x', 1.0, y == 2));
        assert_eq!(f32::from_bits(c.decay), 0.25);
    }
    assert_eq!(*r.cell(0, 3).expect("in bounds"), Cell::default());
    assert_eq!(r.columns()[0].drops[0].head_idx, Some(2));

    // Not far enough for another row: nothing moves on screen.
    let before = r.cells().clone();
    r.advance(&vec![vec![fall(2.9, false)]]);
    assert_eq!(*r.cells(), before);

    // Off the bottom: the head goes with it.
    r.advance(&vec![vec![fall(7.0, false)]]);
    assert!(r.cells().iter().all(|c| !c.head));
    assert_eq!(r.columns()[0].drops[0].head_idx, None);

    // And once its tail is past the bottom too, the drop goes.
    r.advance(&vec![vec![fall(11.0, true)]]);
    assert!(r.columns()[0].drops.is_empty());
}

#[test]
fn fading_erases_below_the_threshold_only() {
    let mut r = one_drop(3, vec!['x']);
    r.advance(&vec![vec![fall(2.0, false)]]);
    r.decay(&vec![
        0.0119f32.to_bits(),
        0.012f32.to_bits(),
        0.5f32.to_bits(),
    ]);
    assert_eq!(*r.cell(0, 0).expect("in bounds"), Cell::default());
    assert_eq!(glow(r.cell(0, 1).expect("in bounds")), 0.012);
    assert_eq!(glow(r.cell(0, 2).expect("in bounds")), 0.5);
}

#[test]
fn a_column_waits_its_turn() {
    let cooled = |cooldown: f32, bar: f32| Drawn::Cooled {
        cooldown: cooldown.to_bits(),
        bar: bar.to_bits(),
    };
    let mut r = one_drop(6, vec!['x']);
    // The last drop is at row -1: not past the bar yet.
    assert_eq!(r.spawn(0, cooled(-1.0, 4.0)), Need::Nothing);
    // Past a lower bar, but still cooling off.
    assert_eq!(r.spawn(0, cooled(0.1, -2.0)), Need::Nothing);
    // Past it and cool.
    assert_eq!(r.spawn(0, cooled(0.0, -2.0)), Need::Roll);
    assert_eq!(f32::from_bits(r.columns()[0].cooldown), 0.0);
    // The default density sits out above 0.55.
    assert_eq!(r.spawn(0, Drawn::Roll(0.56f32.to_bits())), Need::Rest);
    assert_eq!(r.spawn(0, Drawn::Roll(0.55f32.to_bits())), Need::Launch);
    assert_eq!(r.spawn(0, Drawn::Rest(2.0f32.to_bits())), Need::Nothing);
    assert_eq!(f32::from_bits(r.columns()[0].cooldown), 2.0);
    assert_eq!(r.columns()[0].drops.len(), 1);
}

#[test]
fn churning_leaves_heads_and_dark_cells_alone() {
    let mut r = one_drop(8, vec!['x']);
    r.advance(&vec![vec![fall(3.0, false)]]);
    r.set_glyphs(vec!['y']);
    for _ in 0..50 {
        r.churn(usize::MAX);
    }
    let chars: Vec<char> = r.cells().iter().map(|c| c.ch).collect();
    assert_eq!(chars, vec!['y', 'y', 'y', 'x', ' ', ' ', ' ', ' ']);
}

#[test]
fn colours_come_from_the_glow_the_head_and_the_hue() {
    let mut r = one_drop(4, vec!['x']);
    r.advance(&vec![vec![fall(1.0, false)]]);
    let shade = |glow: u32, head: bool, hue: u32| {
        assert_eq!((f32::from_bits(glow), hue), (1.0, 0));
        (if head { 9 } else { 1 }, 2, 3)
    };
    assert_eq!(r.color_of(0, 0, shade), Some(('x', (1, 2, 3))));
    assert_eq!(r.color_of(0, 1, shade), Some(('x', (9, 2, 3))));
    assert_eq!(r.color_of(0, 2, shade), None, "dark");
    assert_eq!(r.color_of(1, 0, shade), None, "out of bounds");

    let f = r.frame(shade);
    assert_eq!((f.w, f.h), (1, 4));
    let s = f.sample(0, 1).expect("lit");
    assert_eq!((s.ch, s.rgb, s.head), ('x', (9, 2, 3), true));
    assert_eq!(f.sample(0, 3), None);
}

#[test]
fn an_unseeded_rain_still_rains() {
    let mut r = Sim::new(
        20,
        10,
        Config {
            density: 1.0f32.to_bits(),
            ..Config::default()
        },
    );
    for _ in 0..240 {
        r.step(1.0 / 60.0);
    }
    assert!(r.rain.cells().iter().any(|c| glow(c) > 0.0));
}

#[test]
fn every_draw_comes_from_the_pool() {
    let mut rng = StdRng::seed_from_u64(5);
    for _ in 0..200 {
        assert!(['a', 'b', 'c'].contains(&pick(&mut rng, &vec!['a', 'b', 'c'])));
    }
    assert_eq!(pick(&mut rng, &vec![]), ' ');
}

#[test]
fn no_density_refuses_even_a_roll_of_nothing() {
    for density in [0.0f32, -0.0] {
        let mut r = Sim::new(
            3,
            3,
            Config {
                density: density.to_bits(),
                ..cfg(5)
            },
        )
        .rain;
        for roll in [0.0f32, -0.0, 0.5] {
            assert_eq!(r.spawn(0, Drawn::Roll(roll.to_bits())), Need::Rest);
        }
        let launch = Launch {
            row: 0,
            speed: 0,
            tail: 0,
            at: 0,
            gap: 0,
            cooldown: 0,
        };
        assert_eq!(r.spawn(0, Drawn::Launch(launch)), Need::Nothing);
        assert!(r.columns().iter().all(|c| c.drops.is_empty()));
    }
    // At any other density a roll equal to it gets through.
    let mut r = Sim::new(3, 3, cfg(5)).rain;
    let density = r.config().density;
    assert_eq!(r.spawn(0, Drawn::Roll(density)), Need::Launch);
}

#[test]
fn every_lit_glyph_is_from_the_pool_and_glows_in_range() {
    let pool = ['p', 'o', 'l'];
    let mut r = Sim::new(
        30,
        20,
        Config {
            glyphs: pool.to_vec(),
            density: 0.9f32.to_bits(),
            ..cfg(31)
        },
    );
    let mut lit = 0;
    for _ in 0..200 {
        r.step(1.0 / 30.0);
        for c in r.rain.cells() {
            let glow = f32::from_bits(c.glow);
            if glow > 0.0 {
                lit += 1;
                assert!(pool.contains(&c.ch));
                assert!((EPS..=1.0).contains(&glow));
            }
        }
    }
    assert!(lit > 1_000);
}

#[test]
fn without_a_seed_the_system_gives_one() {
    let mut a = Rain::new(Config::default()).expect("a generator");
    let mut b = Rain::new(Config::default()).expect("a generator");
    assert_ne!(
        (0..8).map(|_| a.rng.random::<u64>()).collect::<Vec<_>>(),
        (0..8).map(|_| b.rng.random::<u64>()).collect::<Vec<_>>()
    );
}

#[test]
fn a_step_runs_every_pass_in_order() {
    let mut r = Sim::new(3, 2, cfg(1)).rain;
    let second = 1.0f32.to_bits();
    let mut seen = Vec::new();
    let mut phase = r.step(second, second, second);
    while let Some(p) = phase {
        seen.push(p);
        phase = r.next(p);
    }
    assert_eq!(
        seen,
        [
            Phase::Fade,
            Phase::Fall,
            Phase::Spawn(0),
            Phase::Spawn(1),
            Phase::Spawn(2),
            Phase::Churn
        ]
    );
    // Nothing moves on a clock that stands still, nor at no speed.
    assert_eq!(r.step(0, second, second), None);
    assert_eq!(r.step(second, second, 0), None);
    let empty = Sim::new(0, 0, cfg(1)).rain;
    assert_eq!(empty.next(Phase::Fall), Some(Phase::Churn));
}

#[test]
fn every_dark_cell_is_blank_over_a_run() {
    let mut r = Sim::new(25, 12, cfg(77));
    for i in 0..400u16 {
        r.step(1.0 / 24.0);
        if i % 90 == 50 {
            r.rain.set_glyphs(vec!['q', 'w']);
        }
        if i == 200 {
            r.resize(31, 9);
        }
        for c in r.rain.cells() {
            if glow(c) > 0.0 {
                assert!((EPS..=1.0).contains(&glow(c)));
            } else {
                assert_eq!(*c, Cell::default());
            }
        }
    }
}

#[test]
fn settings_can_be_cloned() {
    let c = cfg(3);
    let d = c.clone();
    assert_eq!((d.glyphs, d.seed, d.density), (c.glyphs, c.seed, c.density));
}
