//! The renderer: damage, budgets, and what ends up on screen.

use rand::RngExt;
use rmatrix::rain::{Drawn, Fall, Launch, Need, Phase, Start};
use rmatrix::render::{
    luma, salience, within, Belief, Estimate, Frame, Glyph, Plan, Sample, AGE_GAIN, HEAD_SCORE,
    MAX_DEFER,
};
use rmatrix::theme::Color;
use rmatrix::{Config, Depth, DrawStats, Rain, Renderer, Rgb, DEFAULT_COLOR_TOLERANCE};

/// The rain with the arithmetic it is driven by.
struct Sim {
    rain: Rain,
}

const EPS: f32 = 0.012;
const MIN_TAIL: f32 = 0.5;

impl Sim {
    fn new(w: u16, h: u16, cfg: Config) -> Sim {
        let mut s = Sim {
            rain: Rain::new(cfg).expect("a generator"),
        };
        s.resize(w, h);
        s
    }

    fn resize(&mut self, w: u16, h: u16) {
        let starts: Vec<Start> = (0..w)
            .map(|x| Start {
                cooldown: self.rain.rng.random_range(0.0f32..2.5).to_bits(),
                gap: self.rain.rng.random_range(2.0f32..14.0).to_bits(),
                hue: (f32::from(x) / f32::from(w.max(1))).to_bits(),
            })
            .collect();
        self.rain.resize(w, h, &starts);
    }

    fn speed(&self) -> f32 {
        f32::from_bits(self.rain.speed_mul) * f32::from_bits(self.rain.config().speed)
    }

    fn elapsed(&self) -> f32 {
        f32::from_bits(self.rain.elapsed)
    }

    fn step(&mut self, dt: f32) {
        let elapsed = self.elapsed() + dt;
        let scaled = dt * self.speed();
        let mut phase = self
            .rain
            .step(dt.to_bits(), elapsed.to_bits(), scaled.to_bits());
        while let Some(p) = phase {
            match p {
                Phase::Fade => self.decay(scaled),
                Phase::Fall => self.advance(scaled),
                Phase::Spawn(x) => self.spawn(x, scaled),
                Phase::Churn => {
                    let mutate = f32::from_bits(self.rain.config().mutate);
                    let budget = ((self.rain.cells().len() as f32) * mutate * scaled) as usize;
                    self.rain.churn(budget);
                }
            }
            phase = self.rain.next(p);
        }
    }

    fn decay(&mut self, dt: f32) {
        let faded: Vec<u32> = self
            .rain
            .cells()
            .iter()
            .map(|c| (f32::from_bits(c.glow) * f32::from_bits(c.decay).powf(dt)).to_bits())
            .collect();
        self.rain.decay(&faded);
    }

    fn advance(&mut self, dt: f32) {
        let h = f32::from(self.rain.height());
        let falls: Vec<Vec<Fall>> = self
            .rain
            .columns()
            .iter()
            .map(|col| {
                col.drops
                    .iter()
                    .map(|d| {
                        let (speed, tail) = (f32::from_bits(d.speed), f32::from_bits(d.tail));
                        let row = f32::from_bits(d.row) + speed * dt;
                        Fall {
                            row: row.to_bits(),
                            floor: row.floor() as i32,
                            decay: EPS.powf(speed / tail.max(MIN_TAIL)).to_bits(),
                            gone: !(row - tail < h),
                        }
                    })
                    .collect()
            })
            .collect();
        self.rain.advance(&falls);
    }

    fn spawn(&mut self, x: usize, dt: f32) {
        let tail_min = f32::from_bits(self.rain.config().tail_min);
        let tail_max = f32::from_bits(self.rain.config().tail_max);
        let col = &self.rain.columns()[x];
        let cooldown = f32::from_bits(col.cooldown) - dt;
        let tail = col.drops.last().map_or(0.0, |d| f32::from_bits(d.tail));
        let bar = tail + f32::from_bits(col.gap);
        let mut drawn = Drawn::Cooled {
            cooldown: cooldown.to_bits(),
            bar: bar.to_bits(),
        };
        loop {
            drawn = match self.rain.spawn(x, drawn) {
                Need::Nothing => break,
                Need::Roll => Drawn::Roll(self.rain.rng.random::<f32>().to_bits()),
                Need::Rest => {
                    Drawn::Rest(self.rain.rng.random_range(0.4f32..3.0).to_bits())
                }
                Need::Launch => {
                    let hi = tail_max.max(tail_min + 0.1);
                    let row = -self.rain.rng.random_range(0.0f32..6.0);
                    Drawn::Launch(Launch {
                        row: row.to_bits(),
                        at: row.floor() as i32,
                        speed: self.rain.rng.random_range(6.0f32..26.0).to_bits(),
                        tail: self.rain.rng.random_range(tail_min..hi).to_bits(),
                        gap: self.rain.rng.random_range(2.0f32..14.0).to_bits(),
                        cooldown: self.rain.rng.random_range(0.0f32..0.6).to_bits(),
                    })
                }
            };
        }
    }
}

/// A brightness ramp over one base colour.
#[derive(Clone, Copy)]
struct Theme {
    base: Rgb,
    levels: u16,
}

impl Theme {
    fn from_base(base: Rgb) -> Theme {
        Theme { base, levels: 24 }
    }

    fn color(&self, glow: f32, head: bool) -> Rgb {
        if head {
            return (220, 255, 228);
        }
        let g = glow * glow;
        let g = if self.levels == 0 {
            g
        } else {
            let n = f32::from(self.levels);
            (g * n).ceil() / n
        };
        let ch = |v: u8| (f32::from(v) * (0.18 + 0.82 * g.clamp(0.0, 1.0))).round() as u8;
        (ch(self.base.0), ch(self.base.1), ch(self.base.2))
    }
}

/// A renderer and the budget it keeps to.
struct Painter {
    rr: Renderer,
    budget: Option<usize>,
}

impl Painter {
    fn new(w: u16, h: u16) -> Painter {
        Painter {
            rr: Renderer::new(w, h),
            budget: None,
        }
    }

    fn set_budget(&mut self, budget: Option<usize>) {
        self.budget = budget;
        self.rr.set_budget(budget);
    }

    fn draw(&mut self, buf: &mut Vec<u8>, sim: &Sim, theme: &Theme) -> DrawStats {
        let frame = sim
            .rain
            .frame(|glow, head, _hue| theme.color(f32::from_bits(glow), head));
        let price = f32::from_bits(self.rr.cell_cost());
        let cost = price.max(1.0);
        let budget = self.budget.unwrap_or(usize::MAX);
        let s = self.rr.draw(buf, &frame, Depth::True, |damaged, forced| Estimate {
            fits: damaged as f32 * cost <= budget as f32,
            allow: ((budget as f32 - forced as f32 * cost).max(cost) / cost) as usize,
        });
        if s.cells_drawn > 0 {
            let per = s.bytes as f32 / s.cells_drawn as f32;
            self.rr.learn_cost((price * 0.85 + per * 0.15).to_bits());
        }
        s
    }
}

const GREEN: Rgb = (0, 255, 65);

fn seeded(seed: u64) -> Config {
    Config {
        seed: Some(seed),
        ..Config::default()
    }
}

fn scene() -> (Sim, Theme) {
    let mut r = Sim::new(20, 10, seeded(42));
    for _ in 0..90 {
        r.step(1.0 / 60.0);
    }
    (r, Theme::from_base(GREEN))
}

fn draw(rr: &mut Painter, rain: &Sim, theme: &Theme) -> Vec<u8> {
    draw_stats(rr, rain, theme).0
}

fn draw_stats(rr: &mut Painter, rain: &Sim, theme: &Theme) -> (Vec<u8>, DrawStats) {
    let mut buf = Vec::new();
    let s = rr.draw(&mut buf, rain, theme);
    (buf, s)
}

#[test]
fn first_frame_emits_the_lit_cells() {
    let (rain, theme) = scene();
    let mut rr = Painter::new(20, 10);
    let out = draw(&mut rr, &rain, &theme);
    assert!(!out.is_empty(), "nothing was emitted");
    assert!(
        out.windows(7).any(|w| w.starts_with(b"\x1b[38;2;")),
        "no truecolor SGR"
    );
}

#[test]
fn an_unchanged_frame_emits_nothing() {
    // This is the whole point of the damage tracking.
    let (rain, theme) = scene();
    let mut rr = Painter::new(20, 10);
    let _ = draw(&mut rr, &rain, &theme);
    let second = draw(&mut rr, &rain, &theme);
    assert!(
        second.is_empty(),
        "redundant redraw emitted {} bytes",
        second.len()
    );
}

#[test]
fn resize_forces_a_full_repaint() {
    let (rain, theme) = scene();
    let mut rr = Painter::new(20, 10);
    let _ = draw(&mut rr, &rain, &theme);
    assert!(draw(&mut rr, &rain, &theme).is_empty());
    rr.rr.resize(20, 10);
    assert!(
        !draw(&mut rr, &rain, &theme).is_empty(),
        "repaint was not forced"
    );
}

#[test]
fn renderer_larger_than_the_grid_does_not_panic() {
    let (rain, theme) = scene();
    let mut rr = Painter::new(200, 100);
    let out = draw(&mut rr, &rain, &theme);
    // The in-grid cells still paint; cells past the grid read as dark, and since
    // they started dark nothing is emitted for them.
    assert!(
        !out.is_empty(),
        "the in-bounds region should still have painted"
    );
    assert!(
        draw(&mut rr, &rain, &theme).is_empty(),
        "second pass should be clean"
    );
}

#[test]
fn zero_sized_renderer_is_a_no_op() {
    let (rain, theme) = scene();
    let mut rr = Painter::new(0, 0);
    assert!(draw(&mut rr, &rain, &theme).is_empty());
}

#[test]
fn stats_report_damage_and_bytes() {
    let (rain, theme) = scene();
    let mut rr = Painter::new(20, 10);
    let (buf, s) = draw_stats(&mut rr, &rain, &theme);
    assert_eq!(
        s.bytes,
        buf.len(),
        "byte count disagrees with what was written"
    );
    assert!(s.cells_damaged > 0);
    assert!(s.cells_damaged <= 20 * 10);

    let (_, s2) = draw_stats(&mut rr, &rain, &theme);
    assert_eq!(s2, DrawStats::default(), "clean frame is not free");
}

#[test]
fn quantising_the_ramp_cuts_damage() {
    // Fewer brightness steps means a cell holds its colour across more frames,
    // so fewer cells are damaged per frame.
    fn damage_over(levels: u16) -> usize {
        let mut rain = Sim::new(60, 30, seeded(5));
        let mut theme = Theme::from_base(GREEN);
        theme.levels = levels;
        let mut rr = Painter::new(60, 30);
        let mut total = 0;
        for _ in 0..240 {
            rain.step(1.0 / 60.0);
            total += draw_stats(&mut rr, &rain, &theme).1.cells_damaged;
        }
        total
    }
    let coarse = damage_over(8);
    let fine = damage_over(0); // unquantised
    assert!(
        coarse * 2 < fine,
        "quantising barely helped: {coarse} damaged vs {fine} unquantised"
    );
}

#[test]
fn pen_tolerance_saves_bytes_without_changing_damage() {
    // Reusing the pen for an imperceptible colour delta must reduce output but
    // must never change *which* cells are considered damaged.
    fn run(tol: u16) -> (usize, usize) {
        let mut rain = Sim::new(80, 40, seeded(9));
        let theme = Theme::from_base(GREEN);
        let mut rr = Painter::new(80, 40);
        rr.rr.set_color_tolerance(tol);
        let (mut bytes, mut dmg) = (0, 0);
        for _ in 0..300 {
            rain.step(1.0 / 60.0);
            let s = draw_stats(&mut rr, &rain, &theme).1;
            bytes += s.bytes;
            dmg += s.cells_damaged;
        }
        (bytes, dmg)
    }
    let (loose_bytes, loose_dmg) = run(DEFAULT_COLOR_TOLERANCE);
    let (strict_bytes, strict_dmg) = run(0);
    assert_eq!(loose_dmg, strict_dmg, "tolerance changed the damage set");
    assert!(
        loose_bytes < strict_bytes,
        "tolerance cost bytes instead of saving them: {loose_bytes} vs {strict_bytes}"
    );
}

#[test]
fn near_identical_colors_are_within_tolerance() {
    let a = Color::Rgb {
        r: 0,
        g: 200,
        b: 50,
    };
    assert!(within(
        a,
        Color::Rgb {
            r: 0,
            g: 204,
            b: 52
        },
        12
    ));
    assert!(!within(
        a,
        Color::Rgb {
            r: 0,
            g: 230,
            b: 50
        },
        12
    ));
    assert!(within(a, a, 0), "a colour must always match itself");
    // Palette colours are already coarse; they compare exactly.
    assert!(within(Color::AnsiValue(40), Color::AnsiValue(40), 99));
    assert!(!within(Color::AnsiValue(40), Color::AnsiValue(41), 99));
}

/// Just enough of a terminal to check against: cursor moves, the
/// backspace/line-feed shortcut, truecolor SGR, and printing. Everything the
/// renderer emits and nothing else, so an unexpected escape is a test failure
/// rather than a silent no-op.
struct FakeTerm {
    w: usize,
    h: usize,
    cells: Vec<(char, Option<Color>)>,
    x: usize,
    y: usize,
    pen: Option<Color>,
}

impl FakeTerm {
    fn new(w: u16, h: u16) -> FakeTerm {
        FakeTerm {
            w: w as usize,
            h: h as usize,
            cells: vec![(' ', None); w as usize * h as usize],
            x: 0,
            y: 0,
            pen: None,
        }
    }

    fn feed(&mut self, buf: &[u8]) {
        let mut i = 0;
        while i < buf.len() {
            match buf[i] {
                0x08 => {
                    self.x = self.x.saturating_sub(1);
                    i += 1;
                }
                b'\n' => {
                    self.y += 1;
                    i += 1;
                }
                0x1b => {
                    assert_eq!(buf[i + 1], b'[', "only CSI sequences are expected");
                    let end = i
                        + 2
                        + buf[i + 2..]
                            .iter()
                            .position(u8::is_ascii_alphabetic)
                            .expect("unterminated CSI");
                    let args: Vec<u32> = std::str::from_utf8(&buf[i + 2..end])
                        .expect("CSI parameters are ASCII")
                        .split(';')
                        .map(|p| p.parse().unwrap_or(0))
                        .collect();
                    match buf[end] {
                        b'H' => {
                            self.y = args[0].saturating_sub(1) as usize;
                            self.x = args[1].saturating_sub(1) as usize;
                        }
                        b'C' => self.x += args[0] as usize,
                        b'm' => {
                            assert_eq!(args[..2], [38, 2], "unexpected SGR {args:?}");
                            self.pen = Some(Color::Rgb {
                                r: args[2] as u8,
                                g: args[3] as u8,
                                b: args[4] as u8,
                            });
                        }
                        other => panic!("unexpected CSI final byte {}", other as char),
                    }
                    i = end + 1;
                }
                b => {
                    let len = if b < 0x80 {
                        1
                    } else if b >= 0xf0 {
                        4
                    } else if b >= 0xe0 {
                        3
                    } else {
                        2
                    };
                    let ch = std::str::from_utf8(&buf[i..i + len])
                        .expect("valid UTF-8")
                        .chars()
                        .next()
                        .expect("one char");
                    assert!(self.y < self.h && self.x < self.w, "wrote out of bounds");
                    self.cells[self.y * self.w + self.x] = (ch, self.pen);
                    // Line wrap is disabled, so the cursor stalls.
                    self.x = (self.x + 1).min(self.w - 1);
                    i += len;
                }
            }
        }
    }

    /// What the renderer *believes* is on screen, as this terminal sees it.
    fn agrees_with(&self, prev: &[Belief]) -> Option<usize> {
        (0..self.cells.len()).find(|&i| {
            let (ch, pen) = self.cells[i];
            match prev[i] {
                Belief::Unknown => false,
                Belief::Shows(None) => ch != ' ',
                Belief::Shows(Some(g)) => ch != g.ch || pen != Some(g.color),
            }
        })
    }
}

/// The invariant the whole design rests on. Under a budget far too small to keep
/// up, everything emitted must still leave the renderer's belief about the
/// screen exactly true, and no cell may sit wrong for longer than the deadline.
#[test]
fn a_starved_renderer_never_lies_about_the_screen() {
    let (w, h) = (60u16, 40u16);
    let mut rain = Sim::new(
        w,
        h,
        Config {
            density: 0.9f32.to_bits(),
            ..seeded(17)
        },
    );
    let theme = Theme::from_base(GREEN);
    let mut rr = Painter::new(w, h);
    // Exact colours, so the fake terminal can compare them exactly.
    rr.rr.set_color_tolerance(0);
    // Roughly a twentieth of what a frame wants: sustained, deep starvation.
    rr.set_budget(Some(700));

    let mut term = FakeTerm::new(w, h);
    let mut buf = Vec::new();
    let mut worst_debt = 0u8;
    let mut ever_deferred = 0usize;

    for frame in 0..900 {
        rain.step(1.0 / 30.0);
        buf.clear();
        let stats = rr.draw(&mut buf, &rain, &theme);
        term.feed(&buf);
        ever_deferred += stats.cells_deferred();
        worst_debt = worst_debt.max(rr.rr.max_debt());
        assert!(
            rr.rr.max_debt() <= MAX_DEFER,
            "frame {frame}: a cell went {} frames undrawn",
            rr.rr.max_debt()
        );
        if let Some(i) = term.agrees_with(rr.rr.believed()) {
            panic!(
                "frame {frame}: renderer believes cell {i} is {:?}, screen shows {:?}",
                rr.rr.believed()[i], term.cells[i]
            );
        }
    }
    assert!(
        ever_deferred > 100_000,
        "the budget never actually bit ({ever_deferred} deferrals)"
    );
    assert!(worst_debt > 0, "nothing was ever deferred");

    // Freeze the simulation: every deferred cell must now drain away, and the
    // deadline says it takes at most MAX_DEFER frames.
    for frame in 0..=u32::from(MAX_DEFER) {
        buf.clear();
        let stats = rr.draw(&mut buf, &rain, &theme);
        term.feed(&buf);
        assert!(
            term.agrees_with(rr.rr.believed()).is_none(),
            "frame {frame}: screen and belief diverged while draining"
        );
        if stats.cells_damaged == 0 {
            break;
        }
        assert!(
            frame < u32::from(MAX_DEFER),
            "still {} cells outstanding after {MAX_DEFER} idle frames",
            stats.cells_damaged
        );
    }

    // ...and having drained, the screen is exactly the unbudgeted image.
    let mut reference = Painter::new(w, h);
    reference.rr.set_color_tolerance(0);
    let mut refbuf = Vec::new();
    reference.draw(&mut refbuf, &rain, &theme);
    assert_eq!(
        rr.rr.believed(),
        reference.rr.believed(),
        "converged to the wrong picture"
    );
}

#[test]
fn a_budget_bounds_the_worst_frame() {
    let (w, h) = (204u16, 175u16);
    let mut rain = Sim::new(w, h, seeded(1));
    let theme = Theme::from_base(GREEN);

    fn run(rain: &mut Sim, theme: &Theme, w: u16, h: u16, budget: Option<usize>) -> usize {
        let mut rr = Painter::new(w, h);
        rr.set_budget(budget);
        let mut buf = Vec::with_capacity(1 << 22);
        let mut worst = 0usize;
        for _ in 0..400 {
            rain.step(1.0 / 30.0);
            buf.clear();
            let s = rr.draw(&mut buf, rain, theme);
            worst = worst.max(s.bytes);
        }
        worst
    }

    let mut warm = Sim::new(w, h, seeded(1));
    for _ in 0..1200 {
        warm.step(1.0 / 30.0);
    }
    let unbounded = run(&mut rain, &theme, w, h, None);
    let bounded = run(&mut warm, &theme, w, h, Some(20_000));
    assert!(
        bounded < unbounded / 2,
        "budget did not bound the frame: {bounded} vs {unbounded}"
    );
}

/// With room to spare the budgeted path must be the unbudgeted one, byte for
/// byte, not merely similar.
#[test]
fn a_slack_budget_changes_nothing() {
    fn fingerprint(w: u16, h: u16, seed: u64, frames: usize, budget: Option<usize>) -> u64 {
        let mut rain = Sim::new(w, h, seeded(seed));
        let theme = Theme::from_base(GREEN);
        let mut rr = Painter::new(w, h);
        rr.set_budget(budget);
        let mut fp: u64 = 0xcbf2_9ce4_8422_2325;
        let mut buf = Vec::with_capacity(1 << 22);
        for _ in 0..frames {
            rain.step(1.0 / 30.0);
            buf.clear();
            rr.draw(&mut buf, &rain, &theme);
            for b in &buf {
                fp ^= u64::from(*b);
                fp = fp.wrapping_mul(0x0000_0100_0000_01b3);
            }
        }
        fp
    }
    assert_eq!(
        fingerprint(204, 175, 1, 400, Some(1 << 24)),
        fingerprint(204, 175, 1, 400, None)
    );
    assert_eq!(
        fingerprint(80, 24, 7, 300, Some(1 << 24)),
        fingerprint(80, 24, 7, 300, None)
    );
}

#[test]
fn the_budget_is_spent_on_heads_first() {
    // Under pressure, the bright leading edge gets drawn and the dim tail waits.
    let (w, h) = (100u16, 60u16);
    let mut rain = Sim::new(
        w,
        h,
        Config {
            density: 0.9f32.to_bits(),
            ..seeded(23)
        },
    );
    let theme = Theme::from_base(GREEN);
    let mut rr = Painter::new(w, h);
    // Around half of what a frame wants: hard enough that most of the tail
    // waits, not so hard that the deadline is the only thing running.
    rr.set_budget(Some(6_000));
    let mut buf = Vec::new();
    for _ in 0..400 {
        rain.step(1.0 / 30.0);
        buf.clear();
        rr.draw(&mut buf, &rain, &theme);
    }

    // One more starved frame: count how many of the heads it wanted to draw it
    // actually drew, against the same figure for dim cells.
    rain.step(1.0 / 30.0);
    let mut heads = (0usize, 0usize);
    let mut dim = (0usize, 0usize);
    {
        let before: Vec<Belief> = rr.rr.believed().clone();
        buf.clear();
        rr.draw(&mut buf, &rain, &theme);
        let picture = rain
            .rain
            .frame(|glow, head, _hue| theme.color(f32::from_bits(glow), head));
        for y in 0..h {
            for x in 0..w {
                let i = y as usize * w as usize + x as usize;
                let want = picture.sample(x, y);
                let target = Belief::Shows(want.map(|s| Glyph {
                    ch: s.ch,
                    color: Depth::True.to_color(s.rgb),
                }));
                if before[i] == target {
                    continue; // undamaged
                }
                let bucket = match want {
                    Some(s) if s.head => &mut heads,
                    _ => &mut dim,
                };
                bucket.1 += 1;
                if rr.rr.believed()[i] == target {
                    bucket.0 += 1;
                }
            }
        }
    }
    assert!(heads.1 > 0 && dim.1 > 0, "nothing to compare");
    let head_rate = heads.0 as f64 / heads.1 as f64;
    let dim_rate = dim.0 as f64 / dim.1 as f64;
    assert!(
        head_rate > 0.95,
        "heads were starved: {}/{} drawn",
        heads.0,
        heads.1
    );
    assert!(
        head_rate > dim_rate * 2.0,
        "priority did nothing: heads {head_rate:.2} vs others {dim_rate:.2}"
    );
}

#[test]
fn salience_orders_the_way_the_eye_does() {
    // A head outranks even a cell that has waited to its deadline.
    assert_eq!(salience(200, 0, true), HEAD_SCORE);
    assert!(HEAD_SCORE > 255 + u16::from(MAX_DEFER - 1) * AGE_GAIN);
    // Appearing or vanishing beats a small step at the same brightness.
    assert!(salience(180, 0, false) > salience(180, 160, false));
    // A dim cell's step matters less than the same step when bright.
    assert!(salience(40, 20, false) < salience(220, 200, false));
    // Pure glyph churn, colour unchanged, is the cheapest thing to defer.
    assert!(salience(90, 90, false) < salience(90, 40, false));
    assert!(salience(255, 0, false) <= 255, "must fit the histogram");
}

#[test]
fn forgetting_the_cache_reemits_color() {
    let (rain, theme) = scene();
    let mut rr = Painter::new(20, 10);
    let _ = draw(&mut rr, &rain, &theme);
    assert!(draw(&mut rr, &rain, &theme).is_empty());
    // No cells changed, so this alone must not repaint anything...
    rr.rr.forget_cursor_and_color();
    assert!(draw(&mut rr, &rain, &theme).is_empty());
    // ...but the next real change must not assume a stale colour.
    rr.rr.resize(20, 10);
    let out = draw(&mut rr, &rain, &theme);
    assert!(out.windows(7).any(|w| w.starts_with(b"\x1b[38;2;")));
}

fn no_estimate(_: usize, _: usize) -> Estimate {
    Estimate {
        fits: true,
        allow: 0,
    }
}

/// A frame with the given cells lit, in red.
fn picture(w: u16, h: u16, lit: &[(u16, u16, char)]) -> Frame {
    let mut cells = vec![None; w as usize * h as usize];
    for &(x, y, ch) in lit {
        cells[y as usize * w as usize + x as usize] = Some(Sample {
            ch,
            rgb: (255, 0, 0),
            head: false,
        });
    }
    Frame { w, h, cells }
}

#[test]
fn the_bytes_of_a_frame_are_exact() {
    let mut rr = Renderer::new(10, 5);
    let mut out = Vec::new();
    let f = picture(10, 5, &[(2, 1, 'a'), (3, 1, 'b'), (6, 1, 'c'), (6, 2, 'ｱ')]);
    let s = rr.draw(&mut out, &f, Depth::True, no_estimate);
    assert_eq!(
        String::from_utf8(out).expect("valid UTF-8"),
        "\x1b[2;3H\x1b[38;2;255;0;0mab\x1b[2Cc\x08\nｱ"
    );
    assert_eq!((s.cells_damaged, s.cells_drawn, s.cells_forced), (4, 4, 0));

    // Going dark prints a blank and needs no pen.
    let mut out = Vec::new();
    let f = picture(10, 5, &[(3, 1, 'b'), (6, 1, 'c'), (6, 2, 'ｱ')]);
    rr.draw(&mut out, &f, Depth::True, no_estimate);
    assert_eq!(String::from_utf8(out).expect("valid UTF-8"), "\x1b[2;3H ");
}

#[test]
fn the_palette_depths_name_palette_colours() {
    for (depth, want) in [
        (Depth::Ansi256, "\x1b[1;1H\x1b[38;5;196mx"),
        (Depth::Ansi16, "\x1b[1;1H\x1b[38;5;9mx"),
    ] {
        let mut rr = Renderer::new(3, 3);
        let mut out = Vec::new();
        rr.draw(&mut out, &picture(3, 3, &[(0, 0, 'x')]), depth, no_estimate);
        assert_eq!(String::from_utf8(out).expect("valid UTF-8"), want);
    }
}

#[test]
fn a_held_back_cell_is_drawn_by_its_deadline() {
    let mut rr = Renderer::new(40, 1);
    rr.set_budget(Some(1));
    let lit: Vec<(u16, u16, char)> = (0..40).map(|x| (x, 0, 'x')).collect();
    let f = picture(40, 1, &lit);
    let mut left = 40;
    for frame in 0..=MAX_DEFER {
        let mut out = Vec::new();
        let s = rr.draw(&mut out, &f, Depth::True, |_, _| Estimate {
            fits: false,
            allow: 1,
        });
        assert_eq!(s.cells_damaged, left);
        left -= s.cells_drawn;
        if frame < MAX_DEFER {
            assert_eq!((s.cells_drawn, s.cells_forced), (1, 0));
            assert_eq!(rr.max_debt(), frame + 1);
        } else {
            assert_eq!(s.cells_drawn, s.cells_forced);
        }
    }
    assert_eq!(left, 0, "the deadline did not clear the screen");
    assert_eq!(rr.max_debt(), 0);
}

#[test]
fn brightness_weighs_green_most() {
    assert_eq!(luma((255, 255, 255)), 255);
    assert_eq!(luma((0, 0, 0)), 0);
    assert_eq!(luma((8, 0, 0)), 2);
    assert_eq!(luma((0, 8, 0)), 5);
    assert_eq!(luma((0, 0, 8)), 1);
}

#[test]
fn an_unbounded_plan_selects_everything() {
    let p = Plan::unbounded();
    assert_eq!((p.threshold, p.partial, p.cap), (0, usize::MAX, None));
    let s = DrawStats {
        cells_damaged: 9,
        cells_drawn: 4,
        cells_forced: 1,
        bytes: 80,
    };
    assert_eq!(s.cells_deferred(), 5);
}

#[test]
fn the_price_of_a_cell_stays_within_reason() {
    let mut rr = Renderer::new(2, 2);
    assert_eq!(f32::from_bits(rr.cell_cost()), 20.0);
    for (learnt, want) in [
        (33.5f32, 33.5f32),
        (f32::NAN, 33.5),
        (1.0, 4.0),
        (1e6, 96.0),
        (f32::NAN, 96.0),
    ] {
        rr.learn_cost(learnt.to_bits());
        assert_eq!(f32::from_bits(rr.cell_cost()), want);
    }
}

#[test]
fn a_resize_repaints_dark_cells_too() {
    let mut rr = Renderer::new(3, 2);
    let f = picture(3, 2, &[(1, 0, 'x')]);
    let mut out = Vec::new();
    let s = rr.draw(&mut out, &f, Depth::True, no_estimate);
    assert_eq!((s.cells_damaged, s.cells_drawn), (1, 1));

    rr.resize(3, 2);
    assert!(rr.believed().iter().all(|b| *b == Belief::Unknown));
    let mut out = Vec::new();
    let s = rr.draw(&mut out, &f, Depth::True, no_estimate);
    assert_eq!((s.cells_damaged, s.cells_drawn), (6, 6));
    assert_eq!(
        String::from_utf8(out).expect("valid UTF-8"),
        "\x1b[1;1H \x1b[38;2;255;0;0mx \x1b[2;1H   "
    );
    let s = rr.draw(&mut Vec::new(), &f, Depth::True, no_estimate);
    assert_eq!(s, DrawStats::default());
}

#[test]
fn a_resize_wipes_what_something_else_wrote() {
    // An overlay across the top row, which the renderer knows nothing of.
    let f = picture(4, 2, &[(0, 0, 'a'), (3, 1, 'b')]);
    let mut rr = Renderer::new(4, 2);
    rr.set_color_tolerance(0);
    let mut term = FakeTerm::new(4, 2);
    let mut out = Vec::new();
    rr.draw(&mut out, &f, Depth::True, no_estimate);
    term.feed(&out);
    term.feed(b"\x1b[1;1H60fp");
    rr.resize(4, 2);
    let mut out = Vec::new();
    rr.draw(&mut out, &f, Depth::True, no_estimate);
    term.feed(&out);
    assert!(term.agrees_with(rr.believed()).is_none());
    let shown: String = term.cells.iter().map(|c| c.0).collect();
    assert_eq!(shown, "a      b");
}

/// Two cells of one frame, far enough apart that each costs a move.
fn two_cells() -> Frame {
    picture(30, 3, &[(0, 0, 'x'), (20, 2, 'y')])
}

#[test]
fn a_budget_with_room_is_no_budget_whatever_was_expected() {
    let mut free = Renderer::new(30, 3);
    let mut want = Vec::new();
    let all = free.draw(&mut want, &two_cells(), Depth::True, no_estimate);
    assert_eq!(all.bytes, 30);
    let mut rr = Renderer::new(30, 3);
    rr.set_budget(Some(30));
    let mut out = Vec::new();
    let s = rr.draw(&mut out, &two_cells(), Depth::True, |_, _| Estimate {
        fits: false,
        allow: 1,
    });
    assert_eq!(out, want);
    assert_eq!(s, all);
    assert_eq!(rr.believed(), free.believed());

    // One byte short, it is a budget.
    let mut rr = Renderer::new(30, 3);
    rr.set_budget(Some(29));
    let s = rr.draw(&mut Vec::new(), &two_cells(), Depth::True, |_, _| Estimate {
        fits: false,
        allow: 1,
    });
    assert_eq!((s.cells_damaged, s.cells_drawn), (2, 1));
}

#[test]
fn a_budget_stops_a_frame_that_was_expected_to_fit() {
    let mut rr = Renderer::new(30, 3);
    rr.set_budget(Some(8));
    let s = rr.draw(&mut Vec::new(), &two_cells(), Depth::True, no_estimate);
    assert_eq!((s.cells_damaged, s.cells_drawn), (2, 1));
}

#[test]
fn a_budget_of_nothing_holds_everything_back() {
    let mut rr = Renderer::new(30, 3);
    rr.set_budget(Some(0));
    let s = rr.draw(&mut Vec::new(), &two_cells(), Depth::True, no_estimate);
    assert_eq!((s.cells_damaged, s.cells_drawn, s.bytes), (2, 0, 0));
}

#[test]
fn deadlines_leave_room_for_a_cell_that_could_wait() {
    let starved = |_: usize, _: usize| Estimate {
        fits: false,
        allow: 0,
    };
    let mut rr = Renderer::new(30, 3);
    rr.set_budget(Some(0));
    for _ in 0..MAX_DEFER {
        rr.draw(&mut Vec::new(), &picture(30, 3, &[(0, 0, 'x')]), Depth::True, starved);
    }
    assert_eq!(rr.max_debt(), MAX_DEFER);
    // The first cell is due now; two others are new.
    rr.set_budget(Some(1));
    let f = picture(30, 3, &[(0, 0, 'x'), (9, 1, 'y'), (20, 2, 'z')]);
    let s = rr.draw(&mut Vec::new(), &f, Depth::True, starved);
    assert_eq!((s.cells_damaged, s.cells_drawn, s.cells_forced), (3, 2, 1));
}
