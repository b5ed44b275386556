//! The simulation.
//!
//! Every cell carries a glow that decays. A drop writes glyphs at full glow as
//! its head descends; the fade behind it is what is left of them, so drops that
//! overlap in one column blend instead of clobbering each other.
//!
//! Glows, rows, speeds and times are single-precision numbers. They are kept
//! here by their bit patterns and compared ([`crate::bits`]); the arithmetic on
//! them is the caller's, who hands in what it computed. What becomes of the
//! grid then, cell by cell and draw by draw, is decided here.

use crate::bits::{self, lemma_stands_for, lt, stands_for, INFINITE, ONE, ZERO};
use crate::chance::{index_below, index_draw, rng_state, seed_state, seeded, unseeded};
use crate::charset::{glyphs_of, Charset};
use crate::grid::{filled, lemma_grid_index, lemma_grid_size};
use crate::render::{Frame, Sample};
use crate::theme::Rgb;
use rand::rngs::StdRng;
use vstd::arithmetic::div_mod::{lemma_mod_bound, lemma_small_mod};
use vstd::arithmetic::power2::lemma2_to64;
use vstd::prelude::*;

verus! {

/// `0.012`. Below this a cell is considered dark and gets erased.
pub const EPS: u32 = 0x3c44_9ba6;

/// `0.5`, the decay of a cell that nothing was written to yet.
pub const IDLE_DECAY: u32 = 0x3f00_0000;

/// One cell of the grid.
#[derive(Clone, Copy, Debug, PartialEq, Eq, Structural)]
pub struct Cell {
    pub ch: char,
    /// How brightly it is lit.
    pub glow: u32,
    /// Per-second multiplicative decay, captured from the drop that wrote it.
    pub decay: u32,
    /// Whether this is the leading edge of a drop.
    pub head: bool,
}

/// A cell with nothing in it.
pub open spec fn dark() -> Cell {
    Cell { ch: ' ', glow: ZERO, decay: IDLE_DECAY, head: false }
}

impl Default for Cell {
    fn default() -> (c: Cell)
        ensures
            c == dark(),
    {
        Cell { ch: ' ', glow: ZERO, decay: IDLE_DECAY, head: false }
    }
}

/// Something falling down a column.
#[derive(Clone, Copy, Debug)]
pub struct Drop {
    pub row: u32,
    pub speed: u32,
    pub tail: u32,
    /// The row as a whole number, rounded down.
    pub at: i32,
    /// Index of the cell currently rendered as the head, so that it can be
    /// un-headed.
    pub head_idx: Option<usize>,
}

/// One column of the grid.
#[derive(Debug)]
pub struct Column {
    pub drops: Vec<Drop>,
    /// Seconds until a drop may start.
    pub cooldown: u32,
    /// Vertical gap to leave behind a drop before the next one starts.
    pub gap: u32,
    pub hue: u32,
}

/// What a column is in contracts.
pub struct Lane {
    pub drops: Seq<Drop>,
    pub cooldown: u32,
    pub gap: u32,
    pub hue: u32,
}

impl View for Column {
    type V = Lane;

    open spec fn view(&self) -> Lane {
        Lane { drops: self.drops@, cooldown: self.cooldown, gap: self.gap, hue: self.hue }
    }
}

/// How a column starts out: nothing in it yet, and a stagger so that the first
/// frame is not one flat wave.
#[derive(Clone, Copy, Debug)]
pub struct Start {
    pub cooldown: u32,
    pub gap: u32,
    pub hue: u32,
}

/// Where one drop falls to within a step.
#[derive(Clone, Copy, Debug)]
pub struct Fall {
    /// The row it reaches.
    pub row: u32,
    /// That row as a whole number, rounded down.
    pub floor: i32,
    /// The decay of what it writes on the way.
    pub decay: u32,
    /// Whether its tail too is past the bottom, so that it can be retired.
    pub gone: bool,
}

/// A drop about to enter its column.
#[derive(Clone, Copy, Debug)]
pub struct Launch {
    pub row: u32,
    pub speed: u32,
    pub tail: u32,
    /// The row as a whole number, rounded down.
    pub at: i32,
    /// The gap to leave behind it.
    pub gap: u32,
    /// Seconds until the column may start another.
    pub cooldown: u32,
}

/// What the caller worked out or drew for a column.
#[derive(Clone, Copy, Debug)]
pub enum Drawn {
    /// What is left of its cooldown, and how far down its last drop has to be
    /// before another may start.
    Cooled { cooldown: u32, bar: u32 },
    /// A roll against the density.
    Roll(u32),
    /// How many seconds it sits out.
    Rest(u32),
    /// The drop it starts.
    Launch(Launch),
}

/// The passes of a step, in order.
#[derive(Clone, Copy, Debug, PartialEq, Eq, Structural)]
pub enum Phase {
    /// [`Rain::decay`].
    Fade,
    /// [`Rain::advance`].
    Fall,
    /// [`Rain::spawn`] for one column, until nothing is needed.
    Spawn(usize),
    /// [`Rain::churn`].
    Churn,
}

/// What comes after a pass on a grid of so many columns: what is lit fades,
/// then every drop falls, then each column from left to right may start one,
/// then glyphs churn.
pub open spec fn phase_after(cols: nat, done: Phase) -> Option<Phase> {
    match done {
        Phase::Fade => Some(Phase::Fall),
        Phase::Fall => Some(
            if cols == 0 {
                Phase::Churn
            } else {
                Phase::Spawn(0)
            },
        ),
        Phase::Spawn(x) => Some(
            if x + 1 < cols {
                Phase::Spawn((x + 1) as usize)
            } else {
                Phase::Churn
            },
        ),
        Phase::Churn => None,
    }
}

/// What has to be drawn for a column next.
#[derive(Clone, Copy, Debug, PartialEq, Eq, Structural)]
pub enum Need {
    Nothing,
    Roll,
    Rest,
    Launch,
}

/// How the rain is to look.
#[derive(Clone, Debug)]
pub struct Config {
    pub speed: u32,
    pub density: u32,
    pub tail_min: u32,
    pub tail_max: u32,
    pub mutate: u32,
    pub glyphs: Vec<char>,
    /// `None` draws a seed from the operating system; `Some` replays
    /// deterministically.
    pub seed: Option<u64>,
}

impl Default for Config {
    fn default() -> (c: Config)
        ensures
            c.speed == ONE,
            c.density == 0x3f0c_cccdu32,
            c.tail_min == 0x40c0_0000u32,
            c.tail_max == 0x41d0_0000u32,
            c.mutate == 0x3eb3_3333u32,
            c.glyphs@ == glyphs_of(Charset::Classic, Seq::empty()),
            c.seed is None,
            stands_for(c.speed, 1, 1),
            stands_for(c.density, 55, 100),
            stands_for(c.tail_min, 6, 1),
            stands_for(c.tail_max, 26, 1),
            stands_for(c.mutate, 35, 100),
    {
        proof {
            lemma2_to64();
            lemma_stands_for(ONE, 1, 1);
            lemma_stands_for(0x3f0c_cccd, 55, 100);
            lemma_stands_for(0x40c0_0000, 6, 1);
            lemma_stands_for(0x41d0_0000, 26, 1);
            lemma_stands_for(0x3eb3_3333, 35, 100);
            reveal_strlit("");
            assert(""@ =~= Seq::<char>::empty());
        }
        Config {
            speed: ONE,
            density: 0x3f0c_cccd,
            tail_min: 0x40c0_0000,
            tail_max: 0x41d0_0000,
            mutate: 0x3eb3_3333,
            glyphs: Charset::Classic.glyphs(""),
            seed: None,
        }
    }
}

/// The whole simulation in contracts.
#[verifier::ext_equal]
pub struct Field {
    pub w: u16,
    pub h: u16,
    pub cells: Seq<Cell>,
    pub cols: Seq<Lane>,
    pub glyphs: Seq<char>,
    pub density: u32,
    /// The state of the generator.
    pub rng: Seq<u8>,
}

impl Field {
    /// A cell per position, a column per column.
    pub open spec fn wf(self) -> bool {
        self.cells.len() == self.w * self.h && self.cols.len() == self.w
    }
}

/// Whether a cell is lit.
pub open spec fn lit(c: Cell) -> bool {
    lt(ZERO, c.glow)
}

/// Whether a cell is drawn. It is exactly where it is lit, as long as its glow
/// is a number.
pub open spec fn visible(c: Cell) -> bool {
    !bits::le(c.glow, ZERO)
}

/// A step of the clock that counts: finite and forwards.
pub open spec fn counts(dt: u32) -> bool {
    bits::finite(dt) && lt(ZERO, dt)
}

/// What becomes of a cell whose glow would fade to `faded`.
pub open spec fn faded_cell(c: Cell, faded: u32) -> Cell {
    if !lit(c) {
        c
    } else if lt(faded, EPS) {
        dark()
    } else {
        Cell { glow: faded, ..c }
    }
}

/// The glyph drawn from the pool: the draw counts round it, which makes no
/// difference to one that is an index into it. An empty pool gives blanks.
pub open spec fn picked(rng: Seq<u8>, glyphs: Seq<char>) -> char {
    if glyphs.len() == 0 {
        ' '
    } else {
        glyphs[index_draw(rng, glyphs.len() as usize).0 as int % glyphs.len() as int]
    }
}

/// A glyph that the pool can give: one of it, or a blank where it is empty.
pub open spec fn in_pool(glyphs: Seq<char>, ch: char) -> bool {
    if glyphs.len() == 0 {
        ch == ' '
    } else {
        glyphs.contains(ch)
    }
}

/// What is drawn from a pool is in it.
pub proof fn lemma_picked(rng: Seq<u8>, glyphs: Seq<char>)
    ensures
        in_pool(glyphs, picked(rng, glyphs)),
{
    if glyphs.len() > 0 {
        let i = index_draw(rng, glyphs.len() as usize).0 as int;
        lemma_mod_bound(i, glyphs.len() as int);
        assert(glyphs[i % glyphs.len() as int] == picked(rng, glyphs));
    }
}

/// The generator after that draw. An empty pool takes none.
pub open spec fn after_pick(rng: Seq<u8>, glyphs: Seq<char>) -> Seq<u8> {
    if glyphs.len() == 0 {
        rng
    } else {
        index_draw(rng, glyphs.len() as usize).1
    }
}

/// The grid without the head a drop had on it.
pub open spec fn unheaded(cells: Seq<Cell>, head: Option<usize>) -> Seq<Cell> {
    match head {
        Some(p) => if p < cells.len() {
            cells.update(p as int, Cell { head: false, ..cells[p as int] })
        } else {
            cells
        },
        None => cells,
    }
}

/// Falling drops write nothing but glyphs of the pool at full glow; every other
/// cell keeps its glyph, its glow and its decay.
pub open spec fn rained_on(before: Seq<Cell>, after: Seq<Cell>, glyphs: Seq<char>) -> bool {
    &&& after.len() == before.len()
    &&& forall|i: int|
        0 <= i < after.len() ==> {
            let (b, a) = (before[i], #[trigger] after[i]);
            ||| a.ch == b.ch && a.glow == b.glow && a.decay == b.decay
            ||| a.glow == ONE && in_pool(glyphs, a.ch)
        }
}

/// Churning changes glyphs and nothing else, to glyphs of the pool, and only
/// those of lit cells that are no heads.
pub open spec fn rerolled(before: Seq<Cell>, after: Seq<Cell>, glyphs: Seq<char>) -> bool {
    &&& after.len() == before.len()
    &&& forall|i: int|
        0 <= i < after.len() ==> {
            let (b, a) = (before[i], #[trigger] after[i]);
            ||| a == b
            ||| a == (Cell { ch: a.ch, ..b }) && in_pool(glyphs, a.ch) && lt(EPS, b.glow) && !b.head
        }
}

/// The grid, the generator and one drop's head while that drop falls.
#[verifier::ext_equal]
pub struct Falling {
    pub cells: Seq<Cell>,
    pub rng: Seq<u8>,
    pub head: Option<usize>,
}

/// A drop crosses into row `r` of column `x`: the cell it left is no head any
/// more, whether or not the new row is on the grid; if it is, a fresh glyph is
/// written there at full glow.
pub open spec fn enter_row(
    f: Falling,
    glyphs: Seq<char>,
    w: u16,
    h: u16,
    x: int,
    r: int,
    decay: u32,
) -> Falling {
    let cells = unheaded(f.cells, f.head);
    if 0 <= r < h {
        let ch = picked(f.rng, glyphs);
        let idx = r * w + x;
        Falling {
            cells: cells.update(idx, Cell { ch, glow: ONE, decay, head: true }),
            rng: after_pick(f.rng, glyphs),
            head: Some(idx as usize),
        }
    } else {
        Falling { cells, rng: f.rng, head: None }
    }
}

/// A drop falls from row `from`, crossing into each row up to `to`.
pub open spec fn fallen(
    f: Falling,
    glyphs: Seq<char>,
    w: u16,
    h: u16,
    x: int,
    decay: u32,
    from: int,
    to: int,
) -> Falling
    decreases to - from,
{
    if to <= from {
        f
    } else {
        enter_row(fallen(f, glyphs, w, h, x, decay, from, to - 1), glyphs, w, h, x, to, decay)
    }
}

/// The grid, the generator and the drops of one column that have moved so far.
#[verifier::ext_equal]
pub struct Pour {
    pub cells: Seq<Cell>,
    pub rng: Seq<u8>,
    pub drops: Seq<Drop>,
}

/// The first `n` drops of column `x` fall, one after the other.
pub open spec fn poured(
    cells: Seq<Cell>,
    rng: Seq<u8>,
    drops: Seq<Drop>,
    falls: Seq<Fall>,
    glyphs: Seq<char>,
    w: u16,
    h: u16,
    x: int,
    n: nat,
) -> Pour
    decreases n,
{
    if n == 0 {
        Pour { cells, rng, drops: Seq::empty() }
    } else {
        let p = poured(cells, rng, drops, falls, glyphs, w, h, x, (n - 1) as nat);
        let d = drops[n - 1];
        let fall = falls[n - 1];
        let f = fallen(
            Falling { cells: p.cells, rng: p.rng, head: d.head_idx },
            glyphs,
            w,
            h,
            x,
            fall.decay,
            d.at as int,
            fall.floor as int,
        );
        Pour {
            cells: f.cells,
            rng: f.rng,
            drops: p.drops.push(Drop { row: fall.row, at: fall.floor, head_idx: f.head, ..d }),
        }
    }
}

/// Those of the first `n` drops that are not to be retired, in order.
pub open spec fn kept(drops: Seq<Drop>, falls: Seq<Fall>, n: nat) -> Seq<Drop>
    decreases n,
{
    if n == 0 {
        Seq::empty()
    } else if falls[n - 1].gone {
        kept(drops, falls, (n - 1) as nat)
    } else {
        kept(drops, falls, (n - 1) as nat).push(drops[n - 1])
    }
}

/// The first `n` columns advance, from left to right.
pub open spec fn advanced(s: Field, falls: Seq<Vec<Fall>>, n: nat) -> Field
    decreases n,
{
    if n == 0 {
        s
    } else {
        let q = advanced(s, falls, (n - 1) as nat);
        let x = n - 1;
        let lane = q.cols[x];
        let p = poured(
            q.cells,
            q.rng,
            lane.drops,
            falls[x]@,
            s.glyphs,
            s.w,
            s.h,
            x,
            lane.drops.len(),
        );
        Field {
            cells: p.cells,
            rng: p.rng,
            cols: q.cols.update(x, Lane { drops: kept(p.drops, falls[x]@, p.drops.len()), ..lane }),
            ..q
        }
    }
}

/// There is a fall for every drop of every column.
pub open spec fn falls_fit(cols: Seq<Lane>, falls: Seq<Vec<Fall>>) -> bool {
    &&& falls.len() == cols.len()
    &&& forall|x: int|
        0 <= x < cols.len() ==> (#[trigger] falls[x])@.len() == cols[x].drops.len()
}

/// `n` glyphs are churned in place. A dark cell stays dark and a head is left
/// alone: re-rolling it reads as a stutter.
pub open spec fn churned(
    cells: Seq<Cell>,
    rng: Seq<u8>,
    glyphs: Seq<char>,
    n: nat,
) -> (Seq<Cell>, Seq<u8>)
    decreases n,
{
    if n == 0 {
        (cells, rng)
    } else {
        let (before, state) = churned(cells, rng, glyphs, (n - 1) as nat);
        let (i, drawn) = index_draw(state, cells.len() as usize);
        if i < before.len() && lt(EPS, before[i as int].glow) && !before[i as int].head {
            let ch = picked(drawn, glyphs);
            (
                before.update(i as int, Cell { ch, ..before[i as int] }),
                after_pick(drawn, glyphs),
            )
        } else {
            (before, drawn)
        }
    }
}

/// How many glyphs a budget churns: never more than there are cells, and none
/// where mutation is off.
pub open spec fn churn_count(mutate: u32, budget: usize, len: nat) -> nat {
    if bits::le(mutate, ZERO) || len == 0 {
        0
    } else if budget < len {
        budget as nat
    } else {
        len
    }
}

/// Whether a column's turn has come: its last drop is far enough down, past
/// `bar`, and it has cooled off.
pub open spec fn turn(lane: Lane, cooldown: u32, bar: u32) -> bool {
    (lane.drops.len() == 0 || lt(bar, lane.drops.last().row)) && !lt(ZERO, cooldown)
}

/// A grid with nothing on it and a column per start.
pub open spec fn cleared(s: Field, w: u16, h: u16, starts: Seq<Start>) -> Field {
    Field {
        w,
        h,
        cells: Seq::new((w * h) as nat, |i: int| dark()),
        cols: Seq::new(
            w as nat,
            |x: int|
                Lane {
                    drops: Seq::empty(),
                    cooldown: starts[x].cooldown,
                    gap: starts[x].gap,
                    hue: starts[x].hue,
                },
        ),
        ..s
    }
}

/// A glyph from the pool, or a blank where the pool is empty.
pub fn pick(rng: &mut StdRng, glyphs: &Vec<char>) -> (ch: char)
    ensures
        ch == picked(rng_state(*old(rng)), glyphs@),
        rng_state(*final(rng)) == after_pick(rng_state(*old(rng)), glyphs@),
        in_pool(glyphs@, ch),
{
    proof {
        lemma_picked(rng_state(*rng), glyphs@);
    }
    if glyphs.len() == 0 {
        return ' ';
    }
    let i: usize = index_below(rng, glyphs.len());
    proof {
        lemma_small_mod(i as nat, glyphs@.len());
    }
    glyphs[i]
}

/// One drop falls. Returns it where it ends up.
fn fall_drop(
    cells: &mut Vec<Cell>,
    rng: &mut StdRng,
    glyphs: &Vec<char>,
    w: u16,
    h: u16,
    x: usize,
    d: Drop,
    fall: Fall,
) -> (moved: Drop)
    requires
        old(cells)@.len() == w * h,
        x < w,
    ensures
        ({
            let f = fallen(
                Falling {
                    cells: old(cells)@,
                    rng: rng_state(*old(rng)),
                    head: d.head_idx,
                },
                glyphs@,
                w,
                h,
                x as int,
                fall.decay,
                d.at as int,
                fall.floor as int,
            );
            &&& final(cells)@ == f.cells
            &&& rng_state(*final(rng)) == f.rng
            &&& moved == (Drop { row: fall.row, at: fall.floor, head_idx: f.head, ..d })
        }),
        final(cells)@.len() == w * h,
        rained_on(old(cells)@, final(cells)@, glyphs@),
{
    let mut head: Option<usize> = d.head_idx;
    let mut r: i32 = d.at;
    let ghost start = Falling { cells: cells@, rng: rng_state(*rng), head: d.head_idx };
    while r < fall.floor
        invariant
            d.at <= r,
            r <= fall.floor || r == d.at,
            x < w,
            cells@.len() == w * h,
            rained_on(start.cells, cells@, glyphs@),
            (Falling { cells: cells@, rng: rng_state(*rng), head }) == fallen(
                start,
                glyphs@,
                w,
                h,
                x as int,
                fall.decay,
                d.at as int,
                r as int,
            ),
        decreases fall.floor - r,
    {
        r = r + 1;
        if let Some(p) = head {
            if p < cells.len() {
                let mut c: Cell = cells[p];
                c.head = false;
                cells.set(p, c);
            }
        }
        head = None;
        if 0 <= r && r < h as i32 {
            proof {
                lemma_grid_index(w as int, h as int, x as int, r as int);
            }
            let idx: usize = r as usize * w as usize + x;
            let ch: char = pick(rng, glyphs);
            cells.set(idx, Cell { ch, glow: ONE, decay: fall.decay, head: true });
            head = Some(idx);
        }
    }
    Drop { row: fall.row, speed: d.speed, tail: d.tail, at: fall.floor, head_idx: head }
}

/// The drops of one column fall, and those that are gone are retired.
fn pour(
    cells: &mut Vec<Cell>,
    rng: &mut StdRng,
    glyphs: &Vec<char>,
    w: u16,
    h: u16,
    x: usize,
    drops: &Vec<Drop>,
    falls: &Vec<Fall>,
) -> (left: Vec<Drop>)
    requires
        old(cells)@.len() == w * h,
        x < w,
        falls@.len() == drops@.len(),
    ensures
        ({
            let p = poured(
                old(cells)@,
                rng_state(*old(rng)),
                drops@,
                falls@,
                glyphs@,
                w,
                h,
                x as int,
                drops@.len(),
            );
            &&& final(cells)@ == p.cells
            &&& rng_state(*final(rng)) == p.rng
            &&& left@ == kept(p.drops, falls@, p.drops.len())
        }),
        final(cells)@.len() == w * h,
        rained_on(old(cells)@, final(cells)@, glyphs@),
{
    let mut left: Vec<Drop> = Vec::new();
    let mut i: usize = 0;
    let ghost cells0 = cells@;
    let ghost rng0 = rng_state(*rng);
    let ghost mut moved: Seq<Drop> = Seq::empty();
    while i < drops.len()
        invariant
            i <= drops@.len(),
            falls@.len() == drops@.len(),
            x < w,
            cells@.len() == w * h,
            rained_on(cells0, cells@, glyphs@),
            (Pour { cells: cells@, rng: rng_state(*rng), drops: moved }) == poured(
                cells0,
                rng0,
                drops@,
                falls@,
                glyphs@,
                w,
                h,
                x as int,
                i as nat,
            ),
            moved.len() == i,
            left@ == kept(moved, falls@, i as nat),
        decreases drops.len() - i,
    {
        let d: Drop = fall_drop(cells, rng, glyphs, w, h, x, drops[i], falls[i]);
        proof {
            lemma_kept_prefix(moved, moved.push(d), falls@, i as nat);
            moved = moved.push(d);
        }
        if !falls[i].gone {
            left.push(d);
        }
        i = i + 1;
    }
    left
}

/// What is kept of the first drops depends on those alone.
proof fn lemma_kept_prefix(a: Seq<Drop>, b: Seq<Drop>, falls: Seq<Fall>, n: nat)
    requires
        n <= a.len(),
        n <= b.len(),
        forall|i: int| 0 <= i < n ==> a[i] == b[i],
    ensures
        kept(a, falls, n) == kept(b, falls, n),
    decreases n,
{
    if n > 0 {
        lemma_kept_prefix(a, b, falls, (n - 1) as nat);
    }
}

/// The grid, its columns, and the generator that drives them.
pub struct Rain {
    w: u16,
    h: u16,
    cells: Vec<Cell>,
    cols: Vec<Column>,
    cfg: Config,
    /// Draws of fractional numbers are made on it directly.
    pub rng: StdRng,
    /// Seconds since start; drives the rainbow rotation.
    pub elapsed: u32,
    /// Live speed control, multiplied on top of the configured speed.
    pub speed_mul: u32,
}

impl Rain {
    /// What the simulation holds.
    pub closed spec fn field(&self) -> Field {
        Field {
            w: self.w,
            h: self.h,
            cells: self.cells@,
            cols: Seq::new(self.cols@.len(), |x: int| self.cols@[x]@),
            glyphs: self.cfg.glyphs@,
            density: self.cfg.density,
            rng: rng_state(self.rng),
        }
    }

    /// The settings.
    pub closed spec fn settings(&self) -> Config {
        self.cfg
    }

    /// The clock and the live speed control.
    pub closed spec fn dials(&self) -> (u32, u32) {
        (self.elapsed, self.speed_mul)
    }

    /// There is a cell per position and a column per column.
    pub open spec fn wf(&self) -> bool {
        self.field().wf()
    }

    /// A simulation without a grid yet: [`Rain::resize`] gives it one. A seed
    /// decides every draw made from it. `None` where there is no seed and the
    /// operating system gives none either.
    #[must_use]
    pub fn new(cfg: Config) -> (r: Option<Rain>)
        ensures
            cfg.seed is Some ==> r is Some,
            r matches Some(r) ==> {
                &&& r.wf()
                &&& r.field().w == 0
                &&& r.field().h == 0
                &&& r.field().glyphs == cfg.glyphs@
                &&& r.field().density == cfg.density
                &&& cfg.seed matches Some(s) ==> r.field().rng == seed_state(s)
                &&& r.settings() == cfg
                &&& r.dials() == (ZERO, ONE)
            },
    {
        let rng: StdRng = match cfg.seed {
            Some(s) => seeded(s),
            None => match unseeded() {
                Some(rng) => rng,
                None => return None,
            },
        };
        Some(Rain {
            w: 0,
            h: 0,
            cells: Vec::new(),
            cols: Vec::new(),
            cfg,
            rng,
            elapsed: ZERO,
            speed_mul: ONE,
        })
    }

    #[must_use]
    pub fn width(&self) -> (w: u16)
        ensures
            w == self.field().w,
    {
        self.w
    }

    #[must_use]
    pub fn height(&self) -> (h: u16)
        ensures
            h == self.field().h,
    {
        self.h
    }

    /// The settings.
    #[must_use]
    pub fn config(&self) -> (c: &Config)
        ensures
            *c == self.settings(),
    {
        &self.cfg
    }

    /// The cells, row by row.
    #[must_use]
    pub fn cells(&self) -> (c: &Vec<Cell>)
        ensures
            c@ == self.field().cells,
    {
        &self.cells
    }

    /// The columns, from left to right.
    #[must_use]
    pub fn columns(&self) -> (c: &Vec<Column>)
        ensures
            c@.len() == self.field().cols.len(),
            forall|x: int| 0 <= x < c@.len() ==> (#[trigger] c@[x])@ == self.field().cols[x],
    {
        &self.cols
    }

    pub fn set_glyphs(&mut self, glyphs: Vec<char>)
        ensures
            final(self).field() == (Field { glyphs: glyphs@, ..old(self).field() }),
            final(self).settings() == (Config { glyphs, ..old(self).settings() }),
            final(self).dials() == old(self).dials(),
    {
        self.cfg.glyphs = glyphs;
        assert(self.field().cols =~= old(self).field().cols);
    }

    /// Rebuilt from scratch, which sidesteps the whole class of bugs that come
    /// from reindexing a live grid.
    pub fn resize(&mut self, w: u16, h: u16, starts: &Vec<Start>)
        requires
            starts@.len() == w,
        ensures
            final(self).wf(),
            final(self).field() == cleared(old(self).field(), w, h, starts@),
            final(self).settings() == old(self).settings(),
            final(self).dials() == old(self).dials(),
    {
        proof {
            lemma_grid_size(w as int, h as int);
        }
        self.w = w;
        self.h = h;
        self.cells = filled(w as usize * h as usize, Cell::default());
        let mut cols: Vec<Column> = Vec::with_capacity(w as usize);
        let mut x: usize = 0;
        while x < w as usize
            invariant
                x <= w,
                starts@.len() == w,
                cols@.len() == x,
                forall|k: int|
                    0 <= k < x ==> (#[trigger] cols@[k])@ == cleared(
                        old(self).field(),
                        w,
                        h,
                        starts@,
                    ).cols[k],
            decreases w - x,
        {
            let s: Start = starts[x];
            let c = Column { drops: Vec::new(), cooldown: s.cooldown, gap: s.gap, hue: s.hue };
            assert(c@.drops =~= Seq::empty());
            cols.push(c);
            x = x + 1;
        }
        self.cols = cols;
        assert(self.field().cols =~= cleared(old(self).field(), w, h, starts@).cols);
        assert(self.field().cells =~= cleared(old(self).field(), w, h, starts@).cells);
    }

    /// `None` when out of bounds, so that a reader that has drifted out of sync
    /// with the grid sees blank cells.
    #[must_use]
    pub fn cell(&self, x: u16, y: u16) -> (c: Option<&Cell>)
        requires
            self.wf(),
        ensures
            match c {
                Some(c) => x < self.field().w && y < self.field().h && *c == self.field().cells[y
                    * self.field().w + x],
                None => x >= self.field().w || y >= self.field().h,
            },
    {
        if x >= self.w || y >= self.h {
            return None;
        }
        proof {
            lemma_grid_index(self.w as int, self.h as int, x as int, y as int);
        }
        let i: usize = y as usize * self.w as usize + x as usize;
        Some(&self.cells[i])
    }

    /// The clock moves by `dt` seconds, to `elapsed`; returns the first pass of
    /// the step, by `scaled` seconds of the rain's own, where the rain moves
    /// with it. [`Rain::next`] gives the others.
    ///
    /// A clock that stood still, ran backwards or lost its mind is ignored. At
    /// no speed the rain stands still while the clock goes on.
    pub fn step(&mut self, dt: u32, elapsed: u32, scaled: u32) -> (first: Option<Phase>)
        ensures
            first == (if counts(dt) && lt(ZERO, scaled) {
                Some(Phase::Fade)
            } else {
                None
            }),
            final(self).dials() == (if counts(dt) {
                elapsed
            } else {
                old(self).dials().0
            }, old(self).dials().1),
            first is Some ==> 0 < dt < INFINITE && 0 < scaled <= INFINITE,
            0 < dt < INFINITE ==> final(self).dials().0 == elapsed,
            0 < dt < INFINITE && 0 < scaled <= INFINITE ==> first is Some,
            dt == 0 || dt >= INFINITE ==> first is None && final(self).dials() == old(self).dials(),
            final(self).field() == old(self).field(),
            final(self).settings() == old(self).settings(),
    {
        if !bits::is_finite(dt) || bits::at_most(dt, ZERO) {
            return None;
        }
        self.elapsed = elapsed;
        assert(self.field().cols =~= old(self).field().cols);
        if bits::less(ZERO, scaled) {
            Some(Phase::Fade)
        } else {
            None
        }
    }

    /// The pass of a step that comes after `done`, if any.
    #[must_use]
    pub fn next(&self, done: Phase) -> (p: Option<Phase>)
        ensures
            p == phase_after(self.field().cols.len(), done),
    {
        let cols: usize = self.cols.len();
        match done {
            Phase::Fade => Some(Phase::Fall),
            Phase::Fall => Some(
                if cols == 0 {
                    Phase::Churn
                } else {
                    Phase::Spawn(0)
                },
            ),
            Phase::Spawn(x) => Some(
                if cols > 0 && x < cols - 1 {
                    Phase::Spawn(x + 1)
                } else {
                    Phase::Churn
                },
            ),
            Phase::Churn => None,
        }
    }

    /// Every lit cell fades to what is given for it, and goes dark once that is
    /// below [`EPS`].
    pub fn decay(&mut self, faded: &Vec<u32>)
        requires
            old(self).wf(),
            faded@.len() == old(self).field().cells.len(),
        ensures
            final(self).field() == (Field {
                cells: Seq::new(
                    faded@.len(),
                    |i: int| faded_cell(old(self).field().cells[i], faded@[i]),
                ),
                ..old(self).field()
            }),
            forall|i: int|
                #![trigger final(self).field().cells[i]]
                0 <= i < faded@.len() && lt(ZERO, old(self).field().cells[i].glow) ==> {
                    let (b, a) = (old(self).field().cells[i], final(self).field().cells[i]);
                    &&& bits::le(EPS, faded@[i]) ==> a.glow == faded@[i] && a.ch == b.ch
                    &&& lt(faded@[i], EPS) ==> a.glow == ZERO && a.ch == ' '
                },
            final(self).settings() == old(self).settings(),
            final(self).dials() == old(self).dials(),
    {
        let mut i: usize = 0;
        let ghost before = self.field();
        while i < faded.len()
            invariant
                i <= faded@.len(),
                faded@.len() == before.cells.len(),
                before == old(self).field(),
                self.cells@.len() == before.cells.len(),
                forall|k: int|
                    0 <= k < i ==> #[trigger] self.cells@[k] == faded_cell(
                        before.cells[k],
                        faded@[k],
                    ),
                forall|k: int|
                    i <= k < before.cells.len() ==> #[trigger] self.cells@[k] == before.cells[k],
                self.w == old(self).w,
                self.h == old(self).h,
                self.cols == old(self).cols,
                self.cfg == old(self).cfg,
                self.rng == old(self).rng,
                self.elapsed == old(self).elapsed,
                self.speed_mul == old(self).speed_mul,
            decreases faded.len() - i,
        {
            let mut c: Cell = self.cells[i];
            if bits::less(ZERO, c.glow) {
                c.glow = faded[i];
                if bits::less(c.glow, EPS) {
                    c = Cell::default();
                }
                self.cells.set(i, c);
            }
            i = i + 1;
        }
        assert(self.field().cells =~= Seq::new(
            faded@.len(),
            |i: int| faded_cell(old(self).field().cells[i], faded@[i]),
        ));
    }

    /// Every drop falls as far as is given for it, writing glyphs of the pool as
    /// it goes, and drops whose tail is past the bottom are retired.
    pub fn advance(&mut self, falls: &Vec<Vec<Fall>>)
        requires
            old(self).wf(),
            falls_fit(old(self).field().cols, falls@),
        ensures
            final(self).wf(),
            final(self).field() == advanced(
                old(self).field(),
                falls@,
                old(self).field().cols.len(),
            ),
            rained_on(
                old(self).field().cells,
                final(self).field().cells,
                old(self).field().glyphs,
            ),
            final(self).field().w == old(self).field().w,
            final(self).field().h == old(self).field().h,
            final(self).field().glyphs == old(self).field().glyphs,
            final(self).field().density == old(self).field().density,
            final(self).settings() == old(self).settings(),
            final(self).dials() == old(self).dials(),
    {
        let mut x: usize = 0;
        let ghost before = self.field();
        proof {
            assert(advanced(before, falls@, 0).cols =~= self.field().cols);
        }
        while x < self.cols.len()
            invariant
                x <= before.cols.len(),
                before == old(self).field(),
                before.wf(),
                falls_fit(before.cols, falls@),
                self.field() == advanced(before, falls@, x as nat),
                self.field().wf(),
                rained_on(before.cells, self.cells@, before.glyphs),
                before.glyphs == self.cfg.glyphs@,
                self.w == before.w,
                self.h == before.h,
                self.cols@.len() == before.cols.len(),
                forall|k: int| x <= k < before.cols.len() ==> self.field().cols[k] == before.cols[k],
                self.cfg == old(self).cfg,
                self.elapsed == old(self).elapsed,
                self.speed_mul == old(self).speed_mul,
            decreases before.cols.len() - x,
        {
            let ghost q = self.field();
            assert(q.cols[x as int] == before.cols[x as int]);
            assert(falls@[x as int]@.len() == before.cols[x as int].drops.len());
            let left: Vec<Drop> = pour(
                &mut self.cells,
                &mut self.rng,
                &self.cfg.glyphs,
                self.w,
                self.h,
                x,
                &self.cols[x].drops,
                &falls[x],
            );
            let c = Column {
                drops: left,
                cooldown: self.cols[x].cooldown,
                gap: self.cols[x].gap,
                hue: self.cols[x].hue,
            };
            self.cols.set(x, c);
            x = x + 1;
            assert(self.field().cols =~= advanced(before, falls@, x as nat).cols);
            assert(self.field() =~= advanced(before, falls@, x as nat));
        }
    }

    /// One exchange about starting a drop in column `x`: the caller says what
    /// it worked out or drew, and is told what to draw next, if anything.
    ///
    /// A column starts a drop once its turn has come and it rolls no higher
    /// than the density. One that rolls higher sits this one out, which is what
    /// keeps the field from filling in. At no density every column sits out,
    /// whatever it rolls, and no drop is let in. A drop that starts has no head
    /// on the grid yet.
    pub fn spawn(&mut self, x: usize, drawn: Drawn) -> (need: Need)
        requires
            x < old(self).field().cols.len(),
        ensures
            final(self).field() == spawned(old(self).field(), x as int, drawn),
            need == needed(old(self).field(), x as int, drawn),
            final(self).settings() == old(self).settings(),
            final(self).dials() == old(self).dials(),
    {
        let ghost s = self.field();
        assert(s.cols[x as int] == self.cols@[x as int]@);
        let need: Need = match drawn {
            Drawn::Cooled { cooldown, bar } => {
                let n: usize = self.cols[x].drops.len();
                let far: bool = n == 0 || bits::less(bar, self.cols[x].drops[n - 1].row);
                self.cols[x].cooldown = cooldown;
                if far && !bits::less(ZERO, cooldown) {
                    Need::Roll
                } else {
                    Need::Nothing
                }
            },
            Drawn::Roll(roll) => if bits::at_most(self.cfg.density, ZERO) || bits::less(
                self.cfg.density,
                roll,
            ) {
                Need::Rest
            } else {
                Need::Launch
            },
            Drawn::Rest(cooldown) => {
                self.cols[x].cooldown = cooldown;
                Need::Nothing
            },
            Drawn::Launch(l) => {
                if !bits::at_most(self.cfg.density, ZERO) {
                    self.cols[x].drops.push(
                        Drop { row: l.row, speed: l.speed, tail: l.tail, at: l.at, head_idx: None },
                    );
                    self.cols[x].gap = l.gap;
                    self.cols[x].cooldown = l.cooldown;
                }
                Need::Nothing
            },
        };
        assert(self.field().cols =~= spawned(s, x as int, drawn).cols);
        need
    }

    /// Churns glyphs in place. The budget goes by area and time, so that the
    /// cost does not depend on the frame rate.
    pub fn churn(&mut self, budget: usize)
        requires
            old(self).wf(),
        ensures
            final(self).wf(),
            ({
                let s = old(self).field();
                let n = churn_count(old(self).settings().mutate, budget, s.cells.len());
                let (cells, rng) = churned(s.cells, s.rng, s.glyphs, n);
                final(self).field() == (Field { cells, rng, ..s })
            }),
            rerolled(
                old(self).field().cells,
                final(self).field().cells,
                old(self).field().glyphs,
            ),
            final(self).settings() == old(self).settings(),
            final(self).dials() == old(self).dials(),
    {
        let ghost before = self.field();
        let n: usize = if bits::at_most(self.cfg.mutate, ZERO) || self.cells.len() == 0 {
            0
        } else if budget < self.cells.len() {
            budget
        } else {
            self.cells.len()
        };
        let mut i: usize = 0;
        while i < n
            invariant
                i <= n,
                n <= self.cells@.len(),
                before == old(self).field(),
                self.cells@.len() == before.cells.len(),
                before.wf(),
                rerolled(before.cells, self.cells@, before.glyphs),
                (self.cells@, rng_state(self.rng)) == churned(
                    before.cells,
                    before.rng,
                    before.glyphs,
                    i as nat,
                ),
                self.w == old(self).w,
                self.h == old(self).h,
                self.cols == old(self).cols,
                self.cfg == old(self).cfg,
                self.elapsed == old(self).elapsed,
                self.speed_mul == old(self).speed_mul,
            decreases n - i,
        {
            let k: usize = index_below(&mut self.rng, self.cells.len());
            let mut c: Cell = self.cells[k];
            if bits::less(EPS, c.glow) && !c.head {
                c.ch = pick(&mut self.rng, &self.cfg.glyphs);
                self.cells.set(k, c);
            }
            i = i + 1;
        }
    }

    /// The glyph and colour to draw at `(x, y)`, or `None` if the cell is dark
    /// or out of bounds. The colour is what `shade` makes of the cell's glow,
    /// of whether it is a head, and of its column's hue.
    #[must_use]
    pub fn color_of<F: Fn(u32, bool, u32) -> Rgb>(&self, x: u16, y: u16, shade: F) -> (c: Option<
        (char, Rgb),
    >)
        requires
            self.wf(),
            forall|g: u32, h: bool, u: u32| #[trigger] shade.requires((g, h, u)),
        ensures
            match c {
                Some((ch, rgb)) => {
                    let s = self.field();
                    let cell = s.cells[y * s.w + x];
                    &&& x < s.w
                    &&& y < s.h
                    &&& visible(cell)
                    &&& ch == cell.ch
                    &&& shade.ensures((cell.glow, cell.head, s.cols[x as int].hue), rgb)
                },
                None => x >= self.field().w || y >= self.field().h || !visible(
                    self.field().cells[y * self.field().w + x],
                ),
            },
            x >= self.field().w || y >= self.field().h ==> c is None,
            x < self.field().w && y < self.field().h ==> pictured(
                self.field(),
                shade,
                x as int,
                y as int,
                match c {
                    Some((ch, rgb)) => Some(
                        Sample {
                            ch,
                            rgb,
                            head: self.field().cells[y * self.field().w + x].head,
                        },
                    ),
                    None => None,
                },
            ),
    {
        let c: Cell = match self.cell(x, y) {
            Some(c) => *c,
            None => return None,
        };
        if bits::at_most(c.glow, ZERO) {
            return None;
        }
        let hue: u32 = self.cols[x as usize].hue;
        assert(self.field().cols[x as int] == self.cols@[x as int]@);
        Some((c.ch, shade(c.glow, c.head, hue)))
    }

    /// The whole picture, for the renderer.
    #[must_use]
    pub fn frame<F: Fn(u32, bool, u32) -> Rgb>(&self, shade: F) -> (f: Frame)
        requires
            self.wf(),
            forall|g: u32, h: bool, u: u32| #[trigger] shade.requires((g, h, u)),
        ensures
            f.wf(),
            f.w == self.field().w,
            f.h == self.field().h,
            forall|x: int, y: int|
                0 <= x < f.w && 0 <= y < f.h ==> pictured(
                    self.field(),
                    shade,
                    x,
                    y,
                    #[trigger] f.at(x, y),
                ),
    {
        let mut cells: Vec<Option<Sample>> = Vec::new();
        let mut y: u16 = 0;
        let ghost s = self.field();
        proof {
            lemma_grid_size(s.w as int, s.h as int);
        }
        while y < self.h
            invariant
                y <= self.h,
                s == self.field(),
                s.w == self.w,
                s.h == self.h,
                self.wf(),
                forall|g: u32, h: bool, u: u32| #[trigger] shade.requires((g, h, u)),
                cells@.len() == y * s.w,
                forall|j: int, i: int|
                    0 <= i < s.w && 0 <= j < y ==> pictured(
                        s,
                        shade,
                        i,
                        j,
                        #[trigger] cells@[j * s.w + i],
                    ),
            decreases self.h - y,
        {
            let mut x: u16 = 0;
            let ghost row = cells@;
            while x < self.w
                invariant
                    x <= self.w,
                    y < self.h,
                    s == self.field(),
                    s.w == self.w,
                    s.h == self.h,
                    self.wf(),
                    forall|g: u32, h: bool, u: u32| #[trigger] shade.requires((g, h, u)),
                    row.len() == y * s.w,
                    cells@.len() == row.len() + x,
                    forall|k: int| 0 <= k < row.len() ==> cells@[k] == row[k],
                    forall|i: int|
                        0 <= i < x ==> pictured(s, shade, i, y as int, #[trigger] cells@[y * s.w + i]),
                decreases self.w - x,
            {
                let sample: Option<Sample> = match self.cell(x, y) {
                    Some(c) => {
                        if !bits::at_most(c.glow, ZERO) {
                            let hue: u32 = self.cols[x as usize].hue;
                            assert(self.field().cols[x as int] == self.cols@[x as int]@);
                            Some(Sample { ch: c.ch, rgb: shade(c.glow, c.head, hue), head: c.head })
                        } else {
                            None
                        }
                    },
                    None => None,
                };
                cells.push(sample);
                x = x + 1;
            }
            y = y + 1;
            proof {
                assert(y * s.w == (y - 1) * s.w + s.w) by (nonlinear_arith);
                assert forall|j: int, i: int| 0 <= i < s.w && 0 <= j < y implies pictured(
                    s,
                    shade,
                    i,
                    j,
                    #[trigger] cells@[j * s.w + i],
                ) by {
                    if j < y - 1 {
                        assert(0 <= j * s.w + i < (y - 1) * s.w) by (nonlinear_arith)
                            requires
                                0 <= i < s.w,
                                0 <= j < y - 1,
                        ;
                        assert(pictured(s, shade, i, j, row[j * s.w + i]));
                    }
                }
            }
        }
        assert(s.h * s.w == s.w * s.h) by (nonlinear_arith);
        Frame { w: self.w, h: self.h, cells }
    }
}

/// What a picture holds of one cell: nothing where it is dark, else its glyph,
/// whether it is a head, and a colour `shade` gives it.
pub open spec fn pictured<F: Fn(u32, bool, u32) -> Rgb>(
    s: Field,
    shade: F,
    x: int,
    y: int,
    sample: Option<Sample>,
) -> bool {
    let c = s.cells[y * s.w + x];
    match sample {
        None => !visible(c),
        Some(p) => visible(c) && p.ch == c.ch && p.head == c.head && shade.ensures(
            (c.glow, c.head, s.cols[x].hue),
            p.rgb,
        ),
    }
}

/// What one exchange about a drop makes of column `x`.
pub open spec fn spawned(s: Field, x: int, drawn: Drawn) -> Field {
    match drawn {
        Drawn::Cooled { cooldown, .. } => cooled(s, x, cooldown),
        Drawn::Roll(_) => s,
        Drawn::Rest(cooldown) => cooled(s, x, cooldown),
        Drawn::Launch(l) => if barren(s.density) {
            s
        } else {
            launched(s, x, l)
        },
    }
}

/// A density at which nothing ever starts.
pub open spec fn barren(density: u32) -> bool {
    bits::le(density, ZERO)
}

/// What has to be drawn for column `x` next.
pub open spec fn needed(s: Field, x: int, drawn: Drawn) -> Need {
    match drawn {
        Drawn::Cooled { cooldown, bar } => if turn(s.cols[x], cooldown, bar) {
            Need::Roll
        } else {
            Need::Nothing
        },
        Drawn::Roll(roll) => if barren(s.density) || lt(s.density, roll) {
            Need::Rest
        } else {
            Need::Launch
        },
        Drawn::Rest(_) => Need::Nothing,
        Drawn::Launch(_) => Need::Nothing,
    }
}

/// A column with another cooldown.
pub open spec fn cooled(s: Field, x: int, cooldown: u32) -> Field {
    Field { cols: s.cols.update(x, Lane { cooldown, ..s.cols[x] }), ..s }
}

/// A column with one more drop in it.
pub open spec fn launched(s: Field, x: int, l: Launch) -> Field {
    Field {
        cols: s.cols.update(
            x,
            Lane {
                drops: s.cols[x].drops.push(
                    Drop {
                        row: l.row,
                        speed: l.speed,
                        tail: l.tail,
                        at: l.at,
                        head_idx: None,
                    },
                ),
                cooldown: l.cooldown,
                gap: l.gap,
                ..s.cols[x]
            },
        ),
        ..s
    }
}

} // verus!
