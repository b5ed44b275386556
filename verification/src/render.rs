//! Damage-tracking renderer with a bounded, prioritised per-frame budget.

use crate::ansi::{
    encode, encode_all, queue_char, queue_foreground, queue_move_right, queue_move_to, Op,
};
use crate::bits;
use crate::grid::{filled, lemma_cell_on_screen, lemma_grid_index, lemma_grid_size};
use crate::theme::{Color, Depth, Rgb};
use vstd::prelude::*;

pub use crate::budget::Governor;

verus! {

/// How far the pen colour may drift from the ideal before it is set again,
/// summed over red, green and blue.
pub const DEFAULT_COLOR_TOLERANCE: u16 = 12;

/// Score added per frame a cell has spent waiting.
pub const AGE_GAIN: u16 = 40;

/// Hard staleness deadline, in frames. A cell deferred this many consecutive
/// frames is drawn whether or not the budget allows it.
pub const MAX_DEFER: u8 = 8;

/// Drop heads sit above the entire ageing range: `256 + MAX_DEFER * AGE_GAIN`.
pub const HEAD_SCORE: u16 = 576;

/// `20.0`, the bytes charged per cell before any frame has been measured.
pub const INITIAL_CELL_COST: u32 = 0x41a0_0000;

/// `4.0`, the least a cell is charged.
pub const MIN_CELL_COST: u32 = 0x4080_0000;

/// `96.0`, the most a cell is charged.
pub const MAX_CELL_COST: u32 = 0x42c0_0000;

/// One bucket per score, from zero to [`HEAD_SCORE`].
pub const SCORE_BUCKETS: usize = 577;

/// What a frame wants shown in one lit cell.
#[derive(Clone, Copy, Debug, PartialEq, Eq)]
pub struct Sample {
    pub ch: char,
    pub rgb: Rgb,
    /// Whether this is the leading edge of a drop.
    pub head: bool,
}

/// One picture of the rain, row by row. A cell that is dark holds `None`.
#[derive(Debug)]
pub struct Frame {
    pub w: u16,
    pub h: u16,
    pub cells: Vec<Option<Sample>>,
}

impl Frame {
    /// There is a cell for every position of the grid.
    pub open spec fn wf(&self) -> bool {
        self.cells@.len() == self.w * self.h
    }

    /// What the frame holds at a position; dark beyond its edges.
    pub open spec fn at(&self, x: int, y: int) -> Option<Sample> {
        if 0 <= x < self.w && 0 <= y < self.h {
            self.cells@[y * self.w + x]
        } else {
            None
        }
    }

    /// `None` where the cell is dark and where `(x, y)` lies outside the frame,
    /// so that a renderer of another size reads blanks.
    pub fn sample(&self, x: u16, y: u16) -> (s: Option<Sample>)
        requires
            self.wf(),
        ensures
            s == self.at(x as int, y as int),
    {
        if x >= self.w || y >= self.h {
            return None;
        }
        proof {
            lemma_grid_index(self.w as int, self.h as int, x as int, y as int);
        }
        let idx: usize = y as usize * self.w as usize + x as usize;
        self.cells[idx]
    }
}

/// A glyph and its colour.
#[derive(Clone, Copy, Debug, PartialEq, Eq, Structural)]
pub struct Glyph {
    pub ch: char,
    pub color: Color,
}

/// What is known of one cell of the terminal.
#[derive(Clone, Copy, Debug, PartialEq, Eq)]
pub enum Belief {
    /// Anything may be there: no picture is known to be up already.
    Unknown,
    /// It shows this; `None` is a blank.
    Shows(Option<Glyph>),
}

/// What one frame cost.
#[derive(Clone, Copy, Debug, PartialEq, Eq, Structural)]
pub struct DrawStats {
    /// Cells whose content differs from what the terminal is believed to show.
    pub cells_damaged: usize,
    /// Of those, the ones actually emitted this frame.
    pub cells_drawn: usize,
    /// Emitted past the budget because they hit the staleness deadline.
    pub cells_forced: usize,
    pub bytes: usize,
}

impl DrawStats {
    /// Damaged cells held back for a later frame.
    #[must_use]
    pub fn cells_deferred(&self) -> (n: usize)
        requires
            self.cells_drawn <= self.cells_damaged,
        ensures
            n == self.cells_damaged - self.cells_drawn,
            self.cells_drawn + n == self.cells_damaged,
    {
        self.cells_damaged - self.cells_drawn
    }
}

impl Default for DrawStats {
    fn default() -> (s: DrawStats)
        ensures
            s == (DrawStats { cells_damaged: 0, cells_drawn: 0, cells_forced: 0, bytes: 0 }),
    {
        DrawStats { cells_damaged: 0, cells_drawn: 0, cells_forced: 0, bytes: 0 }
    }
}

/// One damaged cell, resolved once and then emitted (or not) in a second pass.
#[derive(Clone, Copy, Debug, PartialEq, Eq)]
pub struct Damage {
    /// Position in row-major order.
    pub idx: u32,
    pub want: Option<Glyph>,
    pub luma: u8,
    pub score: u16,
    /// Past its staleness deadline: drawn regardless of budget.
    pub forced: bool,
}

/// Which damaged cells a frame may emit.
#[derive(Clone, Copy, Debug, PartialEq, Eq, Structural)]
pub struct Plan {
    /// Cells scoring above this are admitted outright.
    pub threshold: u16,
    /// How many cells at the threshold may be admitted, in scan order.
    pub partial: usize,
    /// Hard stop: once cells that are not forced have taken this many bytes, only
    /// forced ones continue.
    pub cap: Option<usize>,
}

/// The plan under which everything fits.
pub open spec fn unbounded_plan() -> Plan {
    Plan { threshold: 0, partial: usize::MAX, cap: None }
}

impl Plan {
    /// Everything fits.
    pub fn unbounded() -> (p: Plan)
        ensures
            p == unbounded_plan(),
    {
        Plan { threshold: 0, partial: usize::MAX, cap: None }
    }
}

/// What the byte budget buys this frame, priced at the rolling cost of a cell.
#[derive(Clone, Copy, Debug, PartialEq, Eq, Structural)]
pub struct Estimate {
    /// All of the damage is expected to fit the budget.
    pub fits: bool,
    /// Otherwise, how many cells that are not forced are affordable.
    pub allow: usize,
}

/// How many cells that are not forced an estimate lets through: always one at
/// least, whatever the deadlines cost.
pub open spec fn allowance(est: Estimate) -> usize {
    if est.allow == 0 {
        1
    } else {
        est.allow
    }
}

/// Green-weighted brightness.
pub open spec fn luma_of(rgb: Rgb) -> u8 {
    ((rgb.0 * 2 + rgb.1 * 5 + rgb.2) / 8) as u8
}

/// Green-weighted luma, 0..=255. The rain is overwhelmingly green, so this is
/// close enough to perceived brightness to order cells by.
pub fn luma(rgb: Rgb) -> (l: u8)
    ensures
        l == luma_of(rgb),
        l == (rgb.0 * 2 + rgb.1 * 5 + rgb.2) / 8,
{
    ((rgb.0 as u16 * 2 + rgb.1 as u16 * 5 + rgb.2 as u16) / 8) as u8
}

/// Distance between two bytes.
pub open spec fn apart(a: u8, b: u8) -> int {
    if a >= b {
        a - b
    } else {
        b - a
    }
}

/// How much a viewer would miss a cell if it were skipped: the brightness step
/// asked for plus a quarter of the brighter side, at most 255. A head outranks
/// every other cell.
pub open spec fn salience_of(want: u8, prev: u8, head: bool) -> int {
    if head {
        HEAD_SCORE as int
    } else {
        let raw = apart(want, prev) + (if want >= prev { want } else { prev }) as int / 4;
        if raw <= 255 {
            raw
        } else {
            255
        }
    }
}

fn abs_diff(a: u8, b: u8) -> (d: u8)
    ensures
        d == apart(a, b),
{
    if a >= b {
        a - b
    } else {
        b - a
    }
}

/// How much a viewer would miss this cell if it were skipped.
pub fn salience(want: u8, prev: u8, head: bool) -> (s: u16)
    ensures
        s == salience_of(want, prev, head),
{
    if head {
        return HEAD_SCORE;
    }
    let delta: u16 = abs_diff(want, prev) as u16;
    let top: u8 = if want >= prev { want } else { prev };
    let bias: u16 = top as u16 / 4;
    if delta + bias <= 255 {
        delta + bias
    } else {
        255
    }
}

/// Whether two colours count as the same pen. Colours of the palette are
/// already coarse, so they are the same only where they are equal.
pub open spec fn close_enough(a: Color, b: Color, tol: u16) -> bool {
    match (a, b) {
        (Color::Rgb { r: r1, g: g1, b: b1 }, Color::Rgb { r: r2, g: g2, b: b2 }) => apart(r1, r2)
            + apart(g1, g2) + apart(b1, b2) <= tol,
        _ => a == b,
    }
}

/// Manhattan distance in RGB, for the pen-reuse test.
pub fn within(a: Color, b: Color, tol: u16) -> (ok: bool)
    ensures
        ok == close_enough(a, b, tol),
{
    match (a, b) {
        (Color::Rgb { r: r1, g: g1, b: b1 }, Color::Rgb { r: r2, g: g2, b: b2 }) => {
            abs_diff(r1, r2) as u16 + abs_diff(g1, g2) as u16 + abs_diff(b1, b2) as u16 <= tol
        },
        _ => a == b,
    }
}

/// What the renderer knows of the screen, cell by cell in row-major order.
#[verifier::ext_equal]
pub struct Canvas {
    /// What the terminal is believed to show.
    pub prev: Seq<Belief>,
    /// The brightness of what is believed to be shown.
    pub luma: Seq<u8>,
    /// Consecutive frames each cell has been damaged but not drawn.
    pub debt: Seq<u8>,
    /// The pen colour the terminal is left with, where known.
    pub pen: Option<Color>,
    /// Where the cursor is left, where known.
    pub at: Option<(u16, u16)>,
}

/// A canvas on which every cell is blank and nothing else is known.
pub open spec fn blank_canvas(w: u16, h: u16) -> Canvas {
    Canvas {
        prev: Seq::new((w * h) as nat, |i: int| Belief::Shows(None)),
        luma: Seq::new((w * h) as nat, |i: int| 0u8),
        debt: Seq::new((w * h) as nat, |i: int| 0u8),
        pen: None,
        at: None,
    }
}

/// A canvas of which nothing at all is known.
pub open spec fn stale_canvas(w: u16, h: u16) -> Canvas {
    Canvas { prev: Seq::new((w * h) as nat, |i: int| Belief::Unknown), ..blank_canvas(w, h) }
}

impl Canvas {
    /// A canvas of `w` by `h` cells, no cell of it past its deadline, whose
    /// cursor is on it.
    pub open spec fn wf(self, w: u16, h: u16) -> bool {
        &&& self.prev.len() == w * h
        &&& self.luma.len() == w * h
        &&& self.debt.len() == w * h
        &&& forall|i: int| 0 <= i < self.debt.len() ==> #[trigger] self.debt[i] <= MAX_DEFER
        &&& match self.at {
            Some((x, y)) => x < w && y < h,
            None => true,
        }
    }
}

/// What a frame asks of one cell.
pub struct Wanted {
    pub glyph: Option<Glyph>,
    pub luma: u8,
    pub head: bool,
}

/// What a sample asks for at a colour depth.
pub open spec fn wanted(sample: Option<Sample>, depth: Depth) -> Wanted {
    match sample {
        Some(s) => Wanted {
            glyph: Some(Glyph { ch: s.ch, color: crate::theme::color_at(depth, s.rgb) }),
            luma: luma_of(s.rgb),
            head: s.head,
        },
        None => Wanted { glyph: None, luma: 0, head: false },
    }
}

/// What a frame asks of every cell of a screen.
pub open spec fn scan(frame: Frame, depth: Depth, w: u16, h: u16) -> Seq<Wanted> {
    Seq::new(
        (w * h) as nat,
        |i: int| wanted(frame.at(i % (w as int), i / (w as int)), depth),
    )
}

/// The belief that the picture is up.
pub open spec fn image(wants: Seq<Wanted>) -> Seq<Belief> {
    wants.map_values(|q: Wanted| Belief::Shows(q.glyph))
}

/// The priority of a damaged cell: its salience, and its age unless it is a head.
pub open spec fn score_of(want: Wanted, prev_luma: u8, debt: u8) -> int {
    if want.head {
        HEAD_SCORE as int
    } else {
        salience_of(want.luma, prev_luma, false) + debt * AGE_GAIN
    }
}

/// Cell `i` as damage.
pub open spec fn damage_at(c: Canvas, wants: Seq<Wanted>, i: int) -> Damage {
    Damage {
        idx: i as u32,
        want: wants[i].glyph,
        luma: wants[i].luma,
        score: score_of(wants[i], c.luma[i], c.debt[i]) as u16,
        forced: c.debt[i] >= MAX_DEFER,
    }
}

/// The damaged ones among the first `n` cells, in scan order.
pub open spec fn damages(c: Canvas, wants: Seq<Wanted>, n: nat) -> Seq<Damage>
    decreases n,
{
    if n == 0 {
        Seq::empty()
    } else {
        let rest = damages(c, wants, (n - 1) as nat);
        if c.prev[n - 1] == Belief::Shows(wants[n - 1].glyph) {
            rest
        } else {
            rest.push(damage_at(c, wants, n - 1))
        }
    }
}

/// The canvas once the first `n` cells that are not damaged owe nothing.
pub open spec fn settled(c: Canvas, wants: Seq<Wanted>, n: nat) -> Canvas {
    Canvas {
        debt: Seq::new(
            c.debt.len(),
            |i: int|
                if i < n && c.prev[i] == Belief::Shows(wants[i].glyph) {
                    0u8
                } else {
                    c.debt[i]
                },
        ),
        ..c
    }
}

/// How many cells are forced.
pub open spec fn forced_in(ds: Seq<Damage>) -> nat
    decreases ds.len(),
{
    if ds.len() == 0 {
        0
    } else {
        forced_in(ds.drop_last()) + (if ds.last().forced {
            1nat
        } else {
            0nat
        })
    }
}

/// How many cells that are not forced score exactly `b`.
pub open spec fn scoring(ds: Seq<Damage>, b: int) -> nat
    decreases ds.len(),
{
    if ds.len() == 0 {
        0
    } else {
        scoring(ds.drop_last(), b) + (if !ds.last().forced && ds.last().score == b {
            1nat
        } else {
            0nat
        })
    }
}

/// How many cells that are not forced score `b` or more.
pub open spec fn at_or_above(ds: Seq<Damage>, b: int) -> nat
    decreases ds.len(),
{
    if ds.len() == 0 {
        0
    } else {
        at_or_above(ds.drop_last(), b) + (if !ds.last().forced && ds.last().score >= b {
            1nat
        } else {
            0nat
        })
    }
}

/// The highest score, not above `top`, at which the cells counted from the top
/// down are more than `allow`.
pub open spec fn cutoff(ds: Seq<Damage>, allow: nat, top: int) -> int
    decreases top,
{
    if top <= 0 || at_or_above(ds, top) > allow {
        top
    } else {
        cutoff(ds, allow, top - 1)
    }
}

/// The plan for a frame's damage under a budget: everything where all of it is
/// expected to fit or where no more cells are discretionary than the allowance;
/// else the highest scores, as many as the allowance. Either way the budget is
/// the hard stop.
pub open spec fn plan_for(ds: Seq<Damage>, budget: usize, est: Estimate) -> Plan {
    let allow = allowance(est);
    if est.fits || at_or_above(ds, 0) <= allow {
        Plan { cap: Some(budget), ..unbounded_plan() }
    } else {
        let b = cutoff(ds, allow as nat, HEAD_SCORE as int);
        Plan {
            threshold: b as u16,
            partial: (allow - at_or_above(ds, b + 1)) as usize,
            cap: Some(budget),
        }
    }
}

/// How the cursor gets to `(x, y)` from where it was left.
pub open spec fn move_ops(at: Option<(u16, u16)>, x: u16, y: u16) -> Seq<Op> {
    match at {
        Some((cx, cy)) => if cx == x && cy == y {
            Seq::empty()
        } else if cx == x + 1 && cy + 1 == y {
            seq![Op::DownLeft]
        } else if cy == y && x > cx {
            seq![Op::MoveRight((x - cx) as u16)]
        } else {
            seq![Op::MoveTo { x, y }]
        },
        None => seq![Op::MoveTo { x, y }],
    }
}

/// Whether the pen has to be set before a cell is printed.
pub open spec fn pen_needed(pen: Option<Color>, want: Option<Glyph>, tol: u16) -> bool {
    match (want, pen) {
        (Some(g), Some(p)) => !close_enough(p, g.color, tol),
        (Some(_), None) => true,
        (None, _) => false,
    }
}

/// The instruction that sets the pen, if one is needed.
pub open spec fn pen_ops(pen: Option<Color>, want: Option<Glyph>, tol: u16, muted: bool) -> Seq<
    Op,
> {
    if pen_needed(pen, want, tol) {
        seq![Op::Pen { color: want->0.color, muted }]
    } else {
        Seq::empty()
    }
}

/// The glyph that stands for a cell; a dark one is painted over with a space.
pub open spec fn printed(want: Option<Glyph>) -> char {
    match want {
        Some(g) => g.ch,
        None => ' ',
    }
}

/// The instructions that draw one damaged cell with the cursor and the pen as
/// they were left.
pub open spec fn strokes(
    at: Option<(u16, u16)>,
    pen: Option<Color>,
    d: Damage,
    w: u16,
    tol: u16,
    muted: bool,
) -> Seq<Op> {
    move_ops(at, (d.idx % (w as u32)) as u16, (d.idx / (w as u32)) as u16) + pen_ops(
        pen,
        d.want,
        tol,
        muted,
    ) + seq![Op::Put(printed(d.want))]
}

/// The instructions that draw one damaged cell.
pub open spec fn cell_ops(c: Canvas, d: Damage, w: u16, tol: u16, muted: bool) -> Seq<Op> {
    strokes(c.at, c.pen, d, w, tol, muted)
}

/// The pen once a cell was drawn.
pub open spec fn pen_after(pen: Option<Color>, want: Option<Glyph>, tol: u16) -> Option<Color> {
    if pen_needed(pen, want, tol) {
        Some(want->0.color)
    } else {
        pen
    }
}

/// The cursor once a cell was drawn. It stalls in the last column, where it is
/// not tracked.
pub open spec fn at_after(idx: u32, w: u16) -> Option<(u16, u16)> {
    let x = (idx % (w as u32)) as u16;
    let y = (idx / (w as u32)) as u16;
    if x + 1 < w {
        Some(((x + 1) as u16, y))
    } else {
        None
    }
}

/// The canvas after one damaged cell was drawn.
pub open spec fn cell_drawn(c: Canvas, d: Damage, w: u16, tol: u16) -> Canvas {
    Canvas {
        prev: c.prev.update(d.idx as int, Belief::Shows(d.want)),
        luma: c.luma.update(d.idx as int, d.luma),
        debt: c.debt.update(d.idx as int, 0),
        pen: pen_after(c.pen, d.want, tol),
        at: at_after(d.idx, w),
    }
}

/// A frame in the middle of being emitted.
#[verifier::ext_equal]
pub struct Paint {
    pub canvas: Canvas,
    pub ops: Seq<Op>,
    /// What is left of the plan's allowance at its threshold.
    pub partial: nat,
    pub drawn: nat,
    pub forced: nat,
    /// Bytes that cells which are not forced have taken.
    pub spent: nat,
}

/// Whether the hard stop has not been reached.
pub open spec fn under_cap(spent: nat, cap: Option<usize>) -> bool {
    match cap {
        Some(most) => spent < most,
        None => true,
    }
}

/// Whether the plan picks a cell.
pub open spec fn selects(plan: Plan, partial: nat, d: Damage) -> bool {
    d.score > plan.threshold || d.score == plan.threshold && partial > 0
}

/// Whether a cell is emitted: it is forced, or picked before the hard stop.
pub open spec fn admits(p: Paint, plan: Plan, d: Damage) -> bool {
    d.forced || selects(plan, p.partial, d) && under_cap(p.spent, plan.cap)
}

/// One damaged cell emitted, or its debt raised. A forced cell takes nothing of
/// what the others may have.
pub open spec fn paint_cell(p: Paint, plan: Plan, d: Damage, w: u16, tol: u16, muted: bool) -> Paint {
    let partial = if !d.forced && d.score == plan.threshold && p.partial > 0 {
        (p.partial - 1) as nat
    } else {
        p.partial
    };
    if admits(p, plan, d) {
        Paint {
            canvas: cell_drawn(p.canvas, d, w, tol),
            ops: p.ops + cell_ops(p.canvas, d, w, tol, muted),
            partial,
            drawn: p.drawn + 1,
            forced: p.forced + (if d.forced {
                1nat
            } else {
                0nat
            }),
            spent: p.spent + (if d.forced {
                0nat
            } else {
                encode_all(cell_ops(p.canvas, d, w, tol, muted)).len()
            }),
        }
    } else {
        Paint {
            canvas: Canvas {
                debt: p.canvas.debt.update(
                    d.idx as int,
                    if p.canvas.debt[d.idx as int] < u8::MAX {
                        (p.canvas.debt[d.idx as int] + 1) as u8
                    } else {
                        u8::MAX
                    },
                ),
                ..p.canvas
            },
            partial,
            ..p
        }
    }
}

/// Where a frame starts.
pub open spec fn paint_start(c: Canvas, plan: Plan) -> Paint {
    Paint {
        canvas: c,
        ops: Seq::empty(),
        partial: plan.partial as nat,
        drawn: 0,
        forced: 0,
        spent: 0,
    }
}

/// The first `n` damaged cells, emitted in scan order. `muted[i]` tells whether
/// colour output was off when the pen was set for the `i`th.
pub open spec fn painted(
    c: Canvas,
    plan: Plan,
    ds: Seq<Damage>,
    w: u16,
    tol: u16,
    muted: Seq<bool>,
    n: nat,
) -> Paint
    decreases n,
{
    if n == 0 {
        paint_start(c, plan)
    } else {
        paint_cell(
            painted(c, plan, ds, w, tol, muted, (n - 1) as nat),
            plan,
            ds[n - 1],
            w,
            tol,
            muted[n - 1],
        )
    }
}

/// For which cells colour output was off when their pen was set.
pub struct Muted {
    /// In the frame drawn in full.
    pub whole: Seq<bool>,
    /// In the frame that the budget cuts short.
    pub cut: Seq<bool>,
}

impl Muted {
    /// Colour output was on throughout.
    pub open spec fn never(self) -> bool {
        &&& forall|k: int| 0 <= k < self.whole.len() ==> !#[trigger] self.whole[k]
        &&& forall|k: int| 0 <= k < self.cut.len() ==> !#[trigger] self.cut[k]
    }

    /// There is an answer for each of `n` cells.
    pub open spec fn covers(self, n: nat) -> bool {
        self.whole.len() == n && self.cut.len() == n
    }
}

/// A frame that draws all of its damage, whatever that costs.
pub open spec fn whole_frame(c: Canvas, wants: Seq<Wanted>, w: u16, tol: u16, whole: Seq<bool>) -> Paint {
    let ds = damages(c, wants, wants.len());
    painted(settled(c, wants, wants.len()), unbounded_plan(), ds, w, tol, whole, ds.len())
}

/// Whether a frame costs more than there is to spend.
pub open spec fn too_dear(
    c: Canvas,
    wants: Seq<Wanted>,
    budget: Option<usize>,
    w: u16,
    tol: u16,
    whole: Seq<bool>,
) -> bool {
    match budget {
        Some(most) => encode_all(whole_frame(c, wants, w, tol, whole).ops).len() > most,
        None => false,
    }
}

/// The plan of a frame: all of it, unless it is too dear.
pub open spec fn frame_plan(
    c: Canvas,
    wants: Seq<Wanted>,
    budget: Option<usize>,
    est: Estimate,
    w: u16,
    tol: u16,
    muted: Muted,
) -> Plan {
    if too_dear(c, wants, budget, w, tol, muted.whole) {
        plan_for(damages(c, wants, wants.len()), budget->0, est)
    } else {
        unbounded_plan()
    }
}

/// Which of the two the frame is.
pub open spec fn frame_muted(
    c: Canvas,
    wants: Seq<Wanted>,
    budget: Option<usize>,
    w: u16,
    tol: u16,
    muted: Muted,
) -> Seq<bool> {
    if too_dear(c, wants, budget, w, tol, muted.whole) {
        muted.cut
    } else {
        muted.whole
    }
}

/// A frame up to its first `n` damaged cells: what is damaged is found, a plan
/// is made for it, and what the plan admits is emitted.
pub open spec fn frame_upto(
    c: Canvas,
    wants: Seq<Wanted>,
    budget: Option<usize>,
    est: Estimate,
    w: u16,
    tol: u16,
    muted: Muted,
    n: nat,
) -> Paint {
    painted(
        settled(c, wants, wants.len()),
        frame_plan(c, wants, budget, est, w, tol, muted),
        damages(c, wants, wants.len()),
        w,
        tol,
        frame_muted(c, wants, budget, w, tol, muted),
        n,
    )
}

/// A whole frame.
pub open spec fn frame_painted(
    c: Canvas,
    wants: Seq<Wanted>,
    budget: Option<usize>,
    est: Estimate,
    w: u16,
    tol: u16,
    muted: Muted,
) -> Paint {
    frame_upto(c, wants, budget, est, w, tol, muted, damages(c, wants, wants.len()).len())
}

/// What a frame costs, and what it leaves behind.
pub open spec fn frame_emitted(
    c: Canvas,
    wants: Seq<Wanted>,
    budget: Option<usize>,
    est: Estimate,
    w: u16,
    tol: u16,
    muted: Muted,
    after: Canvas,
    out: Seq<u8>,
    out_after: Seq<u8>,
    stats: DrawStats,
) -> bool {
    let ds = damages(c, wants, wants.len());
    let p = frame_painted(c, wants, budget, est, w, tol, muted);
    &&& muted.covers(ds.len())
    &&& after == p.canvas
    &&& out_after == out + encode_all(p.ops)
    &&& stats.cells_damaged == ds.len()
    &&& stats.cells_drawn == p.drawn
    &&& stats.cells_forced == p.forced
    &&& stats.bytes == encode_all(p.ops).len()
    &&& stats.cells_drawn <= stats.cells_damaged
}

/// What the price of a frame is asked for: how many cells are damaged, and how
/// many of them are forced.
pub open spec fn frame_question(c: Canvas, wants: Seq<Wanted>) -> (usize, usize) {
    let ds = damages(c, wants, wants.len());
    (ds.len() as usize, forced_in(ds) as usize)
}

/// One frame drawn: there is an estimate, given by `estimate` where there is a
/// budget to ask about, and an answer per cell whether colour output was off,
/// for which the frame is exactly this.
pub open spec fn drew<F: Fn(usize, usize) -> Estimate>(
    before: Renderer,
    after: Renderer,
    frame: Frame,
    depth: Depth,
    estimate: F,
    out: Seq<u8>,
    out_after: Seq<u8>,
    stats: DrawStats,
) -> bool {
    let wants = scan(frame, depth, before.width(), before.height());
    exists|est: Estimate, muted: Muted|
        (before.byte_budget() is Some ==> call_ensures(
            estimate,
            frame_question(before.canvas(), wants),
            est,
        )) && #[trigger] frame_emitted(
            before.canvas(),
            wants,
            before.byte_budget(),
            est,
            before.width(),
            before.color_tolerance(),
            muted,
            after.canvas(),
            out,
            out_after,
            stats,
        )
}

/// The damage found in `n` cells is no more than `n`, lies in scan order inside
/// them, and each of its scores has a bucket.
pub proof fn lemma_damages(c: Canvas, wants: Seq<Wanted>, n: nat)
    requires
        n <= wants.len(),
        n <= u32::MAX,
        n <= c.prev.len(),
        c.prev.len() == c.luma.len() == c.debt.len(),
        forall|i: int| 0 <= i < c.debt.len() ==> #[trigger] c.debt[i] <= MAX_DEFER,
    ensures
        damages(c, wants, n).len() <= n,
        forall|k: int|
            #![trigger damages(c, wants, n)[k]]
            0 <= k < damages(c, wants, n).len() ==> {
                let d = damages(c, wants, n)[k];
                &&& d.idx < n
                &&& d == damage_at(c, wants, d.idx as int)
                &&& c.prev[d.idx as int] != Belief::Shows(wants[d.idx as int].glyph)
                &&& d.score <= HEAD_SCORE
                &&& !d.forced ==> c.debt[d.idx as int] < MAX_DEFER
            },
        forall|j: int, k: int|
            #![trigger damages(c, wants, n)[j], damages(c, wants, n)[k]]
            0 <= j < k < damages(c, wants, n).len() ==> damages(c, wants, n)[j].idx < damages(
                c,
                wants,
                n,
            )[k].idx,
    decreases n,
{
    if n > 0 {
        lemma_damages(c, wants, (n - 1) as nat);
        let i = n - 1;
        assert(c.debt[i] <= MAX_DEFER);
        assert(0 <= score_of(wants[i], c.luma[i], c.debt[i]) <= HEAD_SCORE);
    }
}

/// No damaged cell is missed.
pub proof fn lemma_damage_found(c: Canvas, wants: Seq<Wanted>, n: nat, i: int) -> (k: int)
    requires
        n <= u32::MAX,
        0 <= i < n,
        c.prev[i] != Belief::Shows(wants[i].glyph),
    ensures
        0 <= k < damages(c, wants, n).len(),
        damages(c, wants, n)[k] == damage_at(c, wants, i),
        damages(c, wants, n)[k].idx == i,
    decreases n,
{
    if i < n - 1 {
        lemma_damage_found(c, wants, (n - 1) as nat, i)
    } else {
        damages(c, wants, n).len() - 1
    }
}

/// Buckets add up.
pub proof fn lemma_at_or_above_step(ds: Seq<Damage>, b: int)
    ensures
        at_or_above(ds, b) == at_or_above(ds, b + 1) + scoring(ds, b),
        at_or_above(ds, b) <= ds.len(),
    decreases ds.len(),
{
    if ds.len() > 0 {
        lemma_at_or_above_step(ds.drop_last(), b);
    }
}

/// Nothing scores more than the top bucket.
pub proof fn lemma_nothing_above(ds: Seq<Damage>)
    requires
        forall|k: int| 0 <= k < ds.len() ==> (#[trigger] ds[k]).score <= HEAD_SCORE,
    ensures
        at_or_above(ds, HEAD_SCORE + 1) == 0,
    decreases ds.len(),
{
    if ds.len() > 0 {
        assert(ds.last() == ds[ds.len() - 1]);
        assert forall|k: int| 0 <= k < ds.drop_last().len() implies (
        #[trigger] ds.drop_last()[k]).score <= HEAD_SCORE by {
            assert(ds.drop_last()[k] == ds[k]);
        }
        lemma_nothing_above(ds.drop_last());
    }
}

/// Whether a cell is known to show what is wanted of it.
fn is_up(seen: Belief, want: Option<Glyph>) -> (up: bool)
    ensures
        up == (seen == Belief::Shows(want)),
{
    match (seen, want) {
        (Belief::Shows(Some(p)), Some(q)) => p.ch == q.ch && p.color == q.color,
        (Belief::Shows(None), None) => true,
        _ => false,
    }
}

/// Draws frames as the smallest run of instructions that brings the terminal up
/// to date, and remembers what the terminal was left showing.
pub struct Renderer {
    prev: Vec<Belief>,
    prev_luma: Vec<u8>,
    debt: Vec<u8>,
    /// This frame's damage, in scan order.
    damage: Vec<Damage>,
    /// Score histogram of what is not forced.
    hist: Vec<u32>,
    /// Bytes a frame may spend on cells that are not past their deadline.
    budget: Option<usize>,
    w: u16,
    h: u16,
    cur_color: Option<Color>,
    tolerance: u16,
    /// Rolling estimate of bytes per emitted cell.
    cell_cost: u32,
    /// Where the terminal cursor sits after the last write, if known.
    at: Option<(u16, u16)>,
}

impl Renderer {
    /// What the renderer knows of the screen.
    pub closed spec fn canvas(&self) -> Canvas {
        Canvas {
            prev: self.prev@,
            luma: self.prev_luma@,
            debt: self.debt@,
            pen: self.cur_color,
            at: self.at,
        }
    }

    pub closed spec fn width(&self) -> u16 {
        self.w
    }

    pub closed spec fn height(&self) -> u16 {
        self.h
    }

    pub closed spec fn color_tolerance(&self) -> u16 {
        self.tolerance
    }

    pub closed spec fn byte_budget(&self) -> Option<usize> {
        self.budget
    }

    /// What a cell is taken to cost.
    pub closed spec fn price(&self) -> u32 {
        self.cell_cost
    }

    /// The bookkeeping covers the screen, no cell is past its deadline, and the
    /// price of a cell is within reason.
    pub open spec fn wf(&self) -> bool {
        &&& self.canvas().wf(self.width(), self.height())
        &&& bits::le(MIN_CELL_COST, self.price())
        &&& bits::le(self.price(), MAX_CELL_COST)
        &&& self.has_buckets()
    }

    /// There is a bucket per score.
    pub closed spec fn has_buckets(&self) -> bool {
        self.hist@.len() == SCORE_BUCKETS
    }

    /// The damage of the last scan.
    spec fn pending(&self) -> Seq<Damage> {
        self.damage@
    }

    /// The histogram counts the damage of the last scan by its scores.
    spec fn hist_ok(&self) -> bool {
        &&& self.hist@.len() == SCORE_BUCKETS
        &&& forall|b: int|
            0 <= b < SCORE_BUCKETS ==> #[trigger] self.hist@[b] == scoring(self.damage@, b)
    }

    /// A renderer for a screen that shows nothing yet.
    #[must_use]
    pub fn new(w: u16, h: u16) -> (r: Renderer)
        ensures
            r.wf(),
            r.width() == w,
            r.height() == h,
            r.canvas() == blank_canvas(w, h),
            r.color_tolerance() == DEFAULT_COLOR_TOLERANCE,
            r.color_tolerance() == 12,
            r.byte_budget() is None,
            r.price() == INITIAL_CELL_COST,
    {
        proof {
            lemma_grid_size(w as int, h as int);
        }
        let cells: usize = w as usize * h as usize;
        let r = Renderer {
            prev: filled(cells, Belief::Shows(None)),
            prev_luma: filled(cells, 0u8),
            debt: filled(cells, 0u8),
            damage: Vec::new(),
            hist: filled(SCORE_BUCKETS, 0u32),
            budget: None,
            w,
            h,
            cur_color: None,
            tolerance: DEFAULT_COLOR_TOLERANCE,
            cell_cost: INITIAL_CELL_COST,
            at: None,
        };
        assert(r.canvas() =~= blank_canvas(w, h));
        r
    }

    /// How far the pen may drift before it is set again; 0 sets it for any
    /// colour change at all.
    pub fn set_color_tolerance(&mut self, tolerance: u16)
        requires
            old(self).wf(),
        ensures
            final(self).wf(),
            final(self).color_tolerance() == tolerance,
            final(self).canvas() == old(self).canvas(),
            final(self).width() == old(self).width(),
            final(self).height() == old(self).height(),
            final(self).byte_budget() == old(self).byte_budget(),
            final(self).price() == old(self).price(),
    {
        self.tolerance = tolerance;
    }

    /// Cap the bytes one frame may spend on cells that are not yet past their
    /// staleness deadline. `None` lifts the cap; one that a frame stays within
    /// leaves it as it is, byte for byte.
    pub fn set_budget(&mut self, budget: Option<usize>)
        requires
            old(self).wf(),
        ensures
            final(self).wf(),
            final(self).byte_budget() == budget,
            final(self).price() == old(self).price(),
            final(self).canvas() == old(self).canvas(),
            final(self).width() == old(self).width(),
            final(self).height() == old(self).height(),
            final(self).color_tolerance() == old(self).color_tolerance(),
    {
        self.budget = budget;
    }

    /// Bytes currently charged per emitted cell, learnt from the frames before.
    #[must_use]
    pub fn cell_cost(&self) -> (c: u32)
        ensures
            c == self.price(),
    {
        self.cell_cost
    }

    /// Takes in what cells were found to cost, kept within reason. What is not a
    /// number teaches nothing.
    pub fn learn_cost(&mut self, blended: u32)
        requires
            old(self).wf(),
        ensures
            final(self).wf(),
            final(self).price() == (if bits::nan(blended) {
                old(self).price()
            } else {
                bits::within(blended, MIN_CELL_COST, MAX_CELL_COST)
            }),
            bits::le(MIN_CELL_COST, blended) && bits::le(blended, MAX_CELL_COST)
                ==> final(self).price() == blended,
            bits::lt(blended, MIN_CELL_COST) ==> final(self).price() == MIN_CELL_COST,
            bits::lt(MAX_CELL_COST, blended) ==> final(self).price() == MAX_CELL_COST,
            final(self).canvas() == old(self).canvas(),
            final(self).width() == old(self).width(),
            final(self).height() == old(self).height(),
            final(self).color_tolerance() == old(self).color_tolerance(),
            final(self).byte_budget() == old(self).byte_budget(),
    {
        if !bits::is_nan(blended) {
            self.cell_cost = bits::clamp(blended, MIN_CELL_COST, MAX_CELL_COST);
        }
    }

    /// What the terminal is believed to show, row by row.
    #[must_use]
    pub fn believed(&self) -> (v: &Vec<Belief>)
        ensures
            v@ == self.canvas().prev,
    {
        &self.prev
    }

    /// Longest any cell has been damaged but undrawn, in frames: never more
    /// than [`MAX_DEFER`].
    #[must_use]
    pub fn max_debt(&self) -> (m: u8)
        requires
            self.wf(),
        ensures
            m <= MAX_DEFER,
            forall|i: int|
                0 <= i < self.canvas().debt.len() ==> #[trigger] self.canvas().debt[i] <= m,
            m == 0 || self.canvas().debt.contains(m),
    {
        let mut m: u8 = 0;
        let mut i: usize = 0;
        while i < self.debt.len()
            invariant
                self.wf(),
                i <= self.debt@.len(),
                forall|k: int| 0 <= k < i ==> #[trigger] self.debt@[k] <= m,
                m == 0 || self.debt@.contains(m),
                m <= MAX_DEFER,
            decreases self.debt@.len() - i,
        {
            assert(self.canvas().debt[i as int] <= MAX_DEFER);
            if self.debt[i] > m {
                m = self.debt[i];
            }
            i = i + 1;
        }
        m
    }

    /// Call after anything else writes to the screen (an overlay, say): the
    /// cached pen and cursor are no longer what the terminal has.
    pub fn forget_cursor_and_color(&mut self)
        requires
            old(self).wf(),
        ensures
            final(self).wf(),
            final(self).canvas() == (Canvas { pen: None, at: None, ..old(self).canvas() }),
            final(self).width() == old(self).width(),
            final(self).height() == old(self).height(),
            final(self).color_tolerance() == old(self).color_tolerance(),
            final(self).byte_budget() == old(self).byte_budget(),
            final(self).price() == old(self).price(),
    {
        self.cur_color = None;
        self.at = None;
    }

    /// Also the way to force a full repaint: what was believed of the screen is
    /// dropped, so every cell counts as damaged, dark ones too.
    pub fn resize(&mut self, w: u16, h: u16)
        requires
            old(self).wf(),
        ensures
            final(self).wf(),
            final(self).width() == w,
            final(self).height() == h,
            final(self).canvas() == stale_canvas(w, h),
            final(self).color_tolerance() == old(self).color_tolerance(),
            final(self).byte_budget() == old(self).byte_budget(),
            final(self).price() == old(self).price(),
    {
        proof {
            lemma_grid_size(w as int, h as int);
        }
        let cells: usize = w as usize * h as usize;
        self.w = w;
        self.h = h;
        self.prev = filled(cells, Belief::Unknown);
        self.prev_luma = filled(cells, 0u8);
        self.debt = filled(cells, 0u8);
        self.cur_color = None;
        self.at = None;
        assert(self.canvas() =~= stale_canvas(w, h));
    }

    /// Append to `out` what brings the terminal up to `frame`, as far as the
    /// budget goes. A frame that costs no more than the budget is drawn in full.
    ///
    /// `estimate` is asked, where there is a budget, what it buys: it is given
    /// the number of damaged cells and how many of them are forced.
    pub fn draw<F: Fn(usize, usize) -> Estimate>(
        &mut self,
        out: &mut Vec<u8>,
        frame: &Frame,
        depth: Depth,
        estimate: F,
    ) -> (stats: DrawStats)
        requires
            old(self).wf(),
            frame.wf(),
            forall|damaged: usize, forced: usize| call_requires(estimate, (damaged, forced)),
        ensures
            final(self).wf(),
            final(self).width() == old(self).width(),
            final(self).height() == old(self).height(),
            final(self).color_tolerance() == old(self).color_tolerance(),
            final(self).byte_budget() == old(self).byte_budget(),
            final(self).price() == old(self).price(),
            drew(
                *old(self),
                *final(self),
                *frame,
                depth,
                estimate,
                old(out)@,
                final(out)@,
                stats,
            ),
            stats.cells_forced <= stats.cells_drawn <= stats.cells_damaged,
            final(out)@.len() == old(out)@.len() + stats.bytes,
            old(out)@.is_prefix_of(final(out)@),
            stats.cells_damaged == frame_question(
                old(self).canvas(),
                scan(*frame, depth, old(self).width(), old(self).height()),
            ).0,
            old(self).byte_budget() is None ==> stats.cells_drawn == stats.cells_damaged,
            old(self).byte_budget() matches Some(most) ==> most > 0 && stats.cells_forced
                < stats.cells_damaged ==> stats.cells_drawn > stats.cells_forced,
            stats.cells_forced == frame_question(
                old(self).canvas(),
                scan(*frame, depth, old(self).width(), old(self).height()),
            ).1,
    {
        let ghost c = self.canvas();
        let ghost wants = scan(*frame, depth, self.w, self.h);
        let ghost ds = damages(c, wants, wants.len());
        self.collect(frame, depth);
        proof {
            lemma_grid_size(self.w as int, self.h as int);
            lemma_damages(c, wants, wants.len());
            lemma_forced_at_most(ds);
        }
        assert(self.pending() == ds);
        let ghost mid = self.canvas();
        assert forall|k: int| #![trigger self.pending()[k]] 0 <= k < self.pending().len() implies {
            let d = self.pending()[k];
            &&& d.idx < self.canvas().prev.len()
            &&& !d.forced ==> self.canvas().debt[d.idx as int] < MAX_DEFER
        } by {
            let d = ds[k];
            assert(self.canvas().debt[d.idx as int] == c.debt[d.idx as int]);
        }
        let Some(budget) = self.budget else {
            let (stats, Ghost(whole)) = self.emit(out, Plan::unbounded());
            proof {
                let muted = Muted { whole, cut: whole };
                let est = Estimate { fits: true, allow: 0 };
                lemma_drawn_at_most(mid, unbounded_plan(), ds, self.w, self.tolerance, whole, ds.len());
                lemma_unbounded_draws_all(mid, ds, self.w, self.tolerance, whole, ds.len());
                lemma_forced_all_drawn(mid, unbounded_plan(), ds, self.w, self.tolerance, whole, ds.len());
                assert(ds.take(ds.len() as int) =~= ds);
                assert(frame_emitted(
                    old(self).canvas(),
                    scan(*frame, depth, old(self).width(), old(self).height()),
                    old(self).byte_budget(),
                    est,
                    old(self).width(),
                    old(self).color_tolerance(),
                    muted,
                    self.canvas(),
                    old(out)@,
                    out@,
                    stats,
                ));
            }
            return stats;
        };
        let forced: usize = self.count_forced();
        assert(frame_question(c, wants) == (self.pending().len() as usize, forced));
        let est: Estimate = estimate(self.damage.len(), forced);
        let (rehearsal, Ghost(whole)) = self.rehearse(budget);
        proof {
            lemma_drawn_at_most(mid, unbounded_plan(), ds, self.w, self.tolerance, whole, ds.len());
            lemma_unbounded_draws_all(mid, ds, self.w, self.tolerance, whole, ds.len());
            lemma_forced_all_drawn(mid, unbounded_plan(), ds, self.w, self.tolerance, whole, ds.len());
            assert(ds.take(ds.len() as int) =~= ds);
        }
        match rehearsal {
            Some(r) => {
                let stats = DrawStats {
                    cells_damaged: self.damage.len(),
                    cells_drawn: self.damage.len(),
                    cells_forced: forced,
                    bytes: r.bytes.len(),
                };
                let Rehearsal { bytes, pen, at } = r;
                let mut bytes = bytes;
                out.append(&mut bytes);
                self.commit(pen, at, Ghost(whole));
                proof {
                    let muted = Muted { whole, cut: whole };
                    assert(frame_emitted(
                        old(self).canvas(),
                        scan(*frame, depth, old(self).width(), old(self).height()),
                        old(self).byte_budget(),
                        est,
                        old(self).width(),
                        old(self).color_tolerance(),
                        muted,
                        self.canvas(),
                        old(out)@,
                        out@,
                        stats,
                    ));
                }
                stats
            },
            None => {
                let plan: Plan = self.plan(budget, est);
                let (stats, Ghost(cut)) = self.emit(out, plan);
                proof {
                    let muted = Muted { whole, cut };
                    lemma_drawn_at_most(mid, plan, ds, self.w, self.tolerance, cut, ds.len());
                    lemma_forced_all_drawn(mid, plan, ds, self.w, self.tolerance, cut, ds.len());
                    if budget > 0 && forced_in(ds) < ds.len() {
                        lemma_one_discretionary(mid, budget, est, ds, self.w, self.tolerance, cut);
                    }
                    assert(frame_emitted(
                        old(self).canvas(),
                        scan(*frame, depth, old(self).width(), old(self).height()),
                        old(self).byte_budget(),
                        est,
                        old(self).width(),
                        old(self).color_tolerance(),
                        muted,
                        self.canvas(),
                        old(out)@,
                        out@,
                        stats,
                    ));
                }
                stats
            },
        }
    }

    /// How many of the damaged cells are forced.
    fn count_forced(&self) -> (n: usize)
        ensures
            n == forced_in(self.pending()),
    {
        let mut n: usize = 0;
        let mut i: usize = 0;
        while i < self.damage.len()
            invariant
                i <= self.damage@.len(),
                n <= i,
                n == forced_in(self.damage@.take(i as int)),
            decreases self.damage@.len() - i,
        {
            assert(self.damage@.take(i + 1).drop_last() =~= self.damage@.take(i as int));
            if self.damage[i].forced {
                n = n + 1;
            }
            i = i + 1;
        }
        assert(self.damage@.take(i as int) =~= self.damage@);
        n
    }

    /// Pass one: find every damaged cell and score it. Deliberately writes
    /// nothing to what is believed of the screen: at this point it is not yet
    /// known which cells are really emitted.
    fn collect(&mut self, frame: &Frame, depth: Depth)
        requires
            old(self).wf(),
            frame.wf(),
        ensures
            final(self).wf(),
            final(self).hist_ok(),
            final(self).w == old(self).w,
            final(self).h == old(self).h,
            final(self).budget == old(self).budget,
            final(self).tolerance == old(self).tolerance,
            final(self).cell_cost == old(self).cell_cost,
            final(self).canvas() == settled(
                old(self).canvas(),
                scan(*frame, depth, old(self).w, old(self).h),
                scan(*frame, depth, old(self).w, old(self).h).len(),
            ),
            final(self).pending() == damages(
                old(self).canvas(),
                scan(*frame, depth, old(self).w, old(self).h),
                scan(*frame, depth, old(self).w, old(self).h).len(),
            ),
    {
        let ghost c = self.canvas();
        let ghost wants = scan(*frame, depth, self.w, self.h);
        self.damage.clear();
        let mut b: usize = 0;
        while b < SCORE_BUCKETS
            invariant
                b <= SCORE_BUCKETS,
                self.hist@.len() == SCORE_BUCKETS,
                self.damage@ == Seq::<Damage>::empty(),
                self.w == old(self).w,
                self.h == old(self).h,
                self.budget == old(self).budget,
                self.tolerance == old(self).tolerance,
                self.cell_cost == old(self).cell_cost,
                self.canvas() == c,
                forall|k: int| 0 <= k < b ==> #[trigger] self.hist@[k] == 0,
            decreases SCORE_BUCKETS - b,
        {
            self.hist.set(b, 0);
            b = b + 1;
        }
        let total: usize = self.prev.len();
        let mut idx: usize = 0;
        let mut x: u16 = 0;
        let mut y: u16 = 0;
        proof {
            assert(settled(c, wants, 0) =~= c);
            assert(self.w * self.h <= u16::MAX * u16::MAX) by (nonlinear_arith)
                requires
                    0 <= self.w <= u16::MAX,
                    0 <= self.h <= u16::MAX,
            ;
            assert(self.w * self.h > 0 ==> self.w > 0 && self.h > 0) by (nonlinear_arith)
                requires
                    0 <= self.w,
                    0 <= self.h,
            ;
        }
        while idx < total
            invariant
                frame.wf(),
                idx <= total,
                total == c.prev.len(),
                total <= u32::MAX,
                total == self.w * self.h,
                wants == scan(*frame, depth, self.w, self.h),
                wants.len() == total,
                idx < total ==> 0 <= x < self.w && 0 <= y < self.h,
                idx == y * self.w + x,
                c.wf(self.w, self.h),
                self.w == old(self).w,
                self.h == old(self).h,
                self.budget == old(self).budget,
                self.tolerance == old(self).tolerance,
                self.cell_cost == old(self).cell_cost,
                self.canvas() == settled(c, wants, idx as nat),
                self.damage@ == damages(c, wants, idx as nat),
                self.damage@.len() <= idx,
                self.hist_ok(),
            decreases total - idx,
        {
            proof {
                lemma_grid_index(self.w as int, self.h as int, x as int, y as int);
                lemma_damages(c, wants, idx as nat);
                lemma_damages(c, wants, (idx + 1) as nat);
            }
            let sample: Option<Sample> = frame.sample(x, y);
            let (want, want_luma, head): (Option<Glyph>, u8, bool) = match sample {
                Some(s) => (
                    Some(Glyph { ch: s.ch, color: depth.to_color(s.rgb) }),
                    luma(s.rgb),
                    s.head,
                ),
                None => (None, 0, false),
            };
            assert(wants[idx as int] == (Wanted { glyph: want, luma: want_luma, head }));
            assert(self.canvas().debt[idx as int] == c.debt[idx as int]);
            if is_up(self.prev[idx], want) {
                // Nothing owed here. A cell that drifted back to what is already
                // on screen must not come back later carrying a deadline.
                self.debt.set(idx, 0);
            } else {
                let debt: u8 = self.debt[idx];
                let forced: bool = debt >= MAX_DEFER;
                let score: u16 = if head {
                    HEAD_SCORE
                } else {
                    salience(want_luma, self.prev_luma[idx], false) + debt as u16 * AGE_GAIN
                };
                let ghost before = self.damage@;
                let d: Damage = Damage { idx: idx as u32, want, luma: want_luma, score, forced };
                if !forced {
                    proof {
                        lemma_at_or_above_step(before, score as int);
                    }
                    let n: u32 = self.hist[score as usize];
                    self.hist.set(score as usize, n + 1);
                }
                self.damage.push(d);
                proof {
                    assert(d == damage_at(c, wants, idx as int));
                    assert(self.damage@.drop_last() =~= before);
                    assert(self.damage@.last() == d);
                }
            }
            assert(self.canvas() =~= settled(c, wants, (idx + 1) as nat));
            idx = idx + 1;
            if x + 1 < self.w {
                x = x + 1;
            } else {
                proof {
                    let w = self.w as int;
                    let h = self.h as int;
                    assert(y * w + w == (y + 1) * w) by (nonlinear_arith);
                    assert(y + 1 < h || (y + 1) * w >= h * w) by (nonlinear_arith)
                        requires
                            0 <= y,
                            w > 0,
                    ;
                }
                x = 0;
                y = y + 1;
            }
        }
    }

    /// Pass two: decide how far down the priority order this frame can afford
    /// to go. A counting sort over the score histogram.
    fn plan(&self, budget: usize, est: Estimate) -> (plan: Plan)
        requires
            self.hist_ok(),
            forall|k: int|
                0 <= k < self.pending().len() ==> (#[trigger] self.pending()[k]).score
                    <= HEAD_SCORE,
        ensures
            plan == plan_for(self.pending(), budget, est),
    {
        let ghost ds = self.pending();
        let all = Plan { threshold: 0, partial: usize::MAX, cap: Some(budget) };
        if est.fits {
            return all;
        }
        // Room is always left for at least one discretionary cell, whatever the
        // deadline traffic.
        let allow: usize = if est.allow == 0 {
            1
        } else {
            est.allow
        };
        let mut acc: usize = 0;
        let mut b: usize = SCORE_BUCKETS;
        proof {
            lemma_nothing_above(ds);
        }
        while b > 0
            invariant
                b <= SCORE_BUCKETS,
                ds == self.damage@,
                self.hist_ok(),
                !est.fits,
                allow == allowance(est),
                acc == at_or_above(ds, b as int),
                acc <= allow,
                at_or_above(ds, 0) > allow ==> cutoff(ds, allow as nat, HEAD_SCORE as int)
                    == cutoff(ds, allow as nat, b - 1),
            decreases b,
        {
            b = b - 1;
            proof {
                lemma_at_or_above_step(ds, b as int);
            }
            let n: usize = self.hist[b] as usize;
            if n > allow - acc {
                proof {
                    lemma_at_or_above_antitone(ds, 0, b as int);
                }
                return Plan { threshold: b as u16, partial: allow - acc, cap: Some(budget) };
            }
            acc = acc + n;
        }
        all
    }

    /// Draw one damaged cell.
    fn emit_cell(&mut self, out: &mut Vec<u8>, d: Damage) -> (mute: Ghost<bool>)
        requires
            old(self).canvas().wf(old(self).w, old(self).h),
            d.idx < old(self).canvas().prev.len(),
        ensures
            final(self).w == old(self).w,
            final(self).h == old(self).h,
            final(self).budget == old(self).budget,
            final(self).tolerance == old(self).tolerance,
            final(self).cell_cost == old(self).cell_cost,
            final(self).hist == old(self).hist,
            final(self).damage == old(self).damage,
            final(self).canvas() == cell_drawn(
                old(self).canvas(),
                d,
                old(self).w,
                old(self).tolerance,
            ),
            final(self).canvas().wf(old(self).w, old(self).h),
            final(out)@ == old(out)@ + encode_all(
                cell_ops(old(self).canvas(), d, old(self).w, old(self).tolerance, mute@),
            ),
    {
        let ghost here = self.canvas();
        let i: usize = d.idx as usize;
        let (w, h, tolerance): (u16, u16, u16) = (self.w, self.h, self.tolerance);
        proof {
            lemma_cell_on_screen(w as int, h as int, d.idx as int);
        }
        let mute = put_cell(out, &mut self.at, &mut self.cur_color, d, w, h, tolerance);
        // Only now is the cell really on screen, so only now may the damage
        // tracker believe it.
        self.prev.set(i, Belief::Shows(d.want));
        self.prev_luma.set(i, d.luma);
        self.debt.set(i, 0);
        assert(self.canvas() =~= cell_drawn(here, d, self.w, self.tolerance));
        mute
    }

    /// The frame drawn in full, on the side. `None` where it comes to more than
    /// `limit` bytes.
    fn rehearse(&self, limit: usize) -> (r: (Option<Rehearsal>, Ghost<Seq<bool>>))
        requires
            self.wf(),
            self.pending().len() <= u16::MAX * u16::MAX,
            forall|k: int|
                #![trigger self.pending()[k]]
                0 <= k < self.pending().len() ==> self.pending()[k].idx < self.canvas().prev.len(),
        ensures
            r.1@.len() == self.pending().len(),
            ({
                let p = painted(
                    self.canvas(),
                    unbounded_plan(),
                    self.pending(),
                    self.w,
                    self.tolerance,
                    r.1@,
                    self.pending().len(),
                );
                match r.0 {
                    Some(x) => {
                        &&& encode_all(p.ops).len() <= limit
                        &&& x.bytes@ == encode_all(p.ops)
                        &&& x.pen == p.canvas.pen
                        &&& x.at == p.canvas.at
                    },
                    None => encode_all(p.ops).len() > limit,
                }
            }),
    {
        let ghost c = self.canvas();
        let ghost ds = self.pending();
        let ghost mut muted: Seq<bool> = Seq::empty();
        let mut bytes: Vec<u8> = Vec::new();
        let mut pen: Option<Color> = self.cur_color;
        let mut at: Option<(u16, u16)> = self.at;
        let mut i: usize = 0;
        assert(encode_all(Seq::<Op>::empty()) =~= Seq::<u8>::empty());
        while i < self.damage.len()
            invariant
                i <= self.damage@.len(),
                self.damage@ == ds,
                self.wf(),
                c == self.canvas(),
                ds.len() <= u16::MAX * u16::MAX,
                muted.len() == i,
                forall|k: int|
                    #![trigger ds[k]]
                    0 <= k < ds.len() ==> ds[k].idx < c.prev.len(),
                match at {
                    Some((x, y)) => x < self.w && y < self.h,
                    None => true,
                },
                ({
                    let p = painted(
                        c,
                        unbounded_plan(),
                        ds,
                        self.w,
                        self.tolerance,
                        muted,
                        i as nat,
                    );
                    &&& bytes@ == encode_all(p.ops)
                    &&& pen == p.canvas.pen
                    &&& at == p.canvas.at
                }),
            decreases ds.len() - i,
        {
            let ghost p = painted(c, unbounded_plan(), ds, self.w, self.tolerance, muted, i as nat);
            let d: Damage = self.damage[i];
            assert(d == ds[i as int]);
            proof {
                lemma_cell_on_screen(self.w as int, self.h as int, d.idx as int);
            }
            let Ghost(m) = put_cell(
                &mut bytes,
                &mut at,
                &mut pen,
                d,
                self.w,
                self.h,
                self.tolerance,
            );
            proof {
                lemma_unbounded_draws_all(c, ds, self.w, self.tolerance, muted, i as nat);
                lemma_encode_concat(p.ops, cell_ops(p.canvas, d, self.w, self.tolerance, m));
                let longer = muted.push(m);
                lemma_painted_prefix(
                    c,
                    unbounded_plan(),
                    ds,
                    self.w,
                    self.tolerance,
                    muted,
                    longer,
                    i as nat,
                );
                muted = longer;
            }
            i = i + 1;
            if bytes.len() > limit {
                proof {
                    let full = Seq::new(
                        ds.len(),
                        |k: int|
                            if k < i {
                                muted[k]
                            } else {
                                false
                            },
                    );
                    lemma_painted_prefix(
                        c,
                        unbounded_plan(),
                        ds,
                        self.w,
                        self.tolerance,
                        muted,
                        full,
                        i as nat,
                    );
                    lemma_bytes_grow(
                        c,
                        unbounded_plan(),
                        ds,
                        self.w,
                        self.tolerance,
                        full,
                        i as nat,
                        ds.len(),
                    );
                    muted = full;
                }
                return (None, Ghost(muted));
            }
        }
        if bytes.len() > limit {
            return (None, Ghost(muted));
        }
        (Some(Rehearsal { bytes, pen, at }), Ghost(muted))
    }

    /// Believes all of the damage to be drawn, as it was on the side.
    fn commit(&mut self, pen: Option<Color>, at: Option<(u16, u16)>, whole: Ghost<Seq<bool>>)
        requires
            old(self).wf(),
            old(self).pending().len() <= u16::MAX * u16::MAX,
            forall|k: int|
                #![trigger old(self).pending()[k]]
                0 <= k < old(self).pending().len() ==> old(self).pending()[k].idx < old(
                    self,
                ).canvas().prev.len(),
            ({
                let p = painted(
                    old(self).canvas(),
                    unbounded_plan(),
                    old(self).pending(),
                    old(self).w,
                    old(self).tolerance,
                    whole@,
                    old(self).pending().len(),
                );
                pen == p.canvas.pen && at == p.canvas.at
            }),
        ensures
            final(self).wf(),
            final(self).w == old(self).w,
            final(self).h == old(self).h,
            final(self).budget == old(self).budget,
            final(self).tolerance == old(self).tolerance,
            final(self).cell_cost == old(self).cell_cost,
            final(self).canvas() == painted(
                old(self).canvas(),
                unbounded_plan(),
                old(self).pending(),
                old(self).w,
                old(self).tolerance,
                whole@,
                old(self).pending().len(),
            ).canvas,
    {
        let ghost c = self.canvas();
        let ghost ds = self.pending();
        let mut i: usize = 0;
        while i < self.damage.len()
            invariant
                i <= self.damage@.len(),
                self.damage@ == ds,
                ds.len() <= u16::MAX * u16::MAX,
                c.wf(self.w, self.h),
                forall|k: int|
                    #![trigger ds[k]]
                    0 <= k < ds.len() ==> ds[k].idx < c.prev.len(),
                self.w == old(self).w,
                self.h == old(self).h,
                self.budget == old(self).budget,
                self.tolerance == old(self).tolerance,
                self.cell_cost == old(self).cell_cost,
                self.hist@.len() == SCORE_BUCKETS,
                ({
                    let p = painted(
                        c,
                        unbounded_plan(),
                        ds,
                        self.w,
                        self.tolerance,
                        whole@,
                        i as nat,
                    );
                    &&& self.prev@ == p.canvas.prev
                    &&& self.prev_luma@ == p.canvas.luma
                    &&& self.debt@ == p.canvas.debt
                    &&& p.canvas.wf(self.w, self.h)
                }),
            decreases ds.len() - i,
        {
            let d: Damage = self.damage[i];
            assert(d == ds[i as int]);
            proof {
                lemma_unbounded_draws_all(c, ds, self.w, self.tolerance, whole@, i as nat);
                lemma_cell_on_screen(self.w as int, self.h as int, d.idx as int);
            }
            let k: usize = d.idx as usize;
            self.prev.set(k, Belief::Shows(d.want));
            self.prev_luma.set(k, d.luma);
            self.debt.set(k, 0);
            i = i + 1;
        }
        self.cur_color = pen;
        self.at = at;
    }

    /// Pass three: emit the admitted cells, still in scan order so the cursor
    /// coalescing keeps working, and advance what is believed of the screen for
    /// those cells only.
    fn emit(&mut self, out: &mut Vec<u8>, plan: Plan) -> (r: (DrawStats, Ghost<Seq<bool>>))
        requires
            old(self).wf(),
            forall|k: int|
                #![trigger old(self).pending()[k]]
                0 <= k < old(self).pending().len() ==> {
                    let d = old(self).pending()[k];
                    &&& d.idx < old(self).canvas().prev.len()
                    &&& !d.forced ==> old(self).canvas().debt[d.idx as int] < MAX_DEFER
                },
            forall|j: int, k: int|
                #![trigger old(self).pending()[j], old(self).pending()[k]]
                0 <= j < k < old(self).pending().len() ==> old(self).pending()[j].idx < old(
                    self,
                ).pending()[k].idx,
        ensures
            final(self).wf(),
            final(self).w == old(self).w,
            final(self).h == old(self).h,
            final(self).budget == old(self).budget,
            final(self).tolerance == old(self).tolerance,
            final(self).cell_cost == old(self).cell_cost,
            r.1@.len() == old(self).pending().len(),
            ({
                let p = painted(
                    old(self).canvas(),
                    plan,
                    old(self).pending(),
                    old(self).w,
                    old(self).tolerance,
                    r.1@,
                    old(self).pending().len(),
                );
                &&& final(self).canvas() == p.canvas
                &&& final(out)@ == old(out)@ + encode_all(p.ops)
                &&& r.0.cells_damaged == old(self).pending().len()
                &&& r.0.cells_drawn == p.drawn
                &&& r.0.cells_forced == p.forced
                &&& r.0.bytes == encode_all(p.ops).len()
            }),
    {
        let ghost c = self.canvas();
        let ghost ds = self.pending();
        let ghost mut muted: Seq<bool> = Seq::empty();
        let start: usize = out.len();
        let mut partial: usize = plan.partial;
        let mut drawn: usize = 0;
        let mut forced: usize = 0;
        let mut spent: usize = 0;
        let mut i: usize = 0;
        proof {
            assert(encode_all(Seq::<Op>::empty()) =~= Seq::<u8>::empty());
            assert(out@ =~= old(out)@ + Seq::<u8>::empty());
        }
        while i < self.damage.len()
            invariant
                i <= self.damage@.len(),
                self.damage@ == ds,
                muted.len() == i,
                self.w == old(self).w,
                self.h == old(self).h,
                self.budget == old(self).budget,
                self.tolerance == old(self).tolerance,
                self.cell_cost == old(self).cell_cost,
                self.hist@.len() == SCORE_BUCKETS,
                start == old(out)@.len(),
                c.wf(self.w, self.h),
                self.canvas().wf(self.w, self.h),
                forall|k: int|
                    #![trigger ds[k]]
                    0 <= k < ds.len() ==> {
                        &&& ds[k].idx < c.prev.len()
                        &&& !ds[k].forced ==> c.debt[ds[k].idx as int] < MAX_DEFER
                    },
                forall|j: int, k: int|
                    #![trigger ds[j], ds[k]]
                    0 <= j < k < ds.len() ==> ds[j].idx < ds[k].idx,
                forall|k: int|
                    #![trigger ds[k]]
                    i <= k < ds.len() ==> self.canvas().debt[ds[k].idx as int]
                        == c.debt[ds[k].idx as int],
                ({
                    let p = painted(c, plan, ds, self.w, self.tolerance, muted, i as nat);
                    &&& self.canvas() == p.canvas
                    &&& out@ == old(out)@ + encode_all(p.ops)
                    &&& partial == p.partial
                    &&& drawn == p.drawn
                    &&& forced == p.forced
                    &&& forced <= drawn <= i
                    &&& spent == p.spent
                    &&& spent <= encode_all(p.ops).len()
                }),
            decreases ds.len() - i,
        {
            let ghost p = painted(c, plan, ds, self.w, self.tolerance, muted, i as nat);
            let ghost here = self.canvas();
            let d: Damage = self.damage[i];
            assert(d == ds[i as int]);
            let selected: bool = if d.score > plan.threshold {
                true
            } else if d.score == plan.threshold && partial > 0 {
                if !d.forced {
                    partial = partial - 1;
                }
                true
            } else {
                false
            };
            // The plan sized the frame from an estimate of what a cell costs;
            // this test is the hard stop that makes the byte bound true.
            let open: bool = match plan.cap {
                Some(most) => spent < most,
                None => true,
            };
            let go: bool = d.forced || selected && open;
            let at: usize = d.idx as usize;
            let ghost mut mute: bool = false;
            if !go {
                let debt: u8 = self.debt[at];
                self.debt.set(at, debt.saturating_add(1));
                proof {
                    assert(self.canvas() =~= paint_cell(
                        p,
                        plan,
                        d,
                        self.w,
                        self.tolerance,
                        false,
                    ).canvas);
                }
            } else {
                if d.forced {
                    forced = forced + 1;
                }
                drawn = drawn + 1;
                let before: usize = out.len();
                let Ghost(m) = self.emit_cell(out, d);
                proof {
                    lemma_encode_concat(p.ops, cell_ops(here, d, self.w, self.tolerance, m));
                }
                if !d.forced {
                    spent = spent + (out.len() - before);
                }
                proof {
                    mute = m;
                    assert(out@ =~= old(out)@ + encode_all(
                        p.ops + cell_ops(here, d, self.w, self.tolerance, m),
                    ));
                }
            }
            proof {
                let longer = muted.push(mute);
                lemma_painted_prefix(c, plan, ds, self.w, self.tolerance, muted, longer, i as nat);
                muted = longer;
            }
            i = i + 1;
        }
        let stats = DrawStats {
            cells_damaged: self.damage.len(),
            cells_drawn: drawn,
            cells_forced: forced,
            bytes: out.len() - start,
        };
        (stats, Ghost(muted))
    }
}

/// A frame drawn on the side: its bytes, and how it leaves the pen and the
/// cursor.
struct Rehearsal {
    bytes: Vec<u8>,
    pen: Option<Color>,
    at: Option<(u16, u16)>,
}

/// The bytes of one damaged cell: move the cursor, set the pen where it is too
/// far off, print.
#[verifier::rlimit(60)]
#[verifier::spinoff_prover]
fn put_cell(
    out: &mut Vec<u8>,
    at: &mut Option<(u16, u16)>,
    pen: &mut Option<Color>,
    d: Damage,
    w: u16,
    h: u16,
    tol: u16,
) -> (mute: Ghost<bool>)
    requires
        d.idx < w * h,
        match *old(at) {
            Some((x, y)) => x < w && y < h,
            None => true,
        },
    ensures
        final(out)@ == old(out)@ + encode_all(strokes(*old(at), *old(pen), d, w, tol, mute@)),
        *final(at) == at_after(d.idx, w),
        *final(pen) == pen_after(*old(pen), d.want, tol),
        match *final(at) {
            Some((x, y)) => x < w && y < h,
            None => true,
        },
{
    let ghost mut ops: Seq<Op> = Seq::empty();
    let ghost mut mute: bool = false;
    assert(out@ =~= old(out)@ + encode_all(ops));
    proof {
        lemma_cell_on_screen(w as int, h as int, d.idx as int);
    }
    let x: u16 = (d.idx % w as u32) as u16;
    let y: u16 = (d.idx / w as u32) as u16;
    match *at {
        Some((cx, cy)) => {
            if cx == x && cy == y {
            } else if cx == x + 1 && cy + 1 == y {
                // One cell to the right on the row above: backspace and line
                // feed against an absolute move.
                out.push(0x08);
                out.push(0x0a);
                proof {
                    lemma_encode_push(ops, Op::DownLeft);
                    ops = ops.push(Op::DownLeft);
                    assert(out@ =~= old(out)@ + encode_all(ops));
                }
            } else if cy == y && x > cx {
                queue_move_right(out, x - cx);
                proof {
                    lemma_encode_push(ops, Op::MoveRight((x - cx) as u16));
                    ops = ops.push(Op::MoveRight((x - cx) as u16));
                    assert(out@ =~= old(out)@ + encode_all(ops));
                }
            } else {
                queue_move_to(out, x, y);
                proof {
                    lemma_encode_push(ops, Op::MoveTo { x, y });
                    ops = ops.push(Op::MoveTo { x, y });
                    assert(out@ =~= old(out)@ + encode_all(ops));
                }
            }
        },
        None => {
            queue_move_to(out, x, y);
            proof {
                lemma_encode_push(ops, Op::MoveTo { x, y });
                ops = ops.push(Op::MoveTo { x, y });
                assert(out@ =~= old(out)@ + encode_all(ops));
            }
        },
    }
    assert(ops =~= move_ops(*old(at), x, y));
    match d.want {
        Some(g) => {
            let keep: bool = match *pen {
                Some(p) => within(p, g.color, tol),
                None => false,
            };
            if !keep {
                let ghost before = out@;
                queue_foreground(out, g.color);
                proof {
                    mute = choose|m: bool|
                        out@ == before + #[trigger] encode(Op::Pen { color: g.color, muted: m });
                    lemma_encode_push(ops, Op::Pen { color: g.color, muted: mute });
                    ops = ops.push(Op::Pen { color: g.color, muted: mute });
                    assert(out@ =~= old(out)@ + encode_all(ops));
                }
                *pen = Some(g.color);
            }
            queue_char(out, g.ch);
        },
        None => {
            queue_char(out, ' ');
        },
    }
    proof {
        lemma_encode_push(ops, Op::Put(printed(d.want)));
        ops = ops.push(Op::Put(printed(d.want)));
        assert(out@ =~= old(out)@ + encode_all(ops));
        assert(ops =~= strokes(*old(at), *old(pen), d, w, tol, mute));
    }
    // Line wrap is disabled, so the cursor stalls in the last column rather than
    // moving on: it is not tracked there.
    *at = if x + 1 < w {
        Some((x + 1, y))
    } else {
        None
    };
    Ghost(mute)
}

/// Without a hard stop every cell is drawn.
pub proof fn lemma_unbounded_draws_all(
    c: Canvas,
    ds: Seq<Damage>,
    w: u16,
    tol: u16,
    muted: Seq<bool>,
    n: nat,
)
    requires
        n <= ds.len() <= u16::MAX * u16::MAX,
    ensures
        painted(c, unbounded_plan(), ds, w, tol, muted, n).drawn == n,
        painted(c, unbounded_plan(), ds, w, tol, muted, n).partial >= usize::MAX - n,
    decreases n,
{
    if n > 0 {
        lemma_unbounded_draws_all(c, ds, w, tol, muted, (n - 1) as nat);
    }
}

/// No more cells are forced than there are.
proof fn lemma_forced_at_most(ds: Seq<Damage>)
    ensures
        forced_in(ds) <= ds.len(),
    decreases ds.len(),
{
    if ds.len() > 0 {
        lemma_forced_at_most(ds.drop_last());
    }
}

/// Every forced cell is drawn, whatever the plan.
pub proof fn lemma_forced_all_drawn(
    c: Canvas,
    plan: Plan,
    ds: Seq<Damage>,
    w: u16,
    tol: u16,
    muted: Seq<bool>,
    n: nat,
)
    requires
        n <= ds.len(),
    ensures
        painted(c, plan, ds, w, tol, muted, n).forced == forced_in(ds.take(n as int)),
        painted(c, plan, ds, w, tol, muted, n).forced <= painted(c, plan, ds, w, tol, muted, n).drawn,
    decreases n,
{
    if n > 0 {
        lemma_forced_all_drawn(c, plan, ds, w, tol, muted, (n - 1) as nat);
        assert(ds.take(n as int).drop_last() =~= ds.take(n - 1));
        assert(ds.take(n as int).last() == ds[n - 1]);
    }
}

/// Bytes that are out stay out.
proof fn lemma_bytes_grow(
    c: Canvas,
    plan: Plan,
    ds: Seq<Damage>,
    w: u16,
    tol: u16,
    muted: Seq<bool>,
    a: nat,
    b: nat,
)
    requires
        a <= b,
    ensures
        encode_all(painted(c, plan, ds, w, tol, muted, a).ops).len() <= encode_all(
            painted(c, plan, ds, w, tol, muted, b).ops,
        ).len(),
    decreases b - a,
{
    if a < b {
        lemma_bytes_grow(c, plan, ds, w, tol, muted, a, (b - 1) as nat);
        let q = painted(c, plan, ds, w, tol, muted, (b - 1) as nat);
        lemma_encode_concat(q.ops, cell_ops(q.canvas, ds[b - 1], w, tol, muted[b - 1]));
    }
}

/// Where some cells score `b` or more, there is one.
proof fn lemma_scorer(ds: Seq<Damage>, b: int) -> (k: int)
    requires
        at_or_above(ds, b) > 0,
    ensures
        0 <= k < ds.len(),
        !ds[k].forced,
        ds[k].score >= b,
    decreases ds.len(),
{
    if !ds.last().forced && ds.last().score >= b {
        ds.len() - 1
    } else {
        lemma_scorer(ds.drop_last(), b)
    }
}

/// Among more cells than are forced, one is not.
proof fn lemma_discretionary(ds: Seq<Damage>)
    requires
        forced_in(ds) < ds.len(),
    ensures
        at_or_above(ds, 0) > 0,
    decreases ds.len(),
{
    if ds.last().forced {
        lemma_discretionary(ds.drop_last());
    }
}

/// Until the first cell that is not forced is drawn, nothing of the allowance is
/// used and every such cell was passed over.
proof fn lemma_until_the_first(
    c: Canvas,
    plan: Plan,
    ds: Seq<Damage>,
    w: u16,
    tol: u16,
    muted: Seq<bool>,
    n: nat,
)
    requires
        n <= ds.len(),
        plan.cap matches Some(most) ==> most > 0,
    ensures
        ({
            let p = painted(c, plan, ds, w, tol, muted, n);
            ||| p.drawn > p.forced
            ||| p.drawn == p.forced && p.spent == 0 && p.partial == plan.partial && forall|k: int|
                0 <= k < n ==> (#[trigger] ds[k]).forced || !selects(
                    plan,
                    plan.partial as nat,
                    ds[k],
                )
        }),
    decreases n,
{
    if n > 0 {
        lemma_until_the_first(c, plan, ds, w, tol, muted, (n - 1) as nat);
    }
}

/// The highest scores are picked from: where more cells are discretionary than
/// `allow`, the cutoff lies where the count passes it.
pub proof fn lemma_cutoff(ds: Seq<Damage>, allow: nat, top: int)
    requires
        0 <= top,
        at_or_above(ds, top + 1) <= allow,
        at_or_above(ds, 0) > allow,
    ensures
        0 <= cutoff(ds, allow, top) <= top,
        at_or_above(ds, cutoff(ds, allow, top)) > allow,
        at_or_above(ds, cutoff(ds, allow, top) + 1) <= allow,
    decreases top,
{
    if top > 0 && at_or_above(ds, top) <= allow {
        lemma_cutoff(ds, allow, top - 1);
    }
}

/// A frame that is cut short still draws a cell that could have waited, if there
/// is one.
pub proof fn lemma_one_discretionary(
    c: Canvas,
    budget: usize,
    est: Estimate,
    ds: Seq<Damage>,
    w: u16,
    tol: u16,
    muted: Seq<bool>,
)
    requires
        budget > 0,
        forced_in(ds) < ds.len(),
        forall|k: int| 0 <= k < ds.len() ==> (#[trigger] ds[k]).score <= HEAD_SCORE,
    ensures
        ({
            let p = painted(c, plan_for(ds, budget, est), ds, w, tol, muted, ds.len());
            p.drawn > p.forced
        }),
{
    let plan = plan_for(ds, budget, est);
    let allow = allowance(est) as nat;
    lemma_until_the_first(c, plan, ds, w, tol, muted, ds.len());
    lemma_discretionary(ds);
    if est.fits || at_or_above(ds, 0) <= allow {
        let k = lemma_scorer(ds, 0);
        assert(selects(plan, plan.partial as nat, ds[k]));
    } else {
        lemma_nothing_above(ds);
        lemma_cutoff(ds, allow, HEAD_SCORE as int);
        let b = cutoff(ds, allow, HEAD_SCORE as int);
        if at_or_above(ds, b + 1) > 0 {
            let k = lemma_scorer(ds, b + 1);
            assert(selects(plan, plan.partial as nat, ds[k]));
        } else {
            let k = lemma_scorer(ds, b);
            assert(selects(plan, plan.partial as nat, ds[k]));
        }
    }
}

/// No more cells are drawn than were looked at.
pub proof fn lemma_drawn_at_most(
    c: Canvas,
    plan: Plan,
    ds: Seq<Damage>,
    w: u16,
    tol: u16,
    muted: Seq<bool>,
    n: nat,
)
    ensures
        painted(c, plan, ds, w, tol, muted, n).drawn <= n,
    decreases n,
{
    if n > 0 {
        lemma_drawn_at_most(c, plan, ds, w, tol, muted, (n - 1) as nat);
    }
}

/// The higher the score, the fewer cells reach it.
proof fn lemma_at_or_above_antitone(ds: Seq<Damage>, lo: int, hi: int)
    requires
        lo <= hi,
    ensures
        at_or_above(ds, hi) <= at_or_above(ds, lo),
    decreases ds.len(),
{
    if ds.len() > 0 {
        lemma_at_or_above_antitone(ds.drop_last(), lo, hi);
    }
}

/// One more instruction is its bytes at the end.
proof fn lemma_encode_push(ops: Seq<Op>, op: Op)
    ensures
        encode_all(ops.push(op)) == encode_all(ops) + encode(op),
{
    assert(ops.push(op).drop_last() =~= ops);
}

/// Runs of instructions concatenate as their bytes do.
pub proof fn lemma_encode_concat(a: Seq<Op>, b: Seq<Op>)
    ensures
        encode_all(a + b) == encode_all(a) + encode_all(b),
    decreases b.len(),
{
    if b.len() == 0 {
        assert(a + b =~= a);
        assert(encode_all(a) + encode_all(b) =~= encode_all(a));
    } else {
        assert((a + b).drop_last() =~= a + b.drop_last());
        lemma_encode_concat(a, b.drop_last());
        assert(encode_all(a) + encode_all(b.drop_last()) + encode(b.last()) =~= encode_all(a) + (
        encode_all(b.drop_last()) + encode(b.last())));
    }
}

/// Whether the pen was muted for a later cell does not touch an earlier one.
proof fn lemma_painted_prefix(
    c: Canvas,
    plan: Plan,
    ds: Seq<Damage>,
    w: u16,
    tol: u16,
    a: Seq<bool>,
    b: Seq<bool>,
    n: nat,
)
    requires
        n <= a.len(),
        n <= b.len(),
        forall|k: int| 0 <= k < n ==> a[k] == b[k],
    ensures
        painted(c, plan, ds, w, tol, a, n) == painted(c, plan, ds, w, tol, b, n),
    decreases n,
{
    if n > 0 {
        lemma_painted_prefix(c, plan, ds, w, tol, a, b, (n - 1) as nat);
    }
}

/// Going from one brightness to another ranks as going back does, so that what
/// vanishes ranks as what appears: no lower than any change between two
/// brightnesses that are no higher. Towards one brightness a larger step ranks no
/// lower, and staying at it ranks lowest. No such change ranks above 255, and any
/// head ranks above it.
pub proof fn law_a_change_ranks_as_its_reverse(a: u8, b: u8, lo: u8, hi: u8)
    ensures
        salience_of(a, b, false) == salience_of(b, a, false),
        lo <= b && hi <= b ==> salience_of(lo, hi, false) <= salience_of(0, b, false),
        lo <= hi <= b ==> salience_of(b, b, false) <= salience_of(b, hi, false) <= salience_of(
            b,
            lo,
            false,
        ),
        0 <= salience_of(a, b, false) <= 255,
        salience_of(lo, hi, false) < salience_of(a, b, true),
        salience_of(lo, hi, true) == salience_of(a, b, true),
{
}

/// The rank of a change is the step in brightness and a quarter of the brighter
/// side, as far as that is no more than 255.
pub proof fn law_a_rank_is_the_step_and_a_quarter_of_the_brighter(dim: u8, bright: u8)
    requires
        dim <= bright,
    ensures
        ({
            let s = salience_of(dim, bright, false);
            &&& s < 255 ==> 4 * s <= 4 * (bright - dim) + bright < 4 * (s + 1)
            &&& s == 255 ==> 4 * (bright - dim) + bright >= 4 * 255
        }),
        salience_of(bright, bright, false) == bright as int / 4,
{
}

/// A frame's wait is worth 40 to any cell but a head, which ranks the same
/// however long it waited, and above anything that is none.
pub proof fn law_each_frame_waited_counts_the_same(
    want: Wanted,
    other: Wanted,
    luma: u8,
    other_luma: u8,
    debt: u8,
    waited: u8,
)
    requires
        debt < 8,
        waited <= 8,
    ensures
        !want.head ==> score_of(want, luma, (debt + 1) as u8) == score_of(want, luma, debt) + 40,
        !want.head ==> score_of(want, luma, 0) == salience_of(want.luma, luma, false),
        want.head ==> score_of(want, luma, (debt + 1) as u8) == score_of(want, luma, debt),
        want.head && !other.head ==> score_of(other, other_luma, waited) < score_of(
            want,
            luma,
            debt,
        ),
        want.head && other.head ==> score_of(other, other_luma, waited) == score_of(
            want,
            luma,
            debt,
        ),
{
}

/// A cell that goes dark outranks, at equal age, every change of a cell that is
/// no head and was and stays no brighter.
pub proof fn law_what_vanishes_outranks_a_dimmer_change(
    gone: Wanted,
    other: Wanted,
    was: u8,
    other_was: u8,
    debt: u8,
)
    requires
        gone.luma == 0,
        !other.head,
        other.luma <= was,
        other_was <= was,
        debt <= MAX_DEFER,
    ensures
        score_of(other, other_was, debt) <= score_of(gone, was, debt),
{
}

/// Brightness weighs green most and blue least: grey is as bright as its
/// channels, no channel ever darkens what it brightens, and a channel's share is
/// two, five and one of eight.
pub proof fn law_brightness_weighs_green_most(r: u8, g: u8, b: u8, more: u8)
    ensures
        8 * luma_of((r, g, b)) <= 2 * r + 5 * g + b < 8 * luma_of((r, g, b)) + 8,
        luma_of((more, more, more)) == more,
        r <= more ==> luma_of((r, g, b)) <= luma_of((more, g, b)),
        g <= more ==> luma_of((r, g, b)) <= luma_of((r, more, b)),
        b <= more ==> luma_of((r, g, b)) <= luma_of((r, g, more)),
        r <= g ==> luma_of((g, r, b)) <= luma_of((r, g, b)),
        b <= r ==> luma_of((b, g, r)) <= luma_of((r, g, b)),
{
}

/// Nearness of pens is a distance: every pen is near itself, two are near each
/// other either way round, a larger tolerance keeps what a smaller one allows,
/// detours only add up, and without tolerance only equal ones are near.
pub proof fn law_nearness_of_pens_is_a_distance(
    a: Color,
    b: Color,
    c: Color,
    tol: u16,
    more: u16,
)
    ensures
        close_enough(a, a, tol),
        close_enough(a, b, tol) == close_enough(b, a, tol),
        tol <= more && close_enough(a, b, tol) ==> close_enough(a, b, more),
        close_enough(a, b, tol) && close_enough(b, c, more) && tol + more <= u16::MAX
            ==> close_enough(a, c, (tol + more) as u16),
        close_enough(a, b, 0) <==> a == b,
{
}

/// Each channel counts the same, step for step: two 24-bit colours that differ in
/// one channel are near exactly where the difference is tolerated, and
/// differences of several channels add up. An entry of the palette is near
/// itself alone, whatever the tolerance.
pub proof fn law_every_channel_counts_in_nearness(r: u8, g: u8, b: u8, d: u8, e: u8, tol: u16)
    requires
        r + d <= 255,
        g + d <= 255,
        b + d <= 255,
        g + e <= 255,
    ensures
        ({
            let pen = Color::Rgb { r, g, b };
            &&& close_enough(pen, (Color::Rgb { r: (r + d) as u8, g, b }), tol) <==> d <= tol
            &&& close_enough(pen, (Color::Rgb { r, g: (g + d) as u8, b }), tol) <==> d <= tol
            &&& close_enough(pen, (Color::Rgb { r, g, b: (b + d) as u8 }), tol) <==> d <= tol
            &&& close_enough(
                (Color::Rgb { r: (r + d) as u8, g, b }),
                (Color::Rgb { r, g: (g + e) as u8, b: (b + d) as u8 }),
                tol,
            ) <==> 2 * d + e <= tol
            &&& !close_enough(Color::AnsiValue(r), pen, tol)
            &&& close_enough(Color::AnsiValue(r), Color::AnsiValue(g), tol) <==> r == g
        }),
{
}

/// A picture is held row by row: a cell's right neighbour comes next, and the
/// first of a row behind the last of the row above. Beyond its edges there is
/// nothing.
pub proof fn law_a_picture_is_held_row_by_row(f: Frame, x: int, y: int, i: int)
    requires
        f.wf(),
        0 <= x < f.w,
        0 <= y < f.h,
        0 <= i < f.cells@.len(),
        f.cells@[i] == f.at(x, y),
        i == y * f.w + x,
    ensures
        x + 1 < f.w ==> f.at(x + 1, y) == f.cells@[i + 1],
        x + 1 == f.w && y + 1 < f.h ==> f.at(0, y + 1) == f.cells@[i + 1],
        f.at(0, 0) == f.cells@[0],
        f.at(f.w as int, y) is None,
        f.at(x, f.h as int) is None,
        f.at(-1, y) is None,
        f.at(x, -1) is None,
{
    assert((y + 1) * f.w == y * f.w + f.w) by (nonlinear_arith);
    assert(0 * f.w == 0) by (nonlinear_arith);
}

/// What is asked of the cell at a position is what the picture holds there: its
/// glyph in its colour at that depth, its brightness, and whether it is a head;
/// and a blank where it holds nothing.
pub proof fn law_every_position_is_asked_for_its_own(
    f: Frame,
    depth: Depth,
    w: u16,
    h: u16,
    x: int,
    y: int,
)
    requires
        0 <= x < w,
        0 <= y < h,
    ensures
        scan(f, depth, w, h).len() == w * h,
        ({
            let q = scan(f, depth, w, h)[y * w + x];
            match f.at(x, y) {
                Some(s) => {
                    &&& q.glyph matches Some(g) && g.ch == s.ch && g.color
                        == crate::theme::color_at(depth, s.rgb)
                    &&& q.luma == luma_of(s.rgb)
                    &&& q.head == s.head
                },
                None => q.glyph is None && q.luma == 0 && !q.head,
            }
        }),
{
    lemma_grid_index(w as int, h as int, x, y);
}

/// The charges for a cell are where they are said to be: 20 bytes to begin with,
/// never under 4 and never over 96.
pub proof fn law_what_a_cell_may_be_charged()
    ensures
        bits::stands_for(INITIAL_CELL_COST, 20, 1),
        bits::stands_for(MIN_CELL_COST, 4, 1),
        bits::stands_for(MAX_CELL_COST, 96, 1),
{
    vstd::arithmetic::power2::lemma2_to64();
    bits::lemma_stands_for(INITIAL_CELL_COST, 20, 1);
    bits::lemma_stands_for(MIN_CELL_COST, 4, 1);
    bits::lemma_stands_for(MAX_CELL_COST, 96, 1);
}

/// A canvas starts out with nothing owed, nothing lit, and neither pen nor cursor
/// known, over as many cells as there are; what it shows is known to be blank for
/// a new screen and not known at all for one that was resized.
pub proof fn law_a_canvas_starts_with_nothing_owed(w: u16, h: u16, i: int)
    requires
        0 <= i < w * h,
    ensures
        ({
            let (new, stale) = (blank_canvas(w, h), stale_canvas(w, h));
            &&& new.wf(w, h) && stale.wf(w, h)
            &&& new.debt[i] == 0 && stale.debt[i] == 0
            &&& new.luma[i] == 0 && stale.luma[i] == 0
            &&& new.pen is None && stale.pen is None
            &&& new.at is None && stale.at is None
            &&& new.prev[i] == Belief::Shows(None)
            &&& stale.prev[i] == Belief::Unknown
        }),
{
}

} // verus!
