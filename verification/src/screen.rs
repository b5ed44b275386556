//! A model of the terminal, and what holds between it and the renderer.
//!
//! The renderer never reads the screen back: all it has is what it believes the
//! screen shows. The laws here say that the belief is right, and that it
//! converges on the picture that was asked for.

use crate::ansi::{decimal, encode, encode_all, Op};
use crate::grid::{lemma_cell_on_screen, lemma_grid_index, lemma_grid_size};
use crate::render::{
    admits, allowance, at_after, at_or_above, blank_canvas, cell_drawn, cell_ops, close_enough, cutoff,
    damage_at, damages, forced_in, frame_muted, frame_painted, frame_plan, frame_question,
    frame_upto, image, lemma_at_or_above_step, lemma_cutoff, lemma_damage_found, lemma_damages,
    lemma_drawn_at_most, lemma_encode_concat, lemma_forced_all_drawn, lemma_nothing_above,
    lemma_one_discretionary, lemma_unbounded_draws_all, move_ops, painted, pen_after, pen_ops,
    plan_for, printed, score_of, scoring, selects, settled, stale_canvas, too_dear,
    unbounded_plan, under_cap, Belief, Canvas, Damage, Estimate, Glyph, Muted, Plan, Wanted,
    HEAD_SCORE, MAX_DEFER,
};
use crate::theme::Color;
use vstd::prelude::*;
use vstd::utf8::encode_utf8;

verus! {

/// What one cell of the terminal shows.
pub struct Shown {
    pub ch: char,
    /// The pen it was printed with, where one had been set.
    pub pen: Option<Color>,
}

/// The part of a terminal that the renderer drives. Line wrap is off, so a
/// glyph in the last column leaves the cursor where it is, and a line feed
/// keeps the column.
#[verifier::ext_equal]
pub struct Screen {
    pub w: int,
    pub h: int,
    pub cells: Seq<Shown>,
    pub x: int,
    pub y: int,
    pub pen: Option<Color>,
}

/// The smaller of two numbers.
pub open spec fn least(a: int, b: int) -> int {
    if a <= b {
        a
    } else {
        b
    }
}

/// What the terminal does with one instruction.
pub open spec fn obey(s: Screen, op: Op) -> Screen {
    match op {
        Op::MoveTo { x, y } => Screen { x: x as int, y: y as int, ..s },
        Op::MoveRight(n) => Screen { x: least(s.x + n, s.w - 1), ..s },
        Op::DownLeft => Screen {
            x: if s.x > 0 {
                s.x - 1
            } else {
                0
            },
            y: s.y + 1,
            ..s
        },
        Op::Pen { color, muted } => Screen {
            pen: if muted {
                None
            } else {
                Some(color)
            },
            ..s
        },
        Op::Put(ch) => Screen {
            cells: s.cells.update(s.y * s.w + s.x, Shown { ch, pen: s.pen }),
            x: least(s.x + 1, s.w - 1),
            ..s
        },
    }
}

/// What the terminal does with a run of instructions.
pub open spec fn obey_all(s: Screen, ops: Seq<Op>) -> Screen
    decreases ops.len(),
{
    if ops.len() == 0 {
        s
    } else {
        obey(obey_all(s, ops.drop_last()), ops.last())
    }
}

/// Whether a cell shows a glyph; its colour is looked at only where `colours`.
pub open spec fn shows(cell: Shown, want: Option<Glyph>, tol: u16, colours: bool) -> bool {
    match want {
        None => cell.ch == ' ',
        Some(g) => cell.ch == g.ch && (colours ==> match cell.pen {
            Some(p) => close_enough(p, g.color, tol),
            None => false,
        }),
    }
}

/// Whether what is believed of a cell is so.
pub open spec fn holds(cell: Shown, seen: Belief, tol: u16, colours: bool) -> bool {
    match seen {
        Belief::Unknown => true,
        Belief::Shows(want) => shows(cell, want, tol, colours),
    }
}

/// Everything the renderer believes of the screen is so. With `colours` the pen
/// and every cell's colour are part of it, up to the tolerance.
pub open spec fn agrees(s: Screen, c: Canvas, w: u16, h: u16, tol: u16, colours: bool) -> bool {
    &&& s.w == w
    &&& s.h == h
    &&& s.cells.len() == w * h
    &&& c.wf(w, h)
    &&& forall|i: int|
        0 <= i < s.cells.len() ==> holds(#[trigger] s.cells[i], c.prev[i], tol, colours)
    &&& match c.at {
        Some((x, y)) => s.x == x && s.y == y,
        None => true,
    }
    &&& colours ==> match c.pen {
        Some(p) => s.pen == Some(p),
        None => true,
    }
}

proof fn lemma_obey_concat(s: Screen, a: Seq<Op>, b: Seq<Op>)
    ensures
        obey_all(s, a + b) == obey_all(obey_all(s, a), b),
    decreases b.len(),
{
    if b.len() == 0 {
        assert(a + b =~= a);
    } else {
        assert((a + b).drop_last() =~= a + b.drop_last());
        lemma_obey_concat(s, a, b.drop_last());
    }
}

proof fn lemma_obey_one(s: Screen, op: Op)
    ensures
        obey_all(s, seq![op]) == obey(s, op),
{
    reveal_with_fuel(obey_all, 2);
    assert(seq![op].drop_last() =~= Seq::<Op>::empty());
    assert(seq![op].last() == op);
}

/// A screen that agrees with the renderer still agrees once a cell was drawn.
proof fn lemma_cell_agrees(
    s: Screen,
    c: Canvas,
    d: Damage,
    w: u16,
    h: u16,
    tol: u16,
    muted: bool,
    colours: bool,
)
    requires
        agrees(s, c, w, h, tol, colours),
        d.idx < w * h,
        colours ==> !muted,
    ensures
        agrees(
            obey_all(s, cell_ops(c, d, w, tol, muted)),
            cell_drawn(c, d, w, tol),
            w,
            h,
            tol,
            colours,
        ),
{
    let wi = w as int;
    let idx = d.idx as int;
    lemma_cell_on_screen(wi, h as int, idx);
    let x = (d.idx % (w as u32)) as u16;
    let y = (d.idx / (w as u32)) as u16;
    assert(x == idx % wi && y == idx / wi);
    let moves = move_ops(c.at, x, y);
    let pens = pen_ops(c.pen, d.want, tol, muted);
    let put = Op::Put(printed(d.want));
    let s1 = obey_all(s, moves);
    let s2 = obey_all(s1, pens);
    let s3 = obey(s2, put);
    lemma_obey_concat(s, moves + pens, seq![put]);
    lemma_obey_concat(s, moves, pens);
    lemma_obey_one(s2, put);
    if moves.len() == 1 {
        assert(moves =~= seq![moves[0]]);
        lemma_obey_one(s, moves[0]);
    }
    assert(s1.x == x && s1.y == y && s1.cells == s.cells && s1.pen == s.pen && s1.w == s.w
        && s1.h == s.h);
    if pens.len() == 1 {
        assert(pens =~= seq![pens[0]]);
        lemma_obey_one(s1, pens[0]);
    }
    assert(s2.x == x && s2.y == y && s2.cells == s.cells && s2.w == s.w && s2.h == s.h);
    let c2 = cell_drawn(c, d, w, tol);
    assert(s3.cells == s.cells.update(idx, Shown { ch: printed(d.want), pen: s2.pen }));
    if colours && d.want is Some {
        let g = d.want->0;
        assert(close_enough(g.color, g.color, tol));
    }
    assert forall|i: int| 0 <= i < s3.cells.len() implies holds(
        #[trigger] s3.cells[i],
        c2.prev[i],
        tol,
        colours,
    ) by {
        if i != idx {
            assert(holds(s.cells[i], c.prev[i], tol, colours));
        }
    }
}

/// What `n` damaged cells leave of each cell: what it is to show and no debt
/// where it was drawn, one frame more of debt where it was held back, and
/// nothing new where it was not among them.
proof fn lemma_painted_cells(
    c: Canvas,
    plan: Plan,
    ds: Seq<Damage>,
    w: u16,
    h: u16,
    tol: u16,
    muted: Seq<bool>,
    n: nat,
)
    requires
        c.wf(w, h),
        n <= ds.len(),
        damage_ok(c, ds),
    ensures
        ({
            let p = painted(c, plan, ds, w, tol, muted, n);
            &&& p.canvas.wf(w, h)
            &&& forall|k: int|
                #![trigger ds[k]]
                0 <= k < n ==> {
                    let j = ds[k].idx as int;
                    ||| p.canvas.prev[j] == Belief::Shows(ds[k].want) && p.canvas.luma[j] == ds[k].luma
                        && p.canvas.debt[j] == 0
                    ||| p.canvas.prev[j] == c.prev[j] && p.canvas.luma[j] == c.luma[j]
                        && p.canvas.debt[j] == c.debt[j] + 1 && !ds[k].forced
                }
            &&& forall|j: int|
                #![trigger p.canvas.prev[j]]
                #![trigger p.canvas.debt[j]]
                0 <= j < c.prev.len() && (forall|k: int|
                    #![trigger ds[k]]
                    0 <= k < n ==> ds[k].idx != j) ==> p.canvas.prev[j] == c.prev[j]
                    && p.canvas.luma[j] == c.luma[j] && p.canvas.debt[j] == c.debt[j]
        }),
    decreases n,
{
    if n > 0 {
        lemma_painted_cells(c, plan, ds, w, h, tol, muted, (n - 1) as nat);
        let q = painted(c, plan, ds, w, tol, muted, (n - 1) as nat);
        let p = painted(c, plan, ds, w, tol, muted, n);
        let d = ds[n - 1];
        let i = d.idx as int;
        lemma_cell_on_screen(w as int, h as int, i);
        assert(q.canvas.prev[i] == c.prev[i] && q.canvas.debt[i] == c.debt[i]) by {
            assert forall|k: int| #![trigger ds[k]] 0 <= k < n - 1 implies ds[k].idx != i by {
                assert(ds[k].idx < ds[n - 1].idx);
            }
        }
        assert(c.debt[i] <= MAX_DEFER);
        assert forall|k: int| #![trigger ds[k]] 0 <= k < n implies {
            let j = ds[k].idx as int;
            ||| p.canvas.prev[j] == Belief::Shows(ds[k].want) && p.canvas.luma[j] == ds[k].luma
                && p.canvas.debt[j] == 0
            ||| p.canvas.prev[j] == c.prev[j] && p.canvas.luma[j] == c.luma[j]
                && p.canvas.debt[j] == c.debt[j] + 1 && !ds[k].forced
        } by {
            if k < n - 1 {
                assert(ds[k].idx < ds[n - 1].idx);
            }
        }
        assert forall|j: int|
            0 <= j < c.prev.len() && (forall|k: int|
                #![trigger ds[k]]
                0 <= k < n ==> ds[k].idx != j) implies #[trigger] p.canvas.prev[j] == c.prev[j]
            && p.canvas.luma[j] == c.luma[j] && p.canvas.debt[j] == c.debt[j] by {
            assert(ds[n - 1].idx != j);
            assert(q.canvas.prev[j] == c.prev[j]);
        }
    }
}

/// Damage on the canvas, in scan order, none of it forced before its time.
pub open spec fn damage_ok(c: Canvas, ds: Seq<Damage>) -> bool {
    &&& forall|k: int|
        #![trigger ds[k]]
        0 <= k < ds.len() ==> {
            &&& ds[k].idx < c.prev.len()
            &&& !ds[k].forced ==> c.debt[ds[k].idx as int] < MAX_DEFER
        }
    &&& forall|j: int, k: int|
        #![trigger ds[j], ds[k]]
        0 <= j < k < ds.len() ==> ds[j].idx < ds[k].idx
}

/// What the scan hands on is damage the canvas holds.
proof fn lemma_scan_ok(c: Canvas, wants: Seq<Wanted>, w: u16, h: u16)
    requires
        c.wf(w, h),
        wants.len() == w * h,
    ensures
        settled(c, wants, wants.len()).wf(w, h),
        damage_ok(settled(c, wants, wants.len()), damages(c, wants, wants.len())),
        damages(c, wants, wants.len()).len() <= u16::MAX * u16::MAX,
        forall|k: int|
            #![trigger damages(c, wants, wants.len())[k]]
            0 <= k < damages(c, wants, wants.len()).len() ==> {
                let d = damages(c, wants, wants.len())[k];
                &&& d.want == wants[d.idx as int].glyph
                &&& d.luma == wants[d.idx as int].luma
            },
{
    lemma_grid_size(w as int, h as int);
    lemma_damages(c, wants, wants.len());
    let s = settled(c, wants, wants.len());
    let ds = damages(c, wants, wants.len());
    assert forall|i: int| 0 <= i < s.debt.len() implies #[trigger] s.debt[i] <= MAX_DEFER by {
        assert(c.debt[i] <= MAX_DEFER);
    }
    assert forall|k: int| #![trigger ds[k]] 0 <= k < ds.len() implies {
        &&& ds[k].idx < s.prev.len()
        &&& !ds[k].forced ==> s.debt[ds[k].idx as int] < MAX_DEFER
    } by {}
}

/// The outcome of a frame for one cell: it shows what was asked for and owes
/// nothing, or it was held back, is one frame older, and was not yet due.
pub open spec fn cell_outcome(c: Canvas, after: Canvas, wants: Seq<Wanted>, i: int) -> bool {
    ||| after.prev[i] == Belief::Shows(wants[i].glyph) && after.debt[i] == 0
    ||| after.prev[i] == c.prev[i] && c.prev[i] != Belief::Shows(wants[i].glyph) && after.debt[i]
        == c.debt[i] + 1 && c.debt[i] < MAX_DEFER
}

/// Every cell of a frame is either brought up to date or held back one frame
/// longer, and a cell that has waited `MAX_DEFER` frames is never held back:
/// whatever the budget and whatever it is expected to buy, no cell goes longer
/// than `MAX_DEFER` frames undrawn.
pub proof fn law_every_cell_is_drawn_or_ages(
    c: Canvas,
    wants: Seq<Wanted>,
    budget: Option<usize>,
    est: Estimate,
    w: u16,
    h: u16,
    tol: u16,
    muted: Muted,
)
    requires
        c.wf(w, h),
        wants.len() == w * h,
    ensures
        ({
            let after = frame_painted(c, wants, budget, est, w, tol, muted).canvas;
            &&& after.wf(w, h)
            &&& forall|i: int|
                0 <= i < w * h ==> #[trigger] cell_outcome(c, after, wants, i)
        }),
{
    lemma_scan_ok(c, wants, w, h);
    lemma_grid_size(w as int, h as int);
    lemma_damages(c, wants, wants.len());
    let s = settled(c, wants, wants.len());
    let ds = damages(c, wants, wants.len());
    let plan = frame_plan(c, wants, budget, est, w, tol, muted);
    let m = frame_muted(c, wants, budget, w, tol, muted);
    lemma_painted_cells(s, plan, ds, w, h, tol, m, ds.len());
    let after = frame_painted(c, wants, budget, est, w, tol, muted).canvas;
    assert forall|i: int| 0 <= i < w * h implies #[trigger] cell_outcome(c, after, wants, i) by {
        if c.prev[i] != Belief::Shows(wants[i].glyph) {
            let k = lemma_damage_found(c, wants, wants.len(), i);
            assert(ds[k].want == wants[i].glyph);
            assert(s.debt[i] == c.debt[i]);
        } else {
            assert forall|k: int| #![trigger ds[k]] 0 <= k < ds.len() implies ds[k].idx != i by {}
            assert(after.prev[i] == s.prev[i]);
        }
    }
}

/// An unchanged picture costs nothing: not one byte goes out, and nothing that
/// is believed of the screen changes.
pub proof fn law_an_unchanged_frame_emits_nothing(
    c: Canvas,
    wants: Seq<Wanted>,
    budget: Option<usize>,
    est: Estimate,
    w: u16,
    h: u16,
    tol: u16,
    muted: Muted,
)
    requires
        c.wf(w, h),
        wants.len() == w * h,
        c.prev == image(wants),
    ensures
        damages(c, wants, wants.len()).len() == 0,
        encode_all(frame_painted(c, wants, budget, est, w, tol, muted).ops).len() == 0,
        frame_painted(c, wants, budget, est, w, tol, muted).canvas.prev == c.prev,
        frame_painted(c, wants, budget, est, w, tol, muted).canvas.pen == c.pen,
        frame_painted(c, wants, budget, est, w, tol, muted).canvas.at == c.at,
{
    lemma_scan_ok(c, wants, w, h);
    lemma_grid_size(w as int, h as int);
    lemma_damages(c, wants, wants.len());
    let ds = damages(c, wants, wants.len());
    if ds.len() > 0 {
        let d = ds[0];
        assert(c.prev[d.idx as int] == image(wants)[d.idx as int]);
    }
}

/// Without a budget a frame leaves nothing behind: afterwards exactly the
/// picture that was asked for is believed to be on screen, every damaged cell
/// has been drawn, and no cell owes anything. Since nothing in this depends on
/// what was there before, any number of skipped frames is made good by the next
/// one that is drawn, and the pen tolerance has no part in it.
pub proof fn law_an_unbounded_frame_catches_up(
    c: Canvas,
    wants: Seq<Wanted>,
    est: Estimate,
    w: u16,
    h: u16,
    tol: u16,
    muted: Muted,
)
    requires
        c.wf(w, h),
        wants.len() == w * h,
    ensures
        ({
            let p = frame_painted(c, wants, None, est, w, tol, muted);
            &&& p.canvas.prev == image(wants)
            &&& p.canvas.debt == Seq::new((w * h) as nat, |i: int| 0u8)
            &&& p.drawn == damages(c, wants, wants.len()).len()
        }),
{
    lemma_scan_ok(c, wants, w, h);
    lemma_grid_size(w as int, h as int);
    lemma_damages(c, wants, wants.len());
    let s = settled(c, wants, wants.len());
    let ds = damages(c, wants, wants.len());
    lemma_unbounded_draws_all(s, ds, w, tol, muted.whole, ds.len());
    let p = frame_painted(c, wants, None, est, w, tol, muted);
    law_every_cell_is_drawn_or_ages(c, wants, None, est, w, h, tol, muted);
    lemma_all_drawn(s, unbounded_plan(), ds, w, h, tol, muted.whole, ds.len());
    assert forall|i: int| 0 <= i < w * h implies #[trigger] p.canvas.prev[i] == Belief::Shows(
        wants[i].glyph,
    ) && p.canvas.debt[i] == 0 by {
        assert(cell_outcome(c, p.canvas, wants, i));
        if c.prev[i] != Belief::Shows(wants[i].glyph) {
            let k = lemma_damage_found(c, wants, wants.len(), i);
            assert(ds[k].want == wants[i].glyph);
        }
    }
    assert(p.canvas.prev =~= image(wants));
    assert(p.canvas.debt =~= Seq::new((w * h) as nat, |i: int| 0u8));
}

/// Where every cell looked at was drawn, each of them shows what it is to show.
proof fn lemma_all_drawn(
    c: Canvas,
    plan: Plan,
    ds: Seq<Damage>,
    w: u16,
    h: u16,
    tol: u16,
    muted: Seq<bool>,
    n: nat,
)
    requires
        c.wf(w, h),
        n <= ds.len(),
        damage_ok(c, ds),
        painted(c, plan, ds, w, tol, muted, n).drawn == n,
    ensures
        forall|k: int|
            #![trigger ds[k]]
            0 <= k < n ==> {
                let after = painted(c, plan, ds, w, tol, muted, n).canvas;
                after.prev[ds[k].idx as int] == Belief::Shows(ds[k].want) && after.debt[ds[k].idx as int] == 0
            },
    decreases n,
{
    if n > 0 {
        let q = painted(c, plan, ds, w, tol, muted, (n - 1) as nat);
        lemma_drawn_at_most(c, plan, ds, w, tol, muted, (n - 1) as nat);
        lemma_all_drawn(c, plan, ds, w, h, tol, muted, (n - 1) as nat);
        lemma_painted_cells(c, plan, ds, w, h, tol, muted, (n - 1) as nat);
        let after = painted(c, plan, ds, w, tol, muted, n).canvas;
        assert forall|k: int| #![trigger ds[k]] 0 <= k < n implies after.prev[ds[k].idx as int]
            == Belief::Shows(ds[k].want) && after.debt[ds[k].idx as int] == 0 by {
            if k < n - 1 {
                assert(ds[k].idx < ds[n - 1].idx);
            }
        }
    }
}

proof fn lemma_painted_agrees(
    s: Screen,
    c: Canvas,
    plan: Plan,
    ds: Seq<Damage>,
    w: u16,
    h: u16,
    tol: u16,
    muted: Seq<bool>,
    colours: bool,
    n: nat,
)
    requires
        agrees(s, c, w, h, tol, colours),
        n <= ds.len() == muted.len(),
        damage_ok(c, ds),
        colours ==> forall|k: int| 0 <= k < muted.len() ==> !#[trigger] muted[k],
    ensures
        ({
            let p = painted(c, plan, ds, w, tol, muted, n);
            agrees(obey_all(s, p.ops), p.canvas, w, h, tol, colours)
        }),
    decreases n,
{
    if n > 0 {
        lemma_painted_agrees(s, c, plan, ds, w, h, tol, muted, colours, (n - 1) as nat);
        let q = painted(c, plan, ds, w, tol, muted, (n - 1) as nat);
        let p = painted(c, plan, ds, w, tol, muted, n);
        let d = ds[n - 1];
        lemma_painted_cells(c, plan, ds, w, h, tol, muted, n);
        if admits(q, plan, d) {
            lemma_cell_agrees(
                obey_all(s, q.ops),
                q.canvas,
                d,
                w,
                h,
                tol,
                muted[n - 1],
                colours,
            );
            lemma_obey_concat(s, q.ops, cell_ops(q.canvas, d, w, tol, muted[n - 1]));
        }
    }
}

/// The renderer never lies about the screen. Where everything it believed held
/// before a frame, everything it believes holds once the terminal has carried
/// the frame out, whatever the budget left undone. Glyphs agree always; colours
/// agree, within the pen tolerance, as long as colour output is not switched
/// off.
pub proof fn law_the_screen_is_as_believed(
    s: Screen,
    c: Canvas,
    wants: Seq<Wanted>,
    budget: Option<usize>,
    est: Estimate,
    w: u16,
    h: u16,
    tol: u16,
    muted: Muted,
    colours: bool,
)
    requires
        agrees(s, c, w, h, tol, colours),
        wants.len() == w * h,
        muted.covers(damages(c, wants, wants.len()).len()),
        colours ==> muted.never(),
    ensures
        ({
            let p = frame_painted(c, wants, budget, est, w, tol, muted);
            agrees(obey_all(s, p.ops), p.canvas, w, h, tol, colours)
        }),
{
    lemma_scan_ok(c, wants, w, h);
    let settled_c = settled(c, wants, wants.len());
    let ds = damages(c, wants, wants.len());
    assert(agrees(s, settled_c, w, h, tol, colours));
    lemma_painted_agrees(
        s,
        settled_c,
        frame_plan(c, wants, budget, est, w, tol, muted),
        ds,
        w,
        h,
        tol,
        frame_muted(c, wants, budget, w, tol, muted),
        colours,
        ds.len(),
    );
}

/// What is on screen after a frame without a budget is the picture itself, cell
/// by cell, however many pictures before it were never drawn.
pub proof fn law_the_screen_matches_after_a_coalesced_frame(
    s: Screen,
    c: Canvas,
    wants: Seq<Wanted>,
    est: Estimate,
    w: u16,
    h: u16,
    tol: u16,
    muted: Muted,
    colours: bool,
)
    requires
        agrees(s, c, w, h, tol, colours),
        wants.len() == w * h,
        muted.covers(damages(c, wants, wants.len()).len()),
        colours ==> muted.never(),
    ensures
        ({
            let shown = obey_all(s, frame_painted(c, wants, None, est, w, tol, muted).ops);
            forall|i: int|
                0 <= i < w * h ==> shows(#[trigger] shown.cells[i], wants[i].glyph, tol, colours)
        }),
{
    law_the_screen_is_as_believed(s, c, wants, None, est, w, h, tol, muted, colours);
    law_an_unbounded_frame_catches_up(c, wants, est, w, h, tol, muted);
    let p = frame_painted(c, wants, None, est, w, tol, muted);
    let shown = obey_all(s, p.ops);
    assert forall|i: int| 0 <= i < w * h implies shows(
        #[trigger] shown.cells[i],
        wants[i].glyph,
        tol,
        colours,
    ) by {
        assert(p.canvas.prev[i] == image(wants)[i]);
    }
}

/// One frame of a run: the budget in force, what it was expected to buy, and
/// for which cells the pen was muted.
pub struct Pass {
    pub budget: Option<usize>,
    pub est: Estimate,
    pub muted: Muted,
}

/// The canvas after the same picture was drawn once per pass.
pub open spec fn redrawn(c: Canvas, wants: Seq<Wanted>, w: u16, tol: u16, passes: Seq<Pass>) -> Canvas
    decreases passes.len(),
{
    if passes.len() == 0 {
        c
    } else {
        let before = redrawn(c, wants, w, tol, passes.drop_last());
        let q = passes.last();
        frame_painted(before, wants, q.budget, q.est, w, tol, q.muted).canvas
    }
}

proof fn lemma_redrawn(
    c: Canvas,
    wants: Seq<Wanted>,
    w: u16,
    h: u16,
    tol: u16,
    passes: Seq<Pass>,
)
    requires
        c.wf(w, h),
        wants.len() == w * h,
    ensures
        redrawn(c, wants, w, tol, passes).wf(w, h),
        forall|i: int|
            #![trigger redrawn(c, wants, w, tol, passes).prev[i]]
            0 <= i < w * h ==> redrawn(c, wants, w, tol, passes).prev[i] == Belief::Shows(
                wants[i].glyph,
            ) || redrawn(c, wants, w, tol, passes).debt[i] >= passes.len(),
    decreases passes.len(),
{
    if passes.len() > 0 {
        let before = redrawn(c, wants, w, tol, passes.drop_last());
        let q = passes.last();
        lemma_redrawn(c, wants, w, h, tol, passes.drop_last());
        law_every_cell_is_drawn_or_ages(before, wants, q.budget, q.est, w, h, tol, q.muted);
        let after = redrawn(c, wants, w, tol, passes);
        assert forall|i: int| 0 <= i < w * h implies #[trigger] after.prev[i] == Belief::Shows(
            wants[i].glyph,
        ) || after.debt[i] >= passes.len() by {
            assert(cell_outcome(before, after, wants, i));
            assert(before.prev[i] == Belief::Shows(wants[i].glyph) || before.debt[i]
                >= passes.drop_last().len());
        }
    }
}

/// Starvation ends: once the picture stands still, `MAX_DEFER + 1` frames bring
/// the whole of it to the screen, however small the budget of each.
pub proof fn law_a_still_picture_drains(
    c: Canvas,
    wants: Seq<Wanted>,
    w: u16,
    h: u16,
    tol: u16,
    passes: Seq<Pass>,
)
    requires
        c.wf(w, h),
        wants.len() == w * h,
        passes.len() > MAX_DEFER,
    ensures
        redrawn(c, wants, w, tol, passes).prev == image(wants),
{
    lemma_redrawn(c, wants, w, h, tol, passes);
    let after = redrawn(c, wants, w, tol, passes);
    assert forall|i: int| 0 <= i < w * h implies after.prev[i] == image(wants)[i] by {
        assert(after.debt[i] <= MAX_DEFER);
        assert(after.prev[i] == Belief::Shows(wants[i].glyph) || after.debt[i] >= passes.len());
    }
    assert(after.prev =~= image(wants));
}

/// A budget with room to spare is no budget at all: where the frame without one
/// costs no more, the frame is the same, byte for byte, whatever the budget was
/// expected to buy.
pub proof fn law_a_slack_budget_changes_nothing(
    c: Canvas,
    wants: Seq<Wanted>,
    budget: usize,
    est: Estimate,
    other: Estimate,
    w: u16,
    tol: u16,
    muted: Muted,
)
    requires
        encode_all(frame_painted(c, wants, None, other, w, tol, muted).ops).len() <= budget,
    ensures
        frame_painted(c, wants, Some(budget), est, w, tol, muted) == frame_painted(
            c,
            wants,
            None,
            other,
            w,
            tol,
            muted,
        ),
{
}

/// After a resize every cell is damaged, dark ones too, and a frame without a
/// budget draws them all.
pub proof fn law_a_resize_forces_a_full_repaint(
    wants: Seq<Wanted>,
    est: Estimate,
    w: u16,
    h: u16,
    tol: u16,
    muted: Muted,
)
    requires
        wants.len() == w * h,
    ensures
        damages(stale_canvas(w, h), wants, wants.len()).len() == w * h,
        forall|i: int|
            0 <= i < w * h ==> (#[trigger] damages(stale_canvas(w, h), wants, wants.len())[i]).idx
                == i,
        frame_painted(stale_canvas(w, h), wants, None, est, w, tol, muted).drawn == w * h,
{
    let c = stale_canvas(w, h);
    lemma_grid_size(w as int, h as int);
    assert(c.wf(w, h));
    lemma_all_unknown(c, wants, wants.len());
    law_an_unbounded_frame_catches_up(c, wants, est, w, h, tol, muted);
}

/// Of a canvas of which nothing is known, every cell is damaged.
proof fn lemma_all_unknown(c: Canvas, wants: Seq<Wanted>, n: nat)
    requires
        n <= c.prev.len(),
        n <= u32::MAX,
        forall|i: int| 0 <= i < c.prev.len() ==> #[trigger] c.prev[i] == Belief::Unknown,
    ensures
        damages(c, wants, n).len() == n,
        forall|i: int| 0 <= i < n ==> (#[trigger] damages(c, wants, n)[i]).idx == i,
    decreases n,
{
    if n > 0 {
        lemma_all_unknown(c, wants, (n - 1) as nat);
        assert(c.prev[n - 1] == Belief::Unknown);
    }
}

/// A resize makes good whatever was on the screen, the overlay's row among it:
/// nothing is believed any more, so nothing believed is wrong, and the next
/// frame without a budget leaves exactly the picture, blanks where it is dark.
pub proof fn law_a_resize_repairs_any_screen(
    s: Screen,
    wants: Seq<Wanted>,
    est: Estimate,
    w: u16,
    h: u16,
    tol: u16,
    muted: Muted,
    colours: bool,
)
    requires
        s.w == w,
        s.h == h,
        s.cells.len() == w * h,
        wants.len() == w * h,
        muted.covers((w * h) as nat),
        colours ==> muted.never(),
    ensures
        agrees(s, stale_canvas(w, h), w, h, tol, colours),
        ({
            let shown = obey_all(
                s,
                frame_painted(stale_canvas(w, h), wants, None, est, w, tol, muted).ops,
            );
            forall|i: int|
                0 <= i < w * h ==> shows(#[trigger] shown.cells[i], wants[i].glyph, tol, colours)
        }),
{
    law_a_resize_forces_a_full_repaint(wants, est, w, h, tol, muted);
    law_the_screen_matches_after_a_coalesced_frame(
        s,
        stale_canvas(w, h),
        wants,
        est,
        w,
        h,
        tol,
        muted,
        colours,
    );
}

/// A new renderer's damage is what is lit: it starts on a blank screen.
pub proof fn law_a_first_frame_draws_what_is_lit(wants: Seq<Wanted>, w: u16, h: u16, i: int)
    requires
        wants.len() == w * h,
        0 <= i < w * h,
    ensures
        wants[i].glyph is Some <==> exists|k: int|
            #![trigger damages(blank_canvas(w, h), wants, wants.len())[k]]
            0 <= k < damages(blank_canvas(w, h), wants, wants.len()).len() && damages(
                blank_canvas(w, h),
                wants,
                wants.len(),
            )[k].idx == i,
{
    let c = blank_canvas(w, h);
    lemma_grid_size(w as int, h as int);
    assert(c.wf(w, h));
    lemma_damages(c, wants, wants.len());
    if wants[i].glyph is Some {
        let k = lemma_damage_found(c, wants, wants.len(), i);
    }
}

/// A head outranks every other cell, however long the other has waited.
pub proof fn law_a_head_outranks_everything(
    head: Wanted,
    other: Wanted,
    head_luma: u8,
    head_debt: u8,
    luma: u8,
    debt: u8,
)
    requires
        head.head,
        !other.head,
        debt <= MAX_DEFER,
    ensures
        score_of(other, luma, debt) < score_of(head, head_luma, head_debt),
{
}

/// A cell one frame short of its deadline outranks every freshly damaged cell
/// but a head.
pub proof fn law_age_outranks_what_is_fresh(
    waiting: Wanted,
    fresh: Wanted,
    luma: u8,
    debt: u8,
    fresh_luma: u8,
)
    requires
        !fresh.head,
        MAX_DEFER - 1 <= debt <= MAX_DEFER,
    ensures
        score_of(waiting, luma, debt) > score_of(fresh, fresh_luma, 0),
{
}

/// The budget is spent from the top of the priority order down: a cell that a
/// plan passes over never scores more than one it picks. With heads on top of
/// the order, no other cell is picked while a head is passed over.
pub proof fn law_the_budget_is_spent_on_the_highest_scores(
    plan: Plan,
    picked: Damage,
    picked_partial: nat,
    passed: Damage,
    passed_partial: nat,
)
    requires
        selects(plan, picked_partial, picked),
        !selects(plan, passed_partial, passed),
    ensures
        picked.score >= passed.score,
{
}

/// The most bytes one cell can cost: an absolute move, a 24-bit pen, a glyph.
pub const CELL_BYTES: usize = 37;

proof fn lemma_decimal_len(n: nat)
    ensures
        n < 1000 ==> decimal(n).len() <= 3,
        n < 100000 ==> decimal(n).len() <= 5,
{
    reveal_with_fuel(decimal, 6);
}

proof fn lemma_cell_bytes(c: Canvas, d: Damage, w: u16, tol: u16, muted: bool)
    ensures
        encode_all(cell_ops(c, d, w, tol, muted)).len() <= CELL_BYTES,
{
    let x = (d.idx % (w as u32)) as u16;
    let y = (d.idx / (w as u32)) as u16;
    let moves = move_ops(c.at, x, y);
    let pens = pen_ops(c.pen, d.want, tol, muted);
    let put = Op::Put(printed(d.want));
    lemma_encode_concat(moves + pens, seq![put]);
    lemma_encode_concat(moves, pens);
    lemma_encode_one(put);
    assert(encode(put).len() <= 4) by {
        reveal_with_fuel(encode_utf8, 2);
    }
    if moves.len() == 1 {
        assert(moves =~= seq![moves[0]]);
        lemma_encode_one(moves[0]);
        lemma_decimal_len((x + 1) as nat);
        lemma_decimal_len((y + 1) as nat);
        if let Op::MoveRight(n) = moves[0] {
            lemma_decimal_len(n as nat);
        }
        assert(encode(moves[0]).len() <= 14);
    }
    if pens.len() == 1 {
        assert(pens =~= seq![pens[0]]);
        lemma_encode_one(pens[0]);
        reveal_with_fuel(decimal, 4);
        match d.want->0.color {
            Color::Rgb { r, g, b } => {
                lemma_decimal_len(r as nat);
                lemma_decimal_len(g as nat);
                lemma_decimal_len(b as nat);
            },
            Color::AnsiValue(n) => {
                lemma_decimal_len(n as nat);
            },
        }
        assert(encode(pens[0]).len() <= 19);
    }
}

proof fn lemma_encode_one(op: Op)
    ensures
        encode_all(seq![op]) == encode(op),
{
    reveal_with_fuel(encode_all, 2);
    assert(seq![op].drop_last() =~= Seq::<Op>::empty());
    assert(seq![op].last() == op);
    assert(Seq::<u8>::empty() + encode(op) =~= encode(op));
}

proof fn lemma_painted_bytes(
    c: Canvas,
    plan: Plan,
    ds: Seq<Damage>,
    w: u16,
    tol: u16,
    muted: Seq<bool>,
    most: usize,
    n: nat,
)
    requires
        plan.cap == Some(most),
    ensures
        ({
            let p = painted(c, plan, ds, w, tol, muted, n);
            &&& p.spent < most + CELL_BYTES
            &&& encode_all(p.ops).len() <= p.spent + CELL_BYTES * p.forced
        }),
    decreases n,
{
    if n > 0 {
        lemma_painted_bytes(c, plan, ds, w, tol, muted, most, (n - 1) as nat);
        let q = painted(c, plan, ds, w, tol, muted, (n - 1) as nat);
        let d = ds[n - 1];
        let ops = cell_ops(q.canvas, d, w, tol, muted[n - 1]);
        lemma_cell_bytes(q.canvas, d, w, tol, muted[n - 1]);
        lemma_encode_concat(q.ops, ops);
    }
}

/// What cells that are not forced took is part of what went out, and each cell
/// takes something.
proof fn lemma_spent(
    c: Canvas,
    plan: Plan,
    ds: Seq<Damage>,
    w: u16,
    tol: u16,
    muted: Seq<bool>,
    n: nat,
)
    ensures
        painted(c, plan, ds, w, tol, muted, n).spent <= encode_all(
            painted(c, plan, ds, w, tol, muted, n).ops,
        ).len(),
        n > 0 ==> painted(c, plan, ds, w, tol, muted, (n - 1) as nat).spent <= painted(
            c,
            plan,
            ds,
            w,
            tol,
            muted,
            n,
        ).spent,
        n > 0 && !ds[n - 1].forced && admits(
            painted(c, plan, ds, w, tol, muted, (n - 1) as nat),
            plan,
            ds[n - 1],
        ) ==> painted(c, plan, ds, w, tol, muted, (n - 1) as nat).spent < painted(
            c,
            plan,
            ds,
            w,
            tol,
            muted,
            n,
        ).spent,
    decreases n,
{
    if n > 0 {
        lemma_spent(c, plan, ds, w, tol, muted, (n - 1) as nat);
        let q = painted(c, plan, ds, w, tol, muted, (n - 1) as nat);
        let ops = cell_ops(q.canvas, ds[n - 1], w, tol, muted[n - 1]);
        lemma_encode_concat(q.ops, ops);
        lemma_cell_costs(q.canvas, ds[n - 1], w, tol, muted[n - 1]);
    }
}

/// A cell costs a byte at least.
proof fn lemma_cell_costs(c: Canvas, d: Damage, w: u16, tol: u16, muted: bool)
    ensures
        encode_all(cell_ops(c, d, w, tol, muted)).len() >= 1,
{
    let put = Op::Put(printed(d.want));
    let ops = cell_ops(c, d, w, tol, muted);
    assert(ops.last() == put);
    assert(encode(put).len() >= 1) by {
        reveal_with_fuel(encode_utf8, 2);
    }
}

proof fn lemma_spent_grows(
    c: Canvas,
    plan: Plan,
    ds: Seq<Damage>,
    w: u16,
    tol: u16,
    muted: Seq<bool>,
    a: nat,
    b: nat,
)
    requires
        a <= b,
    ensures
        painted(c, plan, ds, w, tol, muted, a).spent <= painted(c, plan, ds, w, tol, muted, b).spent,
    decreases b - a,
{
    if a < b {
        lemma_spent_grows(c, plan, ds, w, tol, muted, a, (b - 1) as nat);
        lemma_spent(c, plan, ds, w, tol, muted, b);
    }
}

/// The budget is a hard stop: no cell that could have waited is drawn once such
/// cells have taken as many bytes as there are to spend, whatever the budget
/// was expected to buy.
pub proof fn law_the_budget_is_a_hard_stop(
    c: Canvas,
    wants: Seq<Wanted>,
    budget: usize,
    est: Estimate,
    w: u16,
    h: u16,
    tol: u16,
    muted: Muted,
    k: int,
)
    requires
        c.wf(w, h),
        wants.len() == w * h,
        0 <= k < damages(c, wants, wants.len()).len(),
        !damages(c, wants, wants.len())[k].forced,
        frame_upto(c, wants, Some(budget), est, w, tol, muted, (k + 1) as nat).drawn > frame_upto(
            c,
            wants,
            Some(budget),
            est,
            w,
            tol,
            muted,
            k as nat,
        ).drawn,
    ensures
        frame_upto(c, wants, Some(budget), est, w, tol, muted, k as nat).spent < budget,
{
    let ds = damages(c, wants, wants.len());
    let s = settled(c, wants, wants.len());
    if !too_dear(c, wants, Some(budget), w, tol, muted.whole) {
        let plan = unbounded_plan();
        lemma_spent(s, plan, ds, w, tol, muted.whole, (k + 1) as nat);
        lemma_spent_grows(s, plan, ds, w, tol, muted.whole, (k + 1) as nat, ds.len());
        lemma_spent(s, plan, ds, w, tol, muted.whole, ds.len());
    }
}

/// A budget bounds the frame: apart from cells past their deadline, no more
/// bytes go out than the budget and one last cell.
pub proof fn law_a_budget_bounds_the_frame(
    c: Canvas,
    wants: Seq<Wanted>,
    budget: usize,
    est: Estimate,
    w: u16,
    tol: u16,
    muted: Muted,
)
    ensures
        ({
            let p = frame_painted(c, wants, Some(budget), est, w, tol, muted);
            &&& p.spent < budget + CELL_BYTES
            &&& encode_all(p.ops).len() < budget + CELL_BYTES * (p.forced + 1)
        }),
{
    let ds = damages(c, wants, wants.len());
    let s = settled(c, wants, wants.len());
    if too_dear(c, wants, Some(budget), w, tol, muted.whole) {
        lemma_painted_bytes(
            s,
            plan_for(ds, budget, est),
            ds,
            w,
            tol,
            muted.cut,
            budget,
            ds.len(),
        );
    } else {
        lemma_spent(s, unbounded_plan(), ds, w, tol, muted.whole, ds.len());
    }
}

/// Whatever the deadline traffic, a budget of at least one byte draws at least
/// one cell that could have waited, if there is one.
pub proof fn law_something_discretionary_is_drawn(
    c: Canvas,
    wants: Seq<Wanted>,
    budget: usize,
    est: Estimate,
    w: u16,
    h: u16,
    tol: u16,
    muted: Muted,
)
    requires
        c.wf(w, h),
        wants.len() == w * h,
        budget > 0,
        forced_in(damages(c, wants, wants.len())) < damages(c, wants, wants.len()).len(),
    ensures
        ({
            let p = frame_painted(c, wants, Some(budget), est, w, tol, muted);
            p.drawn > p.forced
        }),
{
    let ds = damages(c, wants, wants.len());
    let s = settled(c, wants, wants.len());
    lemma_grid_size(w as int, h as int);
    lemma_damages(c, wants, wants.len());
    if too_dear(c, wants, Some(budget), w, tol, muted.whole) {
        lemma_one_discretionary(s, budget, est, ds, w, tol, muted.cut);
    } else {
        lemma_unbounded_draws_all(s, ds, w, tol, muted.whole, ds.len());
        lemma_forced_all_drawn(s, unbounded_plan(), ds, w, tol, muted.whole, ds.len());
        assert(ds.take(ds.len() as int) =~= ds);
    }
}

/// Where the budget bites as expected, no more discretionary cells are drawn
/// than it is expected to buy.
pub proof fn law_no_more_cells_than_the_budget_buys(
    c: Canvas,
    wants: Seq<Wanted>,
    budget: usize,
    est: Estimate,
    w: u16,
    h: u16,
    tol: u16,
    muted: Muted,
)
    requires
        c.wf(w, h),
        wants.len() == w * h,
        too_dear(c, wants, Some(budget), w, tol, muted.whole),
        !est.fits,
    ensures
        ({
            let p = frame_painted(c, wants, Some(budget), est, w, tol, muted);
            p.drawn <= p.forced + allowance(est)
        }),
{
    let ds = damages(c, wants, wants.len());
    let s = settled(c, wants, wants.len());
    let plan = plan_for(ds, budget, est);
    let allow = allowance(est);
    lemma_grid_size(w as int, h as int);
    lemma_damages(c, wants, wants.len());
    assert(ds.take(ds.len() as int) =~= ds);
    if at_or_above(ds, 0) > allow {
        lemma_nothing_above(ds);
        lemma_cutoff(ds, allow as nat, HEAD_SCORE as int);
        lemma_picked(s, plan, ds, w, tol, muted.cut, ds.len());
    } else {
        lemma_picked_all(s, plan, ds, w, tol, muted.cut, ds.len());
    }
}

proof fn lemma_picked(
    c: Canvas,
    plan: Plan,
    ds: Seq<Damage>,
    w: u16,
    tol: u16,
    muted: Seq<bool>,
    n: nat,
)
    requires
        n <= ds.len(),
    ensures
        ({
            let p = painted(c, plan, ds, w, tol, muted, n);
            p.drawn + p.partial <= p.forced + at_or_above(ds.take(n as int), plan.threshold + 1)
                + plan.partial
        }),
    decreases n,
{
    if n > 0 {
        lemma_picked(c, plan, ds, w, tol, muted, (n - 1) as nat);
        assert(ds.take(n as int).drop_last() =~= ds.take(n - 1));
        assert(ds.take(n as int).last() == ds[n - 1]);
    }
}

proof fn lemma_picked_all(
    c: Canvas,
    plan: Plan,
    ds: Seq<Damage>,
    w: u16,
    tol: u16,
    muted: Seq<bool>,
    n: nat,
)
    requires
        n <= ds.len(),
    ensures
        ({
            let p = painted(c, plan, ds, w, tol, muted, n);
            p.drawn <= p.forced + at_or_above(ds.take(n as int), 0)
        }),
    decreases n,
{
    if n > 0 {
        lemma_picked_all(c, plan, ds, w, tol, muted, (n - 1) as nat);
        assert(ds.take(n as int).drop_last() =~= ds.take(n - 1));
        assert(ds.take(n as int).last() == ds[n - 1]);
    }
}

/// Two canvases on which the same is believed of every cell.
pub open spec fn same_cells(a: Canvas, b: Canvas) -> bool {
    a.prev == b.prev && a.luma == b.luma && a.debt == b.debt
}

proof fn lemma_same_damage(a: Canvas, b: Canvas, wants: Seq<Wanted>, n: nat)
    requires
        same_cells(a, b),
    ensures
        damages(a, wants, n) == damages(b, wants, n),
    decreases n,
{
    if n > 0 {
        lemma_same_damage(a, b, wants, (n - 1) as nat);
    }
}

proof fn lemma_same_cells_painted(
    a: Canvas,
    b: Canvas,
    ds: Seq<Damage>,
    w: u16,
    tol_a: u16,
    tol_b: u16,
    muted_a: Seq<bool>,
    muted_b: Seq<bool>,
    n: nat,
)
    requires
        same_cells(a, b),
        n <= ds.len() <= u16::MAX * u16::MAX,
    ensures
        same_cells(
            painted(a, unbounded_plan(), ds, w, tol_a, muted_a, n).canvas,
            painted(b, unbounded_plan(), ds, w, tol_b, muted_b, n).canvas,
        ),
    decreases n,
{
    if n > 0 {
        let k = (n - 1) as nat;
        lemma_same_cells_painted(a, b, ds, w, tol_a, tol_b, muted_a, muted_b, k);
        lemma_unbounded_draws_all(a, ds, w, tol_a, muted_a, k);
        lemma_unbounded_draws_all(b, ds, w, tol_b, muted_b, k);
    }
}

/// The canvas after pictures drawn one after the other without a budget.
pub open spec fn redrawn_freely(
    c: Canvas,
    w: u16,
    tol: u16,
    pictures: Seq<Seq<Wanted>>,
    muted: Seq<Muted>,
) -> Canvas
    decreases pictures.len(),
{
    if pictures.len() == 0 {
        c
    } else {
        let i = pictures.len() - 1;
        let before = redrawn_freely(c, w, tol, pictures.drop_last(), muted);
        let est = Estimate { fits: true, allow: 0 };
        frame_painted(before, pictures[i], None, est, w, tol, muted[i]).canvas
    }
}

/// The pen tolerance saves bytes and never changes which cells are damaged:
/// without a budget, two runs of the same pictures under different tolerances
/// believe the same of every cell after each, whatever became of the pens, so
/// the next picture damages the same cells in both.
pub proof fn law_the_pen_tolerance_changes_no_damage(
    c: Canvas,
    w: u16,
    h: u16,
    tol_a: u16,
    tol_b: u16,
    pictures: Seq<Seq<Wanted>>,
    muted_a: Seq<Muted>,
    muted_b: Seq<Muted>,
    next: Seq<Wanted>,
)
    requires
        c.wf(w, h),
        forall|i: int| 0 <= i < pictures.len() ==> (#[trigger] pictures[i]).len() == w * h,
    ensures
        ({
            let a = redrawn_freely(c, w, tol_a, pictures, muted_a);
            let b = redrawn_freely(c, w, tol_b, pictures, muted_b);
            &&& a.wf(w, h)
            &&& b.wf(w, h)
            &&& same_cells(a, b)
            &&& damages(a, next, next.len()) == damages(b, next, next.len())
        }),
    decreases pictures.len(),
{
    let a = redrawn_freely(c, w, tol_a, pictures, muted_a);
    let b = redrawn_freely(c, w, tol_b, pictures, muted_b);
    if pictures.len() > 0 {
        let i = pictures.len() - 1;
        let front = pictures.drop_last();
        let wants = pictures[i];
        let est = Estimate { fits: true, allow: 0 };
        assert forall|j: int| 0 <= j < front.len() implies (#[trigger] front[j]).len() == w * h by {
            assert(front[j] == pictures[j]);
        }
        law_the_pen_tolerance_changes_no_damage(
            c,
            w,
            h,
            tol_a,
            tol_b,
            front,
            muted_a,
            muted_b,
            wants,
        );
        let p = redrawn_freely(c, w, tol_a, front, muted_a);
        let q = redrawn_freely(c, w, tol_b, front, muted_b);
        let ds = damages(p, wants, wants.len());
        lemma_scan_ok(p, wants, w, h);
        assert(settled(p, wants, wants.len()).debt =~= settled(q, wants, wants.len()).debt);
        lemma_same_cells_painted(
            settled(p, wants, wants.len()),
            settled(q, wants, wants.len()),
            ds,
            w,
            tol_a,
            tol_b,
            muted_a[i].whole,
            muted_b[i].whole,
            ds.len(),
        );
        law_every_cell_is_drawn_or_ages(p, wants, None, est, w, h, tol_a, muted_a[i]);
        law_every_cell_is_drawn_or_ages(q, wants, None, est, w, h, tol_b, muted_b[i]);
    }
    lemma_same_damage(a, b, next, next.len());
}

/// One tick of a run: the picture there is to draw, and how it was drawn, or
/// that the terminal was busy and it was not.
pub struct Turn {
    pub wants: Seq<Wanted>,
    pub pass: Option<Pass>,
}

/// The screen, and what is believed of it.
pub struct Stage {
    pub screen: Screen,
    pub canvas: Canvas,
}

/// What a run of ticks leaves, where every frame that is drawn reaches the
/// terminal, and none is drawn while it is busy.
pub open spec fn played(start: Stage, w: u16, tol: u16, turns: Seq<Turn>) -> Stage
    decreases turns.len(),
{
    if turns.len() == 0 {
        start
    } else {
        let before = played(start, w, tol, turns.drop_last());
        let turn = turns.last();
        match turn.pass {
            Some(q) => {
                let p = frame_painted(before.canvas, turn.wants, q.budget, q.est, w, tol, q.muted);
                Stage { screen: obey_all(before.screen, p.ops), canvas: p.canvas }
            },
            None => before,
        }
    }
}

/// Every turn has a picture of the screen's size, and an answer for each damaged
/// cell whether its pen was muted.
pub open spec fn playable(
    start: Stage,
    w: u16,
    h: u16,
    tol: u16,
    turns: Seq<Turn>,
    colours: bool,
) -> bool {
    forall|i: int|
        #![trigger turns[i]]
        0 <= i < turns.len() ==> {
            let c = played(start, w, tol, turns.take(i)).canvas;
            let wants = turns[i].wants;
            &&& wants.len() == w * h
            &&& turns[i].pass matches Some(q) ==> q.muted.covers(
                damages(c, wants, wants.len()).len(),
            ) && (colours ==> q.muted.never())
        }
}

/// Back-pressure cannot corrupt the display. Whichever ticks the terminal was
/// busy in, what is believed of the screen is true after each of them; and a
/// frame drawn without a budget leaves exactly its picture, however many before
/// it were never drawn.
pub proof fn law_skipped_frames_leave_nothing_to_repair(
    start: Stage,
    w: u16,
    h: u16,
    tol: u16,
    turns: Seq<Turn>,
    colours: bool,
)
    requires
        agrees(start.screen, start.canvas, w, h, tol, colours),
        playable(start, w, h, tol, turns, colours),
    ensures
        ({
            let end = played(start, w, tol, turns);
            &&& agrees(end.screen, end.canvas, w, h, tol, colours)
            &&& turns.len() > 0 && turns.last().pass is None ==> end == played(
                start,
                w,
                tol,
                turns.drop_last(),
            )
            &&& turns.len() > 0 && (turns.last().pass matches Some(q) && q.budget is None)
                ==> forall|i: int|
                0 <= i < w * h ==> shows(
                    #[trigger] end.screen.cells[i],
                    turns.last().wants[i].glyph,
                    tol,
                    colours,
                )
        }),
    decreases turns.len(),
{
    if turns.len() > 0 {
        let front = turns.drop_last();
        assert forall|i: int| #![trigger front[i]] 0 <= i < front.len() implies {
            let c = played(start, w, tol, front.take(i)).canvas;
            let wants = front[i].wants;
            &&& wants.len() == w * h
            &&& front[i].pass matches Some(q) ==> q.muted.covers(
                damages(c, wants, wants.len()).len(),
            ) && (colours ==> q.muted.never())
        } by {
            assert(front[i] == turns[i]);
            assert(front.take(i) =~= turns.take(i));
        }
        law_skipped_frames_leave_nothing_to_repair(start, w, h, tol, front, colours);
        let before = played(start, w, tol, front);
        let turn = turns[turns.len() - 1];
        assert(turns.take(turns.len() - 1) =~= front);
        assert(turn.wants.len() == w * h);
        if let Some(q) = turn.pass {
            law_the_screen_is_as_believed(
                before.screen,
                before.canvas,
                turn.wants,
                q.budget,
                q.est,
                w,
                h,
                tol,
                q.muted,
                colours,
            );
            if q.budget is None {
                law_the_screen_matches_after_a_coalesced_frame(
                    before.screen,
                    before.canvas,
                    turn.wants,
                    q.est,
                    w,
                    h,
                    tol,
                    q.muted,
                    colours,
                );
            }
        }
    }
}

/// Whatever else moved the cursor or set the pen, forgetting both makes the
/// belief true again: every cell is still as believed, and nothing is claimed
/// of what was disturbed.
pub proof fn law_forgetting_makes_the_belief_true_again(
    s: Screen,
    c: Canvas,
    disturbed: Screen,
    w: u16,
    h: u16,
    tol: u16,
    colours: bool,
)
    requires
        agrees(s, c, w, h, tol, colours),
        disturbed == (Screen { x: disturbed.x, y: disturbed.y, pen: disturbed.pen, ..s }),
    ensures
        agrees(disturbed, (Canvas { pen: None, at: None, ..c }), w, h, tol, colours),
{
}

/// The most visible go first. Where a cell that could have waited is drawn and
/// one that ranks higher is not, the one that is not came after the budget was
/// spent: until then nothing is passed over for what ranks lower.
pub proof fn law_the_most_visible_go_first(
    c: Canvas,
    wants: Seq<Wanted>,
    budget: usize,
    est: Estimate,
    w: u16,
    h: u16,
    tol: u16,
    muted: Muted,
    drawn: int,
    held: int,
)
    requires
        c.wf(w, h),
        wants.len() == w * h,
        ({
            let ds = damages(c, wants, wants.len());
            &&& 0 <= drawn < ds.len()
            &&& 0 <= held < ds.len()
            &&& !ds[drawn].forced
            &&& {
                let (i, j) = (ds[drawn].idx as int, ds[held].idx as int);
                score_of(wants[i], c.luma[i], c.debt[i]) < score_of(wants[j], c.luma[j], c.debt[j])
            }
        }),
        frame_upto(c, wants, Some(budget), est, w, tol, muted, (drawn + 1) as nat).drawn
            > frame_upto(c, wants, Some(budget), est, w, tol, muted, drawn as nat).drawn,
        frame_upto(c, wants, Some(budget), est, w, tol, muted, (held + 1) as nat).drawn
            == frame_upto(c, wants, Some(budget), est, w, tol, muted, held as nat).drawn,
    ensures
        frame_upto(c, wants, Some(budget), est, w, tol, muted, held as nat).spent >= budget,
{
    let ds = damages(c, wants, wants.len());
    lemma_grid_size(w as int, h as int);
    lemma_damages(c, wants, wants.len());
    let plan = frame_plan(c, wants, Some(budget), est, w, tol, muted);
    let a = frame_upto(c, wants, Some(budget), est, w, tol, muted, drawn as nat);
    let b = frame_upto(c, wants, Some(budget), est, w, tol, muted, held as nat);
    let (dd, dh) = (ds[drawn], ds[held]);
    assert(dd.idx < wants.len() && dh.idx < wants.len());
    assert(c.debt[dd.idx as int] <= MAX_DEFER && c.debt[dh.idx as int] <= MAX_DEFER);
    assert(dh.score > dd.score);
    assert(admits(a, plan, dd));
    assert(!admits(b, plan, dh));
    if !too_dear(c, wants, Some(budget), w, tol, muted.whole) {
        lemma_unbounded_draws_all(
            settled(c, wants, wants.len()),
            ds,
            w,
            tol,
            muted.whole,
            held as nat,
        );
        lemma_unbounded_draws_all(
            settled(c, wants, wants.len()),
            ds,
            w,
            tol,
            muted.whole,
            (held + 1) as nat,
        );
    }
}

proof fn lemma_picked_exactly(
    c: Canvas,
    plan: Plan,
    ds: Seq<Damage>,
    w: u16,
    tol: u16,
    muted: Seq<bool>,
    n: nat,
)
    requires
        n <= ds.len(),
    ensures
        ({
            let p = painted(c, plan, ds, w, tol, muted, n);
            let front = ds.take(n as int);
            under_cap(p.spent, plan.cap) ==> {
                &&& p.drawn + p.partial == p.forced + at_or_above(front, plan.threshold + 1)
                    + plan.partial
                &&& p.partial == (if plan.partial >= scoring(front, plan.threshold as int) {
                    plan.partial - scoring(front, plan.threshold as int)
                } else {
                    0
                })
            }
        }),
    decreases n,
{
    if n > 0 {
        lemma_picked_exactly(c, plan, ds, w, tol, muted, (n - 1) as nat);
        assert(ds.take(n as int).drop_last() =~= ds.take(n - 1));
        assert(ds.take(n as int).last() == ds[n - 1]);
    }
}

proof fn lemma_forced_or_not(ds: Seq<Damage>)
    ensures
        forced_in(ds) + at_or_above(ds, 0) == ds.len(),
    decreases ds.len(),
{
    if ds.len() > 0 {
        lemma_forced_or_not(ds.drop_last());
    }
}

/// What the budget is expected to buy is bought. In a frame that costs more than
/// its budget, as many cells that could have waited are drawn as are affordable,
/// one at least, or all of them where there are fewer or all are expected to
/// fit, unless the budget was spent first. Never more of them are drawn, and
/// those past their deadline are drawn besides.
pub proof fn law_what_is_affordable_is_drawn(
    c: Canvas,
    wants: Seq<Wanted>,
    budget: usize,
    est: Estimate,
    w: u16,
    h: u16,
    tol: u16,
    muted: Muted,
)
    requires
        c.wf(w, h),
        wants.len() == w * h,
        too_dear(c, wants, Some(budget), w, tol, muted.whole),
    ensures
        ({
            let p = frame_painted(c, wants, Some(budget), est, w, tol, muted);
            let ds = damages(c, wants, wants.len());
            let most = if est.allow < 1 {
                1
            } else {
                est.allow as int
            };
            let free = ds.len() - forced_in(ds);
            &&& p.forced == forced_in(ds)
            &&& p.drawn <= ds.len()
            &&& !est.fits ==> p.drawn - p.forced <= most
            &&& p.spent < budget && (est.fits || free <= most) ==> p.drawn == ds.len()
            &&& p.spent < budget && !est.fits && free > most ==> p.drawn - p.forced == most
        }),
{
    let ds = damages(c, wants, wants.len());
    let s = settled(c, wants, wants.len());
    let plan = plan_for(ds, budget, est);
    let allow = allowance(est);
    lemma_grid_size(w as int, h as int);
    lemma_damages(c, wants, wants.len());
    lemma_drawn_at_most(s, plan, ds, w, tol, muted.cut, ds.len());
    lemma_forced_all_drawn(s, plan, ds, w, tol, muted.cut, ds.len());
    lemma_forced_or_not(ds);
    lemma_picked_exactly(s, plan, ds, w, tol, muted.cut, ds.len());
    assert(ds.take(ds.len() as int) =~= ds);
    if !est.fits {
        law_no_more_cells_than_the_budget_buys(c, wants, budget, est, w, h, tol, muted);
    }
    if est.fits || at_or_above(ds, 0) <= allow {
        lemma_at_or_above_step(ds, 0);
    } else {
        lemma_nothing_above(ds);
        lemma_cutoff(ds, allow as nat, HEAD_SCORE as int);
        lemma_at_or_above_step(ds, cutoff(ds, allow as nat, HEAD_SCORE as int));
    }
}

/// A cell's brightness is remembered with what it shows: that of the picture
/// where the picture was drawn, and the one before where it was not.
pub proof fn law_the_brightness_goes_with_the_glyph(
    c: Canvas,
    wants: Seq<Wanted>,
    budget: Option<usize>,
    est: Estimate,
    w: u16,
    h: u16,
    tol: u16,
    muted: Muted,
    i: int,
)
    requires
        c.wf(w, h),
        wants.len() == w * h,
        0 <= i < w * h,
    ensures
        ({
            let after = frame_painted(c, wants, budget, est, w, tol, muted).canvas;
            let up = c.prev[i] == Belief::Shows(wants[i].glyph);
            let drawn = after.prev[i] == Belief::Shows(wants[i].glyph);
            &&& !up && drawn ==> after.luma[i] == wants[i].luma && after.debt[i] == 0
            &&& !up && !drawn ==> after.luma[i] == c.luma[i] && after.debt[i] == c.debt[i] + 1
            &&& up ==> drawn && after.luma[i] == c.luma[i] && after.debt[i] == 0
            &&& after.debt[i] <= 8
            &&& c.debt[i] >= 8 ==> drawn
        }),
{
    lemma_scan_ok(c, wants, w, h);
    lemma_grid_size(w as int, h as int);
    lemma_damages(c, wants, wants.len());
    let s = settled(c, wants, wants.len());
    let ds = damages(c, wants, wants.len());
    let plan = frame_plan(c, wants, budget, est, w, tol, muted);
    let m = frame_muted(c, wants, budget, w, tol, muted);
    lemma_painted_cells(s, plan, ds, w, h, tol, m, ds.len());
    let after = frame_painted(c, wants, budget, est, w, tol, muted).canvas;
    assert(after.debt[i] <= MAX_DEFER);
    assert(c.debt[i] <= MAX_DEFER);
    if c.prev[i] != Belief::Shows(wants[i].glyph) {
        let k = lemma_damage_found(c, wants, wants.len(), i);
        assert(ds[k].want == wants[i].glyph);
        assert(s.debt[i] == c.debt[i]);
    } else {
        assert forall|k: int| #![trigger ds[k]] 0 <= k < ds.len() implies ds[k].idx != i by {}
        assert(after.prev[i] == s.prev[i]);
    }
}

/// A frame asks for the price of what it damages: as many cells as differ from
/// what is believed of them, and those of them that have waited eight frames.
pub proof fn law_the_price_is_asked_for_the_damage(c: Canvas, wants: Seq<Wanted>, w: u16, h: u16)
    requires
        c.wf(w, h),
        wants.len() == w * h,
    ensures
        frame_question(c, wants).0 == differing(c, wants, wants.len(), 0),
        frame_question(c, wants).1 == differing(c, wants, wants.len(), 8),
{
    lemma_grid_size(w as int, h as int);
    lemma_differing(c, wants, wants.len());
}

/// How many of the first `n` cells differ from what is believed of them and have
/// waited so many frames.
pub open spec fn differing(c: Canvas, wants: Seq<Wanted>, n: nat, waited: u8) -> nat
    decreases n,
{
    if n == 0 {
        0
    } else {
        differing(c, wants, (n - 1) as nat, waited) + (if c.prev[n - 1] != Belief::Shows(
            wants[n - 1].glyph,
        ) && c.debt[n - 1] >= waited {
            1nat
        } else {
            0nat
        })
    }
}

proof fn lemma_differing(c: Canvas, wants: Seq<Wanted>, n: nat)
    ensures
        damages(c, wants, n).len() == differing(c, wants, n, 0),
        forced_in(damages(c, wants, n)) == differing(c, wants, n, 8),
        differing(c, wants, n, 0) <= n,
        differing(c, wants, n, 8) <= n,
    decreases n,
{
    if n > 0 {
        lemma_differing(c, wants, (n - 1) as nat);
        let rest = damages(c, wants, (n - 1) as nat);
        let d = damage_at(c, wants, n - 1);
        assert(rest.push(d).drop_last() =~= rest);
    }
}

/// Getting to a cell costs no more than an absolute move: nothing where the
/// cursor is there already, two bytes to the cell below the one just printed, and
/// along a row no more than the distance takes to write. Only where it is not
/// known where the cursor is, or nothing shorter leads there, is the move
/// absolute.
pub proof fn law_the_shortest_way_to_a_cell(at: Option<(u16, u16)>, x: u16, y: u16)
    ensures
        encode_all(move_ops(at, x, y)).len() <= encode(Op::MoveTo { x, y }).len(),
        at == Some((x, y)) ==> encode_all(move_ops(at, x, y)).len() == 0,
        at matches Some((cx, cy)) && cx == x + 1 && cy + 1 == y ==> encode_all(
            move_ops(at, x, y),
        ).len() == 2,
        at matches Some((cx, cy)) ==> (cy == y && cx < x ==> encode_all(move_ops(at, x, y)).len()
            == 3 + decimal((x - cx) as nat).len()),
        at is None ==> encode_all(move_ops(at, x, y)) == encode(Op::MoveTo { x, y }),
{
    let ops = move_ops(at, x, y);
    lemma_decimal_grows((x + 1) as nat);
    lemma_decimal_grows((y + 1) as nat);
    if ops.len() == 1 {
        assert(ops =~= seq![ops[0]]);
        lemma_encode_one(ops[0]);
        if let Op::MoveRight(n) = ops[0] {
            lemma_decimal_ordered(n as nat, (x + 1) as nat);
        }
    }
}

proof fn lemma_decimal_grows(n: nat)
    ensures
        decimal(n).len() >= 1,
    decreases n,
{
    if n >= 10 {
        lemma_decimal_grows(n / 10);
    }
}

proof fn lemma_decimal_ordered(a: nat, b: nat)
    requires
        a <= b,
    ensures
        decimal(a).len() <= decimal(b).len(),
    decreases b,
{
    lemma_decimal_grows(b);
    if a >= 10 {
        lemma_decimal_ordered(a / 10, b / 10);
    } else if b >= 10 {
        lemma_decimal_grows(b / 10);
    }
}

/// The pen is set only where it has to be: never for a blank, never where the one
/// in hand is within the tolerance, and always where none is known or the one in
/// hand is too far off. What is set is the wanted colour itself, so that errors do
/// not add up along a row.
pub proof fn law_the_pen_is_set_only_where_it_has_to_be(
    pen: Option<Color>,
    want: Option<Glyph>,
    tol: u16,
    muted: bool,
)
    ensures
        want is None ==> pen_ops(pen, want, tol, muted).len() == 0 && pen_after(pen, want, tol)
            == pen,
        want matches Some(g) ==> {
            let near = pen matches Some(p) && close_enough(p, g.color, tol);
            &&& near ==> pen_ops(pen, want, tol, muted).len() == 0 && pen_after(pen, want, tol)
                == pen
            &&& !near ==> pen_ops(pen, want, tol, muted) == seq![
                Op::Pen { color: g.color, muted },
            ] && pen_after(pen, want, tol) == Some(g.color)
        },
{
}

/// Printing a cell leaves the cursor on its right neighbour, and that is known;
/// only in the last column, where a terminal's cursor stalls, it is not.
pub proof fn law_the_cursor_is_known_but_at_the_edge(w: u16, h: u16, x: u16, y: u16)
    requires
        x < w,
        y < h,
    ensures
        x + 1 < w ==> at_after((y * w + x) as u32, w) == Some(((x + 1) as u16, y)),
        x + 1 == w ==> at_after((y * w + x) as u32, w) is None,
{
    lemma_grid_index(w as int, h as int, x as int, y as int);
}

} // verus!
