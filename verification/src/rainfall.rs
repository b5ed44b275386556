//! What holds of the rain whatever falls.

use crate::bits::{le, lemma_stands_for, lt, nan, stands_for, ONE, ZERO};
use crate::chance::{index_draw, seed_state};
use crate::rain::{
    advanced, barren, churn_count, churned, cleared, cooled, dark, enter_row, faded_cell, fallen,
    falls_fit, in_pool, kept, launched, lemma_picked, lit, needed, phase_after, pictured, poured,
    rained_on, rerolled, spawned, unheaded, Cell, Drawn, Drop, Fall, Falling, Field, Launch, Need,
    Phase, Start, EPS, IDLE_DECAY,
};
use crate::render::Sample;
use crate::theme::Rgb;
use vstd::arithmetic::power2::lemma2_to64;
use crate::grid::{lemma_grid_index, lemma_grid_size};
use vstd::prelude::*;

verus! {

/// No dark cell holds a glyph or is a head. Cells are blanked by glow alone, so
/// one that kept its glyph would leave a permanent smudge on screen.
pub open spec fn dark_is_blank(cells: Seq<Cell>) -> bool {
    forall|i: int| 0 <= i < cells.len() && !lit(#[trigger] cells[i]) ==> cells[i] == dark()
}

/// No cell holds anything but a blank.
pub open spec fn all_blank(cells: Seq<Cell>) -> bool {
    forall|i: int| 0 <= i < cells.len() ==> (#[trigger] cells[i]).ch == ' '
}

/// Cell `i` is on column `x`.
pub open spec fn in_column(w: u16, h: u16, x: int, i: int) -> bool {
    0 <= i < w * h && i % (w as int) == x
}

/// Every head on column `x` is the head of one of its drops.
pub open spec fn heads_owned(cells: Seq<Cell>, w: u16, h: u16, x: int, drops: Seq<Drop>) -> bool {
    forall|i: int|
        #![trigger cells[i]]
        in_column(w, h, x, i) && cells[i].head ==> exists|k: int|
            #![trigger drops[k]]
            0 <= k < drops.len() && drops[k].head_idx == Some(i as usize)
}

/// A drop's head is the cell on the row the drop is at, which is on the grid.
pub open spec fn drop_tidy(w: u16, h: u16, x: int, d: Drop) -> bool {
    match d.head_idx {
        Some(i) => 0 <= d.at < h && i == d.at * w + x,
        None => true,
    }
}

/// Nothing on the grid is marked as a head but the heads of drops, each on its
/// own drop's row.
pub open spec fn tidy(s: Field) -> bool {
    &&& s.wf()
    &&& forall|x: int|
        #![trigger s.cols[x]]
        0 <= x < s.w ==> heads_owned(s.cells, s.w, s.h, x, s.cols[x].drops)
    &&& forall|x: int, k: int|
        #![trigger s.cols[x].drops[k]]
        0 <= x < s.w && 0 <= k < s.cols[x].drops.len() ==> drop_tidy(
            s.w,
            s.h,
            x,
            s.cols[x].drops[k],
        )
}

/// Drops only fall, and one that is retired has left the grid.
pub open spec fn falls_down(s: Field, falls: Seq<Vec<Fall>>) -> bool {
    forall|x: int, k: int|
        #![trigger falls[x]@[k]]
        0 <= x < s.w && 0 <= k < s.cols[x].drops.len() ==> {
            &&& s.cols[x].drops[k].at <= falls[x]@[k].floor
            &&& falls[x]@[k].gone ==> falls[x]@[k].floor >= s.h
        }
}

/// What a row entered keeps: the size of the grid, dark cells blank, and
/// everything blank where there are no glyphs.
proof fn lemma_enter_row_kept(
    f: Falling,
    glyphs: Seq<char>,
    w: u16,
    h: u16,
    x: int,
    r: int,
    decay: u32,
)
    requires
        f.cells.len() == w * h,
        0 <= x < w,
    ensures
        enter_row(f, glyphs, w, h, x, r, decay).cells.len() == w * h,
        dark_is_blank(f.cells) ==> dark_is_blank(enter_row(f, glyphs, w, h, x, r, decay).cells),
        glyphs.len() == 0 && all_blank(f.cells) ==> all_blank(
            enter_row(f, glyphs, w, h, x, r, decay).cells,
        ),
{
    let g = enter_row(f, glyphs, w, h, x, r, decay);
    if 0 <= r < h {
        lemma_grid_index(w as int, h as int, x, r);
    }
    if dark_is_blank(f.cells) {
        assert forall|i: int| 0 <= i < g.cells.len() && !lit(#[trigger] g.cells[i]) implies g.cells[i]
            == dark() by {
            assert(f.cells[i] == dark() || lit(f.cells[i]));
        }
    }
    if glyphs.len() == 0 && all_blank(f.cells) {
        assert forall|i: int| 0 <= i < g.cells.len() implies (#[trigger] g.cells[i]).ch == ' ' by {
            assert(f.cells[i].ch == ' ');
        }
    }
}

proof fn lemma_fallen_kept(
    f: Falling,
    glyphs: Seq<char>,
    w: u16,
    h: u16,
    x: int,
    decay: u32,
    from: int,
    to: int,
)
    requires
        f.cells.len() == w * h,
        0 <= x < w,
    ensures
        fallen(f, glyphs, w, h, x, decay, from, to).cells.len() == w * h,
        dark_is_blank(f.cells) ==> dark_is_blank(
            fallen(f, glyphs, w, h, x, decay, from, to).cells,
        ),
        glyphs.len() == 0 && all_blank(f.cells) ==> all_blank(
            fallen(f, glyphs, w, h, x, decay, from, to).cells,
        ),
    decreases to - from,
{
    if to > from {
        lemma_fallen_kept(f, glyphs, w, h, x, decay, from, to - 1);
        let g = fallen(f, glyphs, w, h, x, decay, from, to - 1);
        lemma_enter_row_kept(g, glyphs, w, h, x, to, decay);
    }
}

proof fn lemma_poured_kept(
    cells: Seq<Cell>,
    rng: Seq<u8>,
    drops: Seq<Drop>,
    falls: Seq<Fall>,
    glyphs: Seq<char>,
    w: u16,
    h: u16,
    x: int,
    n: nat,
)
    requires
        cells.len() == w * h,
        0 <= x < w,
        n <= drops.len(),
    ensures
        poured(cells, rng, drops, falls, glyphs, w, h, x, n).cells.len() == w * h,
        poured(cells, rng, drops, falls, glyphs, w, h, x, n).drops.len() == n,
        dark_is_blank(cells) ==> dark_is_blank(
            poured(cells, rng, drops, falls, glyphs, w, h, x, n).cells,
        ),
        glyphs.len() == 0 && all_blank(cells) ==> all_blank(
            poured(cells, rng, drops, falls, glyphs, w, h, x, n).cells,
        ),
    decreases n,
{
    if n > 0 {
        lemma_poured_kept(cells, rng, drops, falls, glyphs, w, h, x, (n - 1) as nat);
        let p = poured(cells, rng, drops, falls, glyphs, w, h, x, (n - 1) as nat);
        let d = drops[n - 1];
        lemma_fallen_kept(
            Falling { cells: p.cells, rng: p.rng, head: d.head_idx },
            glyphs,
            w,
            h,
            x,
            falls[n - 1].decay,
            d.at as int,
            falls[n - 1].floor as int,
        );
    }
}

proof fn lemma_advanced_kept(s: Field, falls: Seq<Vec<Fall>>, n: nat)
    requires
        s.wf(),
        n <= s.w,
    ensures
        advanced(s, falls, n).wf(),
        advanced(s, falls, n).w == s.w,
        advanced(s, falls, n).h == s.h,
        advanced(s, falls, n).glyphs == s.glyphs,
        forall|x: int| n <= x < s.w ==> advanced(s, falls, n).cols[x] == s.cols[x],
        dark_is_blank(s.cells) ==> dark_is_blank(advanced(s, falls, n).cells),
        s.glyphs.len() == 0 && all_blank(s.cells) ==> all_blank(advanced(s, falls, n).cells),
    decreases n,
{
    if n > 0 {
        lemma_advanced_kept(s, falls, (n - 1) as nat);
        let q = advanced(s, falls, (n - 1) as nat);
        let x = n - 1;
        lemma_poured_kept(
            q.cells,
            q.rng,
            q.cols[x].drops,
            falls[x]@,
            s.glyphs,
            s.w,
            s.h,
            x,
            q.cols[x].drops.len(),
        );
    }
}

proof fn lemma_churned_kept(cells: Seq<Cell>, rng: Seq<u8>, glyphs: Seq<char>, n: nat)
    ensures
        churned(cells, rng, glyphs, n).0.len() == cells.len(),
        forall|i: int|
            0 <= i < cells.len() ==> {
                let c = #[trigger] churned(cells, rng, glyphs, n).0[i];
                &&& c.glow == cells[i].glow
                &&& c.decay == cells[i].decay
                &&& c.head == cells[i].head
                &&& cells[i].head || !lt(EPS, cells[i].glow) ==> c == cells[i]
                &&& glyphs.len() == 0 && cells[i].ch == ' ' ==> c.ch == ' '
            },
    decreases n,
{
    if n > 0 {
        lemma_churned_kept(cells, rng, glyphs, (n - 1) as nat);
    }
}

/// A dark cell never keeps a stale glyph: fading preserves that, for glows that
/// fade to numbers.
pub proof fn law_fading_leaves_the_dark_blank(cells: Seq<Cell>, faded: Seq<u32>)
    requires
        dark_is_blank(cells),
        faded.len() == cells.len(),
        forall|i: int| 0 <= i < faded.len() ==> !nan(#[trigger] faded[i]),
    ensures
        dark_is_blank(
            Seq::new(faded.len(), |i: int| faded_cell(cells[i], faded[i])),
        ),
{
    let after = Seq::new(faded.len(), |i: int| faded_cell(cells[i], faded[i]));
    assert forall|i: int| 0 <= i < after.len() && !lit(#[trigger] after[i]) implies after[i]
        == dark() by {
        assert(!nan(faded[i]));
        assert(!lit(cells[i]) ==> cells[i] == dark());
    }
}

/// A dark cell never keeps a stale glyph: falling drops preserve that.
pub proof fn law_falling_leaves_the_dark_blank(s: Field, falls: Seq<Vec<Fall>>)
    requires
        s.wf(),
        dark_is_blank(s.cells),
    ensures
        dark_is_blank(advanced(s, falls, s.cols.len()).cells),
{
    lemma_advanced_kept(s, falls, s.cols.len());
}

/// A dark cell never keeps a stale glyph: churning preserves that, as it only
/// touches lit cells. It changes glyphs and nothing else, and no head's.
pub proof fn law_churning_touches_lit_glyphs_only(
    cells: Seq<Cell>,
    rng: Seq<u8>,
    glyphs: Seq<char>,
    n: nat,
)
    requires
        dark_is_blank(cells),
    ensures
        dark_is_blank(churned(cells, rng, glyphs, n).0),
        churned(cells, rng, glyphs, n).0.len() == cells.len(),
        forall|i: int|
            0 <= i < cells.len() ==> {
                let c = #[trigger] churned(cells, rng, glyphs, n).0[i];
                &&& c == (Cell { ch: c.ch, ..cells[i] })
                &&& cells[i].head || !lt(EPS, cells[i].glow) ==> c == cells[i]
            },
{
    lemma_churned_kept(cells, rng, glyphs, n);
    let after = churned(cells, rng, glyphs, n).0;
    assert forall|i: int| 0 <= i < after.len() && !lit(#[trigger] after[i]) implies after[i]
        == dark() by {
        assert(!lit(cells[i]));
    }
}

/// An empty glyph pool gives blank rain: whatever falls or churns, no cell ever
/// holds anything but a blank.
pub proof fn law_no_glyphs_no_rain(s: Field, falls: Seq<Vec<Fall>>, n: nat)
    requires
        s.wf(),
        s.glyphs.len() == 0,
        all_blank(s.cells),
    ensures
        all_blank(advanced(s, falls, s.cols.len()).cells),
        all_blank(churned(s.cells, s.rng, s.glyphs, n).0),
{
    lemma_advanced_kept(s, falls, s.cols.len());
    lemma_churned_kept(s.cells, s.rng, s.glyphs, n);
}

/// A new grid starts tidy, blank and dark.
pub proof fn law_a_resize_clears(s: Field, w: u16, h: u16, starts: Seq<Start>)
    requires
        starts.len() == w,
    ensures
        cleared(s, w, h, starts).wf(),
        tidy(cleared(s, w, h, starts)),
        dark_is_blank(cleared(s, w, h, starts).cells),
        all_blank(cleared(s, w, h, starts).cells),
        forall|i: int|
            0 <= i < w * h ==> !lit(#[trigger] cleared(s, w, h, starts).cells[i]),
{
    lemma_grid_size(w as int, h as int);
}

/// The heads of the drops of a column, seen as a list: one drop moves.
proof fn lemma_enter_row_heads(
    f: Falling,
    glyphs: Seq<char>,
    w: u16,
    h: u16,
    x: int,
    r: int,
    decay: u32,
    drops: Seq<Drop>,
    j: int,
    moved: Drop,
)
    requires
        f.cells.len() == w * h,
        0 <= x < w,
        0 <= j < drops.len(),
        drops[j].head_idx == f.head,
        heads_owned(f.cells, w, h, x, drops),
        f.head matches Some(p) ==> in_column(w, h, x, p as int),
        moved.head_idx == enter_row(f, glyphs, w, h, x, r, decay).head,
    ensures
        ({
            let g = enter_row(f, glyphs, w, h, x, r, decay);
            &&& heads_owned(g.cells, w, h, x, drops.update(j, moved))
            &&& g.head matches Some(p) ==> in_column(w, h, x, p as int) && p == r * w + x && 0 <= r
                < h
            &&& 0 <= r < h ==> g.head is Some
            &&& forall|i: int|
                0 <= i < w * h && i % (w as int) != x ==> #[trigger] g.cells[i] == f.cells[i]
        }),
{
    let g = enter_row(f, glyphs, w, h, x, r, decay);
    let after = drops.update(j, moved);
    lemma_grid_size(w as int, h as int);
    if 0 <= r < h {
        lemma_grid_index(w as int, h as int, x, r);
    }
    assert forall|i: int|
        #![trigger g.cells[i]]
        in_column(w, h, x, i) && g.cells[i].head implies exists|k: int|
        #![trigger after[k]]
        0 <= k < after.len() && after[k].head_idx == Some(i as usize) by {
        if 0 <= r < h && i == r * w + x {
            assert(after[j].head_idx == Some(i as usize));
        } else {
            assert(f.cells[i].head);
            let k = choose|k: int|
                #![trigger drops[k]]
                0 <= k < drops.len() && drops[k].head_idx == Some(i as usize);
            assert(drops[k].head_idx == Some(i as usize));
            if k == j {
                assert(f.head == Some(i as usize));
                assert(unheaded(f.cells, f.head)[i].head == false);
            }
            assert(after[k] == drops[k]);
        }
    }
}

proof fn lemma_fallen_heads(
    f: Falling,
    glyphs: Seq<char>,
    w: u16,
    h: u16,
    x: int,
    decay: u32,
    from: int,
    to: int,
    drops: Seq<Drop>,
    j: int,
    moved: Drop,
)
    requires
        f.cells.len() == w * h,
        0 <= x < w,
        0 <= j < drops.len(),
        drops[j].head_idx == f.head,
        heads_owned(f.cells, w, h, x, drops),
        f.head matches Some(p) ==> 0 <= from < h && p == from * w + x,
        from <= to,
        moved.head_idx == fallen(f, glyphs, w, h, x, decay, from, to).head,
    ensures
        ({
            let g = fallen(f, glyphs, w, h, x, decay, from, to);
            &&& g.cells.len() == w * h
            &&& heads_owned(g.cells, w, h, x, drops.update(j, moved))
            &&& g.head matches Some(p) ==> 0 <= to < h && p == to * w + x
            &&& from < to && 0 <= to < h ==> g.head is Some
            &&& forall|i: int|
                0 <= i < w * h && i % (w as int) != x ==> #[trigger] g.cells[i] == f.cells[i]
        }),
    decreases to - from,
{
    if f.head is Some {
        lemma_grid_index(w as int, h as int, x, from);
    }
    if to <= from {
        let after = drops.update(j, moved);
        assert forall|i: int|
            #![trigger f.cells[i]]
            in_column(w, h, x, i) && f.cells[i].head implies exists|k: int|
            #![trigger after[k]]
            0 <= k < after.len() && after[k].head_idx == Some(i as usize) by {
            let k = choose|k: int|
                #![trigger drops[k]]
                0 <= k < drops.len() && drops[k].head_idx == Some(i as usize);
            assert(after[k].head_idx == drops[k].head_idx);
        }
    } else {
        let g = fallen(f, glyphs, w, h, x, decay, from, to - 1);
        let between = Drop { head_idx: g.head, ..moved };
        lemma_fallen_heads(f, glyphs, w, h, x, decay, from, to - 1, drops, j, between);
        if g.head is Some {
            lemma_grid_index(w as int, h as int, x, to - 1);
        }
        let mid = drops.update(j, between);
        lemma_enter_row_heads(g, glyphs, w, h, x, to, decay, mid, j, moved);
        lemma_enter_row_kept(g, glyphs, w, h, x, to, decay);
        assert(mid.update(j, moved) =~= drops.update(j, moved));
    }
}

/// Drops moved so far, followed by those still to move.
spec fn halfway(moved: Seq<Drop>, drops: Seq<Drop>) -> Seq<Drop> {
    Seq::new(
        drops.len(),
        |k: int|
            if k < moved.len() {
                moved[k]
            } else {
                drops[k]
            },
    )
}

proof fn lemma_poured_heads(
    cells: Seq<Cell>,
    rng: Seq<u8>,
    drops: Seq<Drop>,
    falls: Seq<Fall>,
    glyphs: Seq<char>,
    w: u16,
    h: u16,
    x: int,
    n: nat,
)
    requires
        cells.len() == w * h,
        0 <= x < w,
        n <= drops.len(),
        heads_owned(cells, w, h, x, drops),
        forall|k: int| 0 <= k < drops.len() ==> drop_tidy(w, h, x, #[trigger] drops[k]),
        forall|k: int|
            #![trigger falls[k]]
            0 <= k < drops.len() ==> drops[k].at <= falls[k].floor,
    ensures
        ({
            let p = poured(cells, rng, drops, falls, glyphs, w, h, x, n);
            &&& p.drops.len() == n
            &&& p.cells.len() == w * h
            &&& heads_owned(p.cells, w, h, x, halfway(p.drops, drops))
            &&& forall|k: int|
                0 <= k < n ==> drop_tidy(w, h, x, #[trigger] p.drops[k]) && p.drops[k].at
                    == falls[k].floor
            &&& forall|i: int|
                0 <= i < w * h && i % (w as int) != x ==> #[trigger] p.cells[i] == cells[i]
        }),
    decreases n,
{
    if n == 0 {
        assert(halfway(Seq::<Drop>::empty(), drops) =~= drops);
    } else {
        lemma_poured_heads(cells, rng, drops, falls, glyphs, w, h, x, (n - 1) as nat);
        let q = poured(cells, rng, drops, falls, glyphs, w, h, x, (n - 1) as nat);
        let p = poured(cells, rng, drops, falls, glyphs, w, h, x, n);
        let d = drops[n - 1];
        let fall = falls[n - 1];
        assert(drop_tidy(w, h, x, d));
        let f = Falling { cells: q.cells, rng: q.rng, head: d.head_idx };
        let half = halfway(q.drops, drops);
        assert(half[n - 1] == d);
        let moved = p.drops[n - 1];
        lemma_fallen_heads(
            f,
            glyphs,
            w,
            h,
            x,
            fall.decay,
            d.at as int,
            fall.floor as int,
            half,
            n - 1,
            moved,
        );
        assert(half.update(n - 1, moved) =~= halfway(p.drops, drops));
        assert forall|k: int| 0 <= k < n implies drop_tidy(w, h, x, #[trigger] p.drops[k])
            && p.drops[k].at == falls[k].floor by {
            if k < n - 1 {
                assert(p.drops[k] == q.drops[k]);
                assert(drop_tidy(w, h, x, q.drops[k]));
            }
        }
    }
}

proof fn lemma_kept_heads(
    cells: Seq<Cell>,
    w: u16,
    h: u16,
    x: int,
    drops: Seq<Drop>,
    falls: Seq<Fall>,
    n: nat,
)
    requires
        n <= drops.len(),
        forall|k: int| #![trigger drops[k]] 0 <= k < drops.len() ==> drop_tidy(w, h, x, drops[k]),
        forall|k: int|
            #![trigger drops[k]]
            0 <= k < drops.len() && falls[k].gone ==> drops[k].head_idx is None,
    ensures
        forall|k: int|
            #![trigger kept(drops, falls, n)[k]]
            0 <= k < kept(drops, falls, n).len() ==> drop_tidy(w, h, x, kept(drops, falls, n)[k]),
        forall|j: int|
            #![trigger drops[j]]
            0 <= j < n && drops[j].head_idx is Some ==> exists|k: int|
                #![trigger kept(drops, falls, n)[k]]
                0 <= k < kept(drops, falls, n).len() && kept(drops, falls, n)[k] == drops[j],
    decreases n,
{
    if n > 0 {
        lemma_kept_heads(cells, w, h, x, drops, falls, (n - 1) as nat);
        let before = kept(drops, falls, (n - 1) as nat);
        let after = kept(drops, falls, n);
        assert forall|j: int|
            #![trigger drops[j]]
            0 <= j < n && drops[j].head_idx is Some implies exists|k: int|
            #![trigger after[k]]
            0 <= k < after.len() && after[k] == drops[j] by {
            if j == n - 1 {
                assert(after[after.len() - 1] == drops[j]);
            } else {
                let k = choose|k: int|
                    #![trigger before[k]]
                    0 <= k < before.len() && before[k] == drops[j];
                assert(after[k] == before[k]);
            }
        }
    }
}

proof fn lemma_advanced_tidy(s: Field, falls: Seq<Vec<Fall>>, n: nat)
    requires
        tidy(s),
        falls_fit(s.cols, falls),
        falls_down(s, falls),
        n <= s.w,
    ensures
        tidy(advanced(s, falls, n)),
    decreases n,
{
    if n > 0 {
        lemma_advanced_tidy(s, falls, (n - 1) as nat);
        lemma_advanced_kept(s, falls, (n - 1) as nat);
        lemma_advanced_kept(s, falls, n);
        let q = advanced(s, falls, (n - 1) as nat);
        let a = advanced(s, falls, n);
        let x = n - 1;
        let drops = q.cols[x].drops;
        assert(q.cols[x] == s.cols[x]);
        assert(falls[x]@.len() == drops.len());
        assert forall|k: int| #![trigger falls[x]@[k]] 0 <= k < drops.len() implies drops[k].at
            <= falls[x]@[k].floor by {}
        assert forall|k: int| 0 <= k < drops.len() implies drop_tidy(
            s.w,
            s.h,
            x,
            #[trigger] drops[k],
        ) by {
            assert(drop_tidy(q.w, q.h, x, q.cols[x].drops[k]));
        }
        assert(heads_owned(q.cells, s.w, s.h, x, drops)) by {
            assert(heads_owned(q.cells, q.w, q.h, x, q.cols[x].drops));
        }
        lemma_poured_heads(
            q.cells,
            q.rng,
            drops,
            falls[x]@,
            s.glyphs,
            s.w,
            s.h,
            x,
            drops.len(),
        );
        let p = poured(q.cells, q.rng, drops, falls[x]@, s.glyphs, s.w, s.h, x, drops.len());
        assert(halfway(p.drops, drops) =~= p.drops);
        assert forall|k: int|
            #![trigger p.drops[k]]
            0 <= k < p.drops.len() && falls[x]@[k].gone implies p.drops[k].head_idx is None by {
            assert(drop_tidy(s.w, s.h, x, p.drops[k]));
            assert(falls[x]@[k].floor >= s.h);
        }
        lemma_kept_heads(p.cells, s.w, s.h, x, p.drops, falls[x]@, p.drops.len());
        let left = kept(p.drops, falls[x]@, p.drops.len());
        assert(heads_owned(p.cells, s.w, s.h, x, left)) by {
            assert forall|i: int|
                #![trigger p.cells[i]]
                in_column(s.w, s.h, x, i) && p.cells[i].head implies exists|k: int|
                #![trigger left[k]]
                0 <= k < left.len() && left[k].head_idx == Some(i as usize) by {
                let j = choose|j: int|
                    #![trigger p.drops[j]]
                    0 <= j < p.drops.len() && p.drops[j].head_idx == Some(i as usize);
                assert(p.drops[j].head_idx is Some);
                let k = choose|k: int|
                    #![trigger left[k]]
                    0 <= k < left.len() && left[k] == p.drops[j];
                assert(left[k].head_idx == Some(i as usize));
            }
        }
        assert forall|y: int| #![trigger a.cols[y]] 0 <= y < a.w implies heads_owned(
            a.cells,
            a.w,
            a.h,
            y,
            a.cols[y].drops,
        ) by {
            if y != x {
                assert(heads_owned(q.cells, q.w, q.h, y, q.cols[y].drops));
                assert forall|i: int|
                    #![trigger a.cells[i]]
                    in_column(a.w, a.h, y, i) && a.cells[i].head implies exists|k: int|
                    #![trigger a.cols[y].drops[k]]
                    0 <= k < a.cols[y].drops.len() && a.cols[y].drops[k].head_idx == Some(
                        i as usize,
                    ) by {
                    assert(a.cells[i] == q.cells[i]);
                    let k = choose|k: int|
                        #![trigger q.cols[y].drops[k]]
                        0 <= k < q.cols[y].drops.len() && q.cols[y].drops[k].head_idx == Some(
                            i as usize,
                        );
                    assert(a.cols[y].drops[k] == q.cols[y].drops[k]);
                }
            }
        }
        assert forall|y: int, k: int|
            #![trigger a.cols[y].drops[k]]
            0 <= y < a.w && 0 <= k < a.cols[y].drops.len() implies drop_tidy(
            a.w,
            a.h,
            y,
            a.cols[y].drops[k],
        ) by {
            if y != x {
                assert(a.cols[y] == q.cols[y]);
                assert(drop_tidy(q.w, q.h, y, q.cols[y].drops[k]));
            } else {
                assert(a.cols[x].drops[k] == left[k]);
            }
        }
    }
}

/// No head outlives the drop that wrote it. As long as drops only fall and are
/// retired no sooner than they leave the grid, every cell marked as a head is
/// the head of a drop that is still there, on the row that drop is at.
pub proof fn law_no_head_outlives_its_drop(s: Field, falls: Seq<Vec<Fall>>)
    requires
        tidy(s),
        falls_fit(s.cols, falls),
        falls_down(s, falls),
    ensures
        tidy(advanced(s, falls, s.cols.len())),
{
    lemma_advanced_tidy(s, falls, s.cols.len());
}

/// A head that moves on stops being a head, on screen or off it: once its drop
/// has crossed into another row, the cell it left is not marked any more, and a
/// drop that fell off the grid has no head.
pub proof fn law_a_head_that_moves_on_stops_being_one(
    f: Falling,
    glyphs: Seq<char>,
    w: u16,
    h: u16,
    x: int,
    decay: u32,
    from: int,
    to: int,
)
    requires
        f.cells.len() == w * h,
        0 <= x < w,
        from < to,
        f.head matches Some(p) && 0 <= from < h && p == from * w + x,
    ensures
        ({
            let g = fallen(f, glyphs, w, h, x, decay, from, to);
            &&& !g.cells[from * w + x].head
            &&& to >= h ==> g.head is None
            &&& to < h ==> g.head == Some((to * w + x) as usize) && g.cells[to * w + x].head
                && g.cells[to * w + x].glow == ONE
        }),
    decreases to - from,
{
    lemma_grid_index(w as int, h as int, x, from);
    let g = fallen(f, glyphs, w, h, x, decay, from, to - 1);
    lemma_fallen_kept(f, glyphs, w, h, x, decay, from, to - 1);
    if to < h {
        lemma_grid_index(w as int, h as int, x, to);
        assert(from * w + x != to * w + x) by (nonlinear_arith)
            requires
                from < to,
                0 <= x < w,
        ;
    }
    if to - 1 > from {
        law_a_head_that_moves_on_stops_being_one(f, glyphs, w, h, x, decay, from, to - 1);
        if to - 1 < h {
            lemma_grid_index(w as int, h as int, x, to - 1);
        }
    }
}

proof fn lemma_launch_keeps_tidy(s: Field, x: int, l: Launch)
    requires
        tidy(s),
        0 <= x < s.w,
    ensures
        tidy(launched(s, x, l)),
        launched(s, x, l).cells == s.cells,
{
    let a = launched(s, x, l);
    assert forall|y: int| #![trigger a.cols[y]] 0 <= y < a.w implies heads_owned(
        a.cells,
        a.w,
        a.h,
        y,
        a.cols[y].drops,
    ) by {
        assert(heads_owned(s.cells, s.w, s.h, y, s.cols[y].drops));
        assert forall|i: int|
            #![trigger a.cells[i]]
            in_column(a.w, a.h, y, i) && a.cells[i].head implies exists|k: int|
            #![trigger a.cols[y].drops[k]]
            0 <= k < a.cols[y].drops.len() && a.cols[y].drops[k].head_idx == Some(i as usize) by {
            let k = choose|k: int|
                #![trigger s.cols[y].drops[k]]
                0 <= k < s.cols[y].drops.len() && s.cols[y].drops[k].head_idx == Some(i as usize);
            assert(a.cols[y].drops[k] == s.cols[y].drops[k]);
        }
    }
    assert forall|y: int, k: int|
        #![trigger a.cols[y].drops[k]]
        0 <= y < a.w && 0 <= k < a.cols[y].drops.len() implies drop_tidy(
        a.w,
        a.h,
        y,
        a.cols[y].drops[k],
    ) by {
        if k < s.cols[y].drops.len() {
            assert(a.cols[y].drops[k] == s.cols[y].drops[k]);
            assert(drop_tidy(s.w, s.h, y, s.cols[y].drops[k]));
        }
    }
}

proof fn lemma_cooling_keeps_tidy(s: Field, x: int, cooldown: u32)
    requires
        tidy(s),
        0 <= x < s.w,
    ensures
        tidy(cooled(s, x, cooldown)),
{
    let a = cooled(s, x, cooldown);
    assert forall|y: int| #![trigger a.cols[y]] 0 <= y < a.w implies heads_owned(
        a.cells,
        a.w,
        a.h,
        y,
        a.cols[y].drops,
    ) by {
        assert(a.cols[y].drops == s.cols[y].drops);
        assert(heads_owned(s.cells, s.w, s.h, y, s.cols[y].drops));
    }
    assert forall|y: int, k: int|
        #![trigger a.cols[y].drops[k]]
        0 <= y < a.w && 0 <= k < a.cols[y].drops.len() implies drop_tidy(
        a.w,
        a.h,
        y,
        a.cols[y].drops[k],
    ) by {
        assert(drop_tidy(s.w, s.h, y, s.cols[y].drops[k]));
    }
}

/// Starting drops changes no cell and brings no head.
pub proof fn law_spawning_keeps_the_grid_tidy(s: Field, x: int, drawn: Drawn)
    requires
        tidy(s),
        0 <= x < s.w,
    ensures
        tidy(spawned(s, x, drawn)),
        spawned(s, x, drawn).cells == s.cells,
{
    match drawn {
        Drawn::Cooled { cooldown, .. } => lemma_cooling_keeps_tidy(s, x, cooldown),
        Drawn::Roll(_) => {},
        Drawn::Rest(cooldown) => lemma_cooling_keeps_tidy(s, x, cooldown),
        Drawn::Launch(l) => if !barren(s.density) {
            lemma_launch_keeps_tidy(s, x, l);
        },
    }
}

/// A column that is not yet cool, or whose last drop is not yet far enough down,
/// starts nothing and takes no draw.
pub proof fn law_a_column_waits_its_turn(s: Field, x: int, cooldown: u32, bar: u32)
    requires
        0 <= x < s.cols.len(),
        lt(ZERO, cooldown) || (s.cols[x].drops.len() > 0 && !lt(bar, s.cols[x].drops.last().row)),
    ensures
        needed(s, x, Drawn::Cooled { cooldown, bar }) == Need::Nothing,
        spawned(s, x, Drawn::Cooled { cooldown, bar }).cols[x].drops == s.cols[x].drops,
{
}

/// Fading keeps the grid tidy: it marks no head, and only ever clears one.
pub proof fn law_fading_keeps_the_grid_tidy(s: Field, faded: Seq<u32>)
    requires
        tidy(s),
        faded.len() == s.cells.len(),
    ensures
        tidy(
            Field {
                cells: Seq::new(faded.len(), |i: int| faded_cell(s.cells[i], faded[i])),
                ..s
            },
        ),
{
    let a = Field {
        cells: Seq::new(faded.len(), |i: int| faded_cell(s.cells[i], faded[i])),
        ..s
    };
    lemma_heads_only_cleared(s, a);
}

/// Churning keeps the grid tidy.
pub proof fn law_churning_keeps_the_grid_tidy(s: Field, n: nat)
    requires
        tidy(s),
    ensures
        tidy(
            Field {
                cells: churned(s.cells, s.rng, s.glyphs, n).0,
                rng: churned(s.cells, s.rng, s.glyphs, n).1,
                ..s
            },
        ),
{
    lemma_churned_kept(s.cells, s.rng, s.glyphs, n);
    let a = Field {
        cells: churned(s.cells, s.rng, s.glyphs, n).0,
        rng: churned(s.cells, s.rng, s.glyphs, n).1,
        ..s
    };
    lemma_heads_only_cleared(s, a);
}

proof fn lemma_heads_only_cleared(s: Field, a: Field)
    requires
        tidy(s),
        a.w == s.w,
        a.h == s.h,
        a.cols == s.cols,
        a.cells.len() == s.cells.len(),
        forall|i: int| 0 <= i < s.cells.len() && (#[trigger] a.cells[i]).head ==> s.cells[i].head,
    ensures
        tidy(a),
{
    assert forall|y: int| #![trigger a.cols[y]] 0 <= y < a.w implies heads_owned(
        a.cells,
        a.w,
        a.h,
        y,
        a.cols[y].drops,
    ) by {
        assert(heads_owned(s.cells, s.w, s.h, y, s.cols[y].drops));
        assert forall|i: int|
            #![trigger a.cells[i]]
            in_column(a.w, a.h, y, i) && a.cells[i].head implies exists|k: int|
            #![trigger a.cols[y].drops[k]]
            0 <= k < a.cols[y].drops.len() && a.cols[y].drops[k].head_idx == Some(i as usize) by {
            assert(s.cells[i].head);
        }
    }
    assert forall|y: int, k: int|
        #![trigger a.cols[y].drops[k]]
        0 <= y < a.w && 0 <= k < a.cols[y].drops.len() implies drop_tidy(
        a.w,
        a.h,
        y,
        a.cols[y].drops[k],
    ) by {
        assert(drop_tidy(s.w, s.h, y, s.cols[y].drops[k]));
    }
}

/// Every cell that is lit holds a glyph of `pool`.
pub open spec fn drawn_from(cells: Seq<Cell>, pool: Seq<char>) -> bool {
    forall|i: int| 0 <= i < cells.len() && lit(#[trigger] cells[i]) ==> pool.contains(cells[i].ch)
}

/// Every glyph in use is one of `pool`.
pub open spec fn within_pool(glyphs: Seq<char>, pool: Seq<char>) -> bool {
    forall|i: int| 0 <= i < glyphs.len() ==> pool.contains(#[trigger] glyphs[i])
}

/// A lit cell glows between the threshold of darkness and full.
pub open spec fn glows_in_range(cells: Seq<Cell>) -> bool {
    forall|i: int|
        0 <= i < cells.len() && lit(#[trigger] cells[i]) ==> le(EPS, cells[i].glow) && le(
            cells[i].glow,
            ONE,
        )
}

proof fn lemma_rained_on_again(a: Seq<Cell>, b: Seq<Cell>, c: Seq<Cell>, glyphs: Seq<char>)
    requires
        rained_on(a, b, glyphs),
        rained_on(b, c, glyphs),
    ensures
        rained_on(a, c, glyphs),
{
    assert forall|i: int| 0 <= i < c.len() implies {
        ||| (#[trigger] c[i]).ch == a[i].ch && c[i].glow == a[i].glow && c[i].decay == a[i].decay
        ||| c[i].glow == ONE && in_pool(glyphs, c[i].ch)
    } by {
    }
}

proof fn lemma_fallen_rains(
    f: Falling,
    glyphs: Seq<char>,
    w: u16,
    h: u16,
    x: int,
    decay: u32,
    from: int,
    to: int,
)
    requires
        f.cells.len() == w * h,
        0 <= x < w,
    ensures
        rained_on(f.cells, fallen(f, glyphs, w, h, x, decay, from, to).cells, glyphs),
    decreases to - from,
{
    if to > from {
        lemma_fallen_rains(f, glyphs, w, h, x, decay, from, to - 1);
        let g = fallen(f, glyphs, w, h, x, decay, from, to - 1);
        if 0 <= to < h {
            lemma_grid_index(w as int, h as int, x, to);
            lemma_picked(g.rng, glyphs);
        }
        lemma_rained_on_again(
            f.cells,
            g.cells,
            fallen(f, glyphs, w, h, x, decay, from, to).cells,
            glyphs,
        );
    }
}

proof fn lemma_poured_rains(
    cells: Seq<Cell>,
    rng: Seq<u8>,
    drops: Seq<Drop>,
    falls: Seq<Fall>,
    glyphs: Seq<char>,
    w: u16,
    h: u16,
    x: int,
    n: nat,
)
    requires
        cells.len() == w * h,
        0 <= x < w,
        n <= drops.len(),
    ensures
        rained_on(cells, poured(cells, rng, drops, falls, glyphs, w, h, x, n).cells, glyphs),
    decreases n,
{
    if n > 0 {
        lemma_poured_rains(cells, rng, drops, falls, glyphs, w, h, x, (n - 1) as nat);
        let p = poured(cells, rng, drops, falls, glyphs, w, h, x, (n - 1) as nat);
        let d = drops[n - 1];
        lemma_fallen_rains(
            Falling { cells: p.cells, rng: p.rng, head: d.head_idx },
            glyphs,
            w,
            h,
            x,
            falls[n - 1].decay,
            d.at as int,
            falls[n - 1].floor as int,
        );
        lemma_rained_on_again(
            cells,
            p.cells,
            poured(cells, rng, drops, falls, glyphs, w, h, x, n).cells,
            glyphs,
        );
    }
}

proof fn lemma_advanced_rains(s: Field, falls: Seq<Vec<Fall>>, n: nat)
    requires
        s.wf(),
        n <= s.w,
    ensures
        rained_on(s.cells, advanced(s, falls, n).cells, s.glyphs),
    decreases n,
{
    if n > 0 {
        lemma_advanced_rains(s, falls, (n - 1) as nat);
        lemma_advanced_kept(s, falls, (n - 1) as nat);
        let q = advanced(s, falls, (n - 1) as nat);
        let x = n - 1;
        lemma_poured_rains(
            q.cells,
            q.rng,
            q.cols[x].drops,
            falls[x]@,
            s.glyphs,
            s.w,
            s.h,
            x,
            q.cols[x].drops.len(),
        );
        lemma_rained_on_again(s.cells, q.cells, advanced(s, falls, n).cells, s.glyphs);
    }
}

proof fn lemma_churned_rerolls(cells: Seq<Cell>, rng: Seq<u8>, glyphs: Seq<char>, n: nat)
    ensures
        rerolled(cells, churned(cells, rng, glyphs, n).0, glyphs),
    decreases n,
{
    if n > 0 {
        lemma_churned_rerolls(cells, rng, glyphs, (n - 1) as nat);
        let (before, state) = churned(cells, rng, glyphs, (n - 1) as nat);
        let drawn = index_draw(state, cells.len() as usize).1;
        lemma_picked(drawn, glyphs);
        let after = churned(cells, rng, glyphs, n).0;
        assert forall|i: int| 0 <= i < after.len() implies {
            ||| #[trigger] after[i] == cells[i]
            ||| after[i] == (Cell { ch: after[i].ch, ..cells[i] }) && in_pool(glyphs, after[i].ch)
                && lt(EPS, cells[i].glow) && !cells[i].head
        } by {
        }
    }
}

/// Only glyphs that were asked for ever appear. Whatever `pool` holds all the
/// glyphs in use so far, and there are some, fading, falling and churning leave
/// no cell lit with a glyph that is not in it.
pub proof fn law_only_the_pool_appears(
    s: Field,
    falls: Seq<Vec<Fall>>,
    faded: Seq<u32>,
    n: nat,
    pool: Seq<char>,
)
    requires
        s.wf(),
        s.glyphs.len() > 0,
        within_pool(s.glyphs, pool),
        drawn_from(s.cells, pool),
        faded.len() == s.cells.len(),
    ensures
        drawn_from(advanced(s, falls, s.cols.len()).cells, pool),
        drawn_from(churned(s.cells, s.rng, s.glyphs, n).0, pool),
        drawn_from(Seq::new(faded.len(), |i: int| faded_cell(s.cells[i], faded[i])), pool),
{
    lemma_advanced_rains(s, falls, s.cols.len());
    lemma_churned_rerolls(s.cells, s.rng, s.glyphs, n);
    let fallen_on = advanced(s, falls, s.cols.len()).cells;
    assert forall|i: int| 0 <= i < fallen_on.len() && lit(#[trigger] fallen_on[i]) implies
        pool.contains(fallen_on[i].ch) by {
    }
    let stirred = churned(s.cells, s.rng, s.glyphs, n).0;
    assert forall|i: int| 0 <= i < stirred.len() && lit(#[trigger] stirred[i]) implies
        pool.contains(stirred[i].ch) by {
    }
    let after = Seq::new(faded.len(), |i: int| faded_cell(s.cells[i], faded[i]));
    assert forall|i: int| 0 <= i < after.len() && lit(#[trigger] after[i]) implies pool.contains(
        after[i].ch,
    ) by {
    }
}

/// A lit cell always glows between the threshold of darkness and full: falling
/// and churning keep that, and so does fading, as long as nothing fades upwards.
pub proof fn law_a_lit_glow_stays_in_range(
    s: Field,
    falls: Seq<Vec<Fall>>,
    faded: Seq<u32>,
    n: nat,
)
    requires
        s.wf(),
        glows_in_range(s.cells),
        faded.len() == s.cells.len(),
        forall|i: int|
            0 <= i < faded.len() && lit(s.cells[i]) ==> le(#[trigger] faded[i], s.cells[i].glow),
    ensures
        glows_in_range(advanced(s, falls, s.cols.len()).cells),
        glows_in_range(churned(s.cells, s.rng, s.glyphs, n).0),
        glows_in_range(Seq::new(faded.len(), |i: int| faded_cell(s.cells[i], faded[i]))),
{
    lemma_advanced_rains(s, falls, s.cols.len());
    lemma_churned_rerolls(s.cells, s.rng, s.glyphs, n);
    let fallen_on = advanced(s, falls, s.cols.len()).cells;
    assert forall|i: int| 0 <= i < fallen_on.len() && lit(#[trigger] fallen_on[i]) implies le(
        EPS,
        fallen_on[i].glow,
    ) && le(fallen_on[i].glow, ONE) by {
    }
    let stirred = churned(s.cells, s.rng, s.glyphs, n).0;
    assert forall|i: int| 0 <= i < stirred.len() && lit(#[trigger] stirred[i]) implies le(
        EPS,
        stirred[i].glow,
    ) && le(stirred[i].glow, ONE) by {
    }
    let after = Seq::new(faded.len(), |i: int| faded_cell(s.cells[i], faded[i]));
    assert forall|i: int| 0 <= i < after.len() && lit(#[trigger] after[i]) implies le(
        EPS,
        after[i].glow,
    ) && le(after[i].glow, ONE) by {
    }
}

/// A drop lights the rows it crosses: each that is on the grid is left at full
/// glow with a glyph of the pool and the drop's decay. Every other cell keeps
/// its glyph, its glow and its decay, and no cell becomes a head but the one on
/// the row the drop ends at.
pub proof fn law_a_fall_lights_the_rows_it_crosses(
    f: Falling,
    glyphs: Seq<char>,
    w: u16,
    h: u16,
    x: int,
    decay: u32,
    from: int,
    to: int,
)
    requires
        f.cells.len() == w * h,
        0 <= x < w,
        from <= to,
    ensures
        ({
            let g = fallen(f, glyphs, w, h, x, decay, from, to);
            &&& g.cells.len() == w * h
            &&& forall|r: int|
                from < r <= to && 0 <= r < h ==> {
                    let c = #[trigger] g.cells[r * w + x];
                    c.glow == ONE && c.decay == decay && in_pool(glyphs, c.ch) && (c.head ==> r
                        == to)
                }
            &&& from < to && 0 <= to < h ==> g.cells[to * w + x].head && g.head == Some(
                (to * w + x) as usize,
            )
            &&& from < to && !(0 <= to < h) ==> g.head is None
            &&& forall|i: int|
                0 <= i < w * h && !(exists|r: int|
                    #![trigger r * w]
                    from < r <= to && 0 <= r < h && i == r * w + x) ==> {
                    let (b, a) = (f.cells[i], #[trigger] g.cells[i]);
                    a.ch == b.ch && a.glow == b.glow && a.decay == b.decay && (a.head ==> b.head)
                }
        }),
    decreases to - from,
{
    if from < to {
        law_a_fall_lights_the_rows_it_crosses(f, glyphs, w, h, x, decay, from, to - 1);
        let q = fallen(f, glyphs, w, h, x, decay, from, to - 1);
        let g = fallen(f, glyphs, w, h, x, decay, from, to);
        if 0 <= to < h {
            lemma_grid_index(w as int, h as int, x, to);
            lemma_picked(q.rng, glyphs);
        }
        assert forall|r: int| from < r <= to && 0 <= r < h implies {
            let c = #[trigger] g.cells[r * w + x];
            c.glow == ONE && c.decay == decay && in_pool(glyphs, c.ch) && (c.head ==> r == to)
        } by {
            lemma_grid_index(w as int, h as int, x, r);
            if r < to {
                let c = q.cells[r * w + x];
                assert(c.glow == ONE);
                assert(r * w + x != to * w + x) by (nonlinear_arith)
                    requires
                        r < to,
                        0 <= x < w,
                ;
                if r == to - 1 {
                    assert(q.head == Some((r * w + x) as usize));
                }
            }
        }
        assert forall|i: int|
            0 <= i < w * h && !(exists|r: int|
                #![trigger r * w]
                from < r <= to && 0 <= r < h && i == r * w + x) implies {
            let (b, a) = (f.cells[i], #[trigger] g.cells[i]);
            a.ch == b.ch && a.glow == b.glow && a.decay == b.decay && (a.head ==> b.head)
        } by {
            if exists|r: int| #![trigger r * w] from < r <= to - 1 && 0 <= r < h && i == r * w + x {
                let r = choose|r: int|
                    #![trigger r * w]
                    from < r <= to - 1 && 0 <= r < h && i == r * w + x;
                assert(from < r <= to && 0 <= r < h && i == r * w + x);
            }
            if 0 <= to < h && i == to * w + x {
                assert(from < to <= to && i == to * w + x);
            }
        }
    }
}

/// A column advancing leaves the others alone.
proof fn lemma_other_columns(s: Field, falls: Seq<Vec<Fall>>, n: nat, x: int)
    requires
        tidy(s),
        falls_fit(s.cols, falls),
        falls_down(s, falls),
        0 < n <= s.w,
        0 <= x < s.w,
        x != n - 1,
    ensures
        forall|i: int|
            in_column(s.w, s.h, x, i) ==> #[trigger] advanced(s, falls, n).cells[i] == advanced(
                s,
                falls,
                (n - 1) as nat,
            ).cells[i],
{
    lemma_advanced_tidy(s, falls, (n - 1) as nat);
    lemma_advanced_kept(s, falls, (n - 1) as nat);
    let q = advanced(s, falls, (n - 1) as nat);
    let y = n - 1;
    let drops = q.cols[y].drops;
    assert(q.cols[y] == s.cols[y]);
    assert(falls[y]@.len() == drops.len());
    assert forall|k: int| #![trigger falls[y]@[k]] 0 <= k < drops.len() implies drops[k].at
        <= falls[y]@[k].floor by {}
    assert forall|k: int| 0 <= k < drops.len() implies drop_tidy(
        s.w,
        s.h,
        y,
        #[trigger] drops[k],
    ) by {
        assert(drop_tidy(q.w, q.h, y, q.cols[y].drops[k]));
    }
    assert(heads_owned(q.cells, q.w, q.h, y, q.cols[y].drops));
    lemma_poured_heads(q.cells, q.rng, drops, falls[y]@, s.glyphs, s.w, s.h, y, drops.len());
}

/// What a column holds is settled once it has advanced, and untouched before.
proof fn lemma_column_settled(s: Field, falls: Seq<Vec<Fall>>, a: nat, b: nat, x: int)
    requires
        tidy(s),
        falls_fit(s.cols, falls),
        falls_down(s, falls),
        a <= b <= s.w,
        0 <= x < s.w,
        b <= x || x < a,
    ensures
        forall|i: int|
            in_column(s.w, s.h, x, i) ==> #[trigger] advanced(s, falls, b).cells[i] == advanced(
                s,
                falls,
                a,
            ).cells[i],
        x < a ==> advanced(s, falls, b).cols[x] == advanced(s, falls, a).cols[x],
    decreases b - a,
{
    if a < b {
        lemma_column_settled(s, falls, a, (b - 1) as nat, x);
        lemma_other_columns(s, falls, b, x);
        lemma_advanced_kept(s, falls, (b - 1) as nat);
        let before = advanced(s, falls, (b - 1) as nat);
        let after = advanced(s, falls, b);
        assert forall|i: int| in_column(s.w, s.h, x, i) implies #[trigger] after.cells[i]
            == advanced(s, falls, a).cells[i] by {
            assert(before.cells[i] == advanced(s, falls, a).cells[i]);
        }
    }
}

/// A drop that has a column to itself lights every row of the grid that it
/// crosses, at full glow and with glyphs of the pool, and leaves the glyphs and
/// glows of the others. The one head of the column is on the row it ends at;
/// past the bottom there is none.
pub proof fn law_a_lone_drop_advances(s: Field, falls: Seq<Vec<Fall>>, x: int, r: int)
    requires
        tidy(s),
        falls_fit(s.cols, falls),
        falls_down(s, falls),
        0 <= x < s.w,
        s.cols[x].drops.len() == 1,
        s.cols[x].drops[0].at < falls[x]@[0].floor,
        0 <= r < s.h,
    ensures
        ({
            let (from, to) = (s.cols[x].drops[0].at, falls[x]@[0].floor);
            let b = s.cells[r * s.w + x];
            let a = advanced(s, falls, s.cols.len()).cells[r * s.w + x];
            &&& from < r <= to ==> a.glow == ONE && a.decay == falls[x]@[0].decay && in_pool(
                s.glyphs,
                a.ch,
            )
            &&& !(from < r <= to) ==> a.ch == b.ch && a.glow == b.glow && a.decay == b.decay
            &&& a.head <==> r == to
        }),
{
    let d = s.cols[x].drops[0];
    let fall = falls[x]@[0];
    let (w, h) = (s.w, s.h);
    let i = r * w + x;
    lemma_grid_index(w as int, h as int, x, r);
    assert(in_column(w, h, x, i));
    let n = (x + 1) as nat;
    let q = advanced(s, falls, x as nat);
    let a = advanced(s, falls, n);
    lemma_column_settled(s, falls, 0, x as nat, x);
    lemma_column_settled(s, falls, n, s.cols.len(), x);
    assert(q.cells[i] == s.cells[i]);
    assert(advanced(s, falls, s.cols.len()).cells[i] == a.cells[i]);
    lemma_advanced_kept(s, falls, x as nat);
    lemma_advanced_tidy(s, falls, x as nat);
    lemma_advanced_tidy(s, falls, n);
    assert(q.cols[x] == s.cols[x]);
    let f = Falling { cells: q.cells, rng: q.rng, head: d.head_idx };
    reveal_with_fuel(poured, 2);
    let p = poured(q.cells, q.rng, s.cols[x].drops, falls[x]@, s.glyphs, w, h, x, 1);
    let g = fallen(f, s.glyphs, w, h, x, fall.decay, d.at as int, fall.floor as int);
    assert(p.cells == g.cells);
    assert(a.cells == g.cells);
    law_a_fall_lights_the_rows_it_crosses(
        f,
        s.glyphs,
        w,
        h,
        x,
        fall.decay,
        d.at as int,
        fall.floor as int,
    );
    if !(d.at < r <= fall.floor) {
        assert forall|t: int|
            #![trigger t * w]
            d.at < t <= fall.floor && 0 <= t < h implies i != t * w + x by {
            assert(r * w + x != t * w + x) by (nonlinear_arith)
                requires
                    r != t,
                    0 <= x < w,
            ;
        }
        assert(g.cells[i].ch == f.cells[i].ch);
    } else {
        assert(g.cells[r * w + x].glow == ONE);
    }
    if a.cells[i].head {
        assert(heads_owned(a.cells, w, h, x, a.cols[x].drops));
        let k = choose|k: int|
            #![trigger a.cols[x].drops[k]]
            0 <= k < a.cols[x].drops.len() && a.cols[x].drops[k].head_idx == Some(i as usize);
        assert(falls[x]@[0] == fall);
        reveal_with_fuel(kept, 2);
        assert(p.drops =~= seq![p.drops[0]]);
        assert(a.cols[x].drops[k] == p.drops[0]);
        assert(drop_tidy(w, h, x, a.cols[x].drops[k]));
        assert(i == fall.floor * w + x);
        assert(r == fall.floor) by (nonlinear_arith)
            requires
                r * w + x == fall.floor * w + x,
                w > 0,
        ;
    }
}

/// Something that happens to the simulation.
pub enum Event {
    Resize { w: u16, h: u16, starts: Seq<Start> },
    Glyphs(Seq<char>),
    Fade(Seq<u32>),
    Advance(Seq<Vec<Fall>>),
    Spawn { x: int, drawn: Drawn },
    Churn(nat),
    /// Draws the caller makes itself, as what they do to the generator.
    Draw(spec_fn(Seq<u8>) -> Seq<u8>),
}

/// What one event makes of the simulation.
pub open spec fn happened(s: Field, e: Event) -> Field {
    match e {
        Event::Resize { w, h, starts } => cleared(s, w, h, starts),
        Event::Glyphs(glyphs) => Field { glyphs, ..s },
        Event::Fade(faded) => Field {
            cells: Seq::new(s.cells.len(), |i: int| faded_cell(s.cells[i], faded[i])),
            ..s
        },
        Event::Advance(falls) => advanced(s, falls, s.cols.len()),
        Event::Spawn { x, drawn } => if 0 <= x < s.cols.len() {
            spawned(s, x, drawn)
        } else {
            s
        },
        Event::Churn(n) => {
            let (cells, rng) = churned(s.cells, s.rng, s.glyphs, n);
            Field { cells, rng, ..s }
        },
        Event::Draw(f) => Field { rng: f(s.rng), ..s },
    }
}

/// What a run of events makes of the simulation.
pub open spec fn replayed(s: Field, events: Seq<Event>) -> Field
    decreases events.len(),
{
    if events.len() == 0 {
        s
    } else {
        happened(replayed(s, events.drop_last()), events.last())
    }
}

/// A simulation that has no grid yet, as one seed, one glyph pool and one
/// density make it.
pub open spec fn fresh(seed: u64, glyphs: Seq<char>, density: u32) -> Field {
    Field {
        w: 0,
        h: 0,
        cells: Seq::empty(),
        cols: Seq::empty(),
        glyphs,
        density,
        rng: seed_state(seed),
    }
}

/// A seed replays an identical animation: two simulations made from one seed,
/// one glyph pool and one density, to which the same things happen, are the same
/// at every moment, down to the next number their generators yield.
pub proof fn law_a_seed_replays_identically(
    seed: u64,
    a: Field,
    b: Field,
    events: Seq<Event>,
    n: int,
)
    requires
        a.wf(),
        b.wf(),
        a.w == 0 && a.h == 0 && a.rng == seed_state(seed),
        b.w == 0 && b.h == 0 && b.rng == seed_state(seed),
        a.glyphs == b.glyphs,
        a.density == b.density,
        0 <= n <= events.len(),
    ensures
        a == fresh(seed, a.glyphs, a.density),
        replayed(a, events.take(n)) == replayed(b, events.take(n)),
{
    assert(a =~= fresh(seed, a.glyphs, a.density));
    assert(b =~= fresh(seed, b.glyphs, b.density));
}

/// The passes of a step on a grid of so many columns, in order.
pub open spec fn step_order(cols: nat) -> Seq<Phase> {
    seq![Phase::Fade, Phase::Fall] + Seq::new(cols, |x: int| Phase::Spawn(x as usize)) + seq![
        Phase::Churn,
    ]
}

/// A step runs every pass once and in order: fading, falling, every column's
/// turn from left to right, churning.
pub proof fn law_a_step_runs_every_pass_in_order(cols: nat, i: int)
    requires
        cols <= usize::MAX,
        0 <= i < step_order(cols).len(),
    ensures
        step_order(cols).len() == cols + 3,
        step_order(cols)[0] == Phase::Fade,
        phase_after(cols, step_order(cols)[i]) == (if i + 1 < step_order(cols).len() {
            Some(step_order(cols)[i + 1])
        } else {
            None
        }),
{
}

/// A grid on which all is well: no dark cell holds a glyph or is a head, what is
/// lit glows between the threshold of darkness and full, and every head has its
/// drop.
pub open spec fn healthy(s: Field) -> bool {
    &&& tidy(s)
    &&& dark_is_blank(s.cells)
    &&& glows_in_range(s.cells)
}

/// What can happen to a grid: what is handed in fits it, nothing fades upwards,
/// drops only fall, and one that is retired has left the grid.
pub open spec fn in_order(s: Field, e: Event) -> bool {
    match e {
        Event::Resize { w, h, starts } => starts.len() == w,
        Event::Glyphs(_) => true,
        Event::Fade(faded) => faded.len() == s.cells.len() && forall|i: int|
            0 <= i < faded.len() && lit(s.cells[i]) ==> le(#[trigger] faded[i], s.cells[i].glow),
        Event::Advance(falls) => falls_fit(s.cols, falls) && falls_down(s, falls),
        Event::Spawn { x, drawn } => 0 <= x < s.cols.len(),
        Event::Churn(_) => true,
        Event::Draw(_) => true,
    }
}

/// Every event of a run can happen to the grid as it then is.
pub open spec fn run_in_order(s: Field, events: Seq<Event>) -> bool {
    forall|i: int|
        #![trigger events[i]]
        0 <= i < events.len() ==> in_order(replayed(s, events.take(i)), events[i])
}

proof fn lemma_run_prefix(s: Field, events: Seq<Event>)
    requires
        events.len() > 0,
        run_in_order(s, events),
    ensures
        run_in_order(s, events.drop_last()),
        in_order(replayed(s, events.drop_last()), events.last()),
{
    let front = events.drop_last();
    assert forall|i: int| #![trigger front[i]] 0 <= i < front.len() implies in_order(
        replayed(s, front.take(i)),
        front[i],
    ) by {
        assert(front[i] == events[i]);
        assert(front.take(i) =~= events.take(i));
    }
    assert(events.take(events.len() - 1) =~= front);
    assert(events[events.len() - 1] == events.last());
}

proof fn lemma_stays_healthy(s: Field, e: Event)
    requires
        healthy(s),
        in_order(s, e),
    ensures
        healthy(happened(s, e)),
{
    let a = happened(s, e);
    match e {
        Event::Resize { w, h, starts } => {
            law_a_resize_clears(s, w, h, starts);
        },
        Event::Glyphs(_) => {
            lemma_heads_only_cleared(s, a);
        },
        Event::Fade(faded) => {
            lemma_heads_only_cleared(s, a);
            assert forall|i: int| 0 <= i < a.cells.len() && !lit(#[trigger] a.cells[i]) implies
                a.cells[i] == dark() by {
                if lit(s.cells[i]) {
                    assert(le(faded[i], s.cells[i].glow));
                }
            }
            assert forall|i: int| 0 <= i < a.cells.len() && lit(#[trigger] a.cells[i]) implies le(
                EPS,
                a.cells[i].glow,
            ) && le(a.cells[i].glow, ONE) by {
                if lit(s.cells[i]) {
                    assert(le(faded[i], s.cells[i].glow));
                }
            }
        },
        Event::Advance(falls) => {
            let same = Seq::new(s.cells.len(), |i: int| s.cells[i].glow);
            law_falling_leaves_the_dark_blank(s, falls);
            law_no_head_outlives_its_drop(s, falls);
            law_a_lit_glow_stays_in_range(s, falls, same, 0);
        },
        Event::Spawn { x, drawn } => {
            law_spawning_keeps_the_grid_tidy(s, x, drawn);
        },
        Event::Churn(n) => {
            let same = Seq::new(s.cells.len(), |i: int| s.cells[i].glow);
            law_churning_keeps_the_grid_tidy(s, n);
            law_churning_touches_lit_glyphs_only(s.cells, s.rng, s.glyphs, n);
            law_a_lit_glow_stays_in_range(s, Seq::empty(), same, n);
        },
        Event::Draw(_) => {
            lemma_heads_only_cleared(s, a);
        },
    }
}

/// All stays well over any run. A simulation that was just made has nothing
/// wrong with it, and whatever happens to one, in whatever order, every dark
/// cell is blank and no head, every lit one glows in range, and every head has
/// its drop.
pub proof fn law_all_stays_well(s: Field, events: Seq<Event>)
    requires
        run_in_order(s, events),
    ensures
        s.wf() && s.w == 0 && s.h == 0 ==> healthy(s),
        healthy(s) ==> healthy(replayed(s, events)),
        healthy(s) ==> forall|i: int|
            0 <= i < replayed(s, events).cells.len() ==> {
                let c = #[trigger] replayed(s, events).cells[i];
                ||| c == dark()
                ||| le(EPS, c.glow) && le(c.glow, ONE)
            },
    decreases events.len(),
{
    if healthy(s) && events.len() > 0 {
        lemma_run_prefix(s, events);
        law_all_stays_well(s, events.drop_last());
        lemma_stays_healthy(replayed(s, events.drop_last()), events.last());
    }
}

/// Over any run, only glyphs that were asked for are ever lit. Whatever `pool`
/// holds all the glyphs that were in use at any time, and there always were
/// some, no cell is lit with a glyph that is not in it.
pub proof fn law_only_the_pool_is_ever_lit(s: Field, events: Seq<Event>, pool: Seq<char>)
    requires
        healthy(s),
        run_in_order(s, events),
        s.glyphs.len() > 0,
        within_pool(s.glyphs, pool),
        drawn_from(s.cells, pool),
        forall|i: int|
            #![trigger events[i]]
            0 <= i < events.len() ==> (events[i] matches Event::Glyphs(g) ==> g.len() > 0
                && within_pool(g, pool)),
    ensures
        drawn_from(replayed(s, events).cells, pool),
        within_pool(replayed(s, events).glyphs, pool),
        replayed(s, events).glyphs.len() > 0,
    decreases events.len(),
{
    if events.len() > 0 {
        let front = events.drop_last();
        lemma_run_prefix(s, events);
        assert forall|i: int| #![trigger front[i]] 0 <= i < front.len() implies (
        front[i] matches Event::Glyphs(g) ==> g.len() > 0 && within_pool(g, pool)) by {
            assert(front[i] == events[i]);
        }
        law_only_the_pool_is_ever_lit(s, front, pool);
        law_all_stays_well(s, front);
        let q = replayed(s, front);
        let a = replayed(s, events);
        let same = Seq::new(q.cells.len(), |i: int| q.cells[i].glow);
        let e = events[events.len() - 1];
        match e {
            Event::Resize { w, h, starts } => {
                law_a_resize_clears(q, w, h, starts);
            },
            Event::Glyphs(_) => {},
            Event::Fade(faded) => {
                law_only_the_pool_appears(q, Seq::empty(), faded, 0, pool);
            },
            Event::Advance(falls) => {
                law_only_the_pool_appears(q, falls, same, 0, pool);
                lemma_advanced_kept(q, falls, q.cols.len());
            },
            Event::Spawn { x, drawn } => {
                law_spawning_keeps_the_grid_tidy(q, x, drawn);
            },
            Event::Churn(n) => {
                law_only_the_pool_appears(q, Seq::empty(), same, n, pool);
            },
            Event::Draw(_) => {},
        }
    }
}

/// Nothing is falling and nothing is lit.
pub open spec fn desolate(s: Field) -> bool {
    &&& s.wf()
    &&& barren(s.density)
    &&& forall|i: int| 0 <= i < s.cells.len() ==> #[trigger] s.cells[i] == dark()
    &&& forall|x: int| 0 <= x < s.cols.len() ==> (#[trigger] s.cols[x]).drops.len() == 0
}

proof fn lemma_advanced_desolate(s: Field, falls: Seq<Vec<Fall>>, n: nat)
    requires
        desolate(s),
        n <= s.cols.len(),
    ensures
        desolate(advanced(s, falls, n)),
        advanced(s, falls, n).cols.len() == s.cols.len(),
    decreases n,
{
    if n > 0 {
        lemma_advanced_desolate(s, falls, (n - 1) as nat);
        lemma_advanced_kept(s, falls, (n - 1) as nat);
        let q = advanced(s, falls, (n - 1) as nat);
        assert(q.cols[n - 1].drops.len() == 0);
    }
}

proof fn lemma_churned_desolate(cells: Seq<Cell>, rng: Seq<u8>, glyphs: Seq<char>, n: nat)
    requires
        forall|i: int| 0 <= i < cells.len() ==> #[trigger] cells[i] == dark(),
    ensures
        churned(cells, rng, glyphs, n).0 == cells,
    decreases n,
{
    if n > 0 {
        lemma_churned_desolate(cells, rng, glyphs, (n - 1) as nat);
    }
}

/// At no density it never rains. No exchange about a column, whatever is rolled
/// or drawn for it, starts a drop or asks for one, and a simulation in which
/// nothing is falling and nothing is lit stays so whatever happens to it: every
/// cell stays dark.
pub proof fn law_zero_density_never_spawns(s: Field, x: int, drawn: Drawn, events: Seq<Event>)
    requires
        barren(s.density),
    ensures
        needed(s, x, drawn) != Need::Launch,
        0 <= x < s.cols.len() ==> spawned(s, x, drawn).cols[x].drops == s.cols[x].drops,
        desolate(s) ==> desolate(replayed(s, events)),
    decreases events.len(),
{
    if desolate(s) && events.len() > 0 {
        law_zero_density_never_spawns(s, x, drawn, events.drop_last());
        let q = replayed(s, events.drop_last());
        match events.last() {
            Event::Resize { w, h, starts } => {
                lemma_grid_size(w as int, h as int);
            },
            Event::Glyphs(_) => {},
            Event::Fade(_) => {},
            Event::Advance(falls) => lemma_advanced_desolate(q, falls, q.cols.len()),
            Event::Spawn { x, drawn } => {},
            Event::Churn(n) => lemma_churned_desolate(q.cells, q.rng, q.glyphs, n),
            Event::Draw(_) => {},
        }
    }
}

/// A drop enters its column as it was launched: at that row, with that speed and
/// that tail, and with no head on the grid yet. The drops before it in the column
/// stay as they were, the column takes over the gap and the cooldown and keeps
/// its hue, and nothing else changes anywhere.
pub proof fn law_a_drop_enters_as_it_was_launched(s: Field, x: int, l: Launch, k: int)
    requires
        0 <= x < s.cols.len(),
        lt(ZERO, s.density) || nan(s.density),
    ensures
        ({
            let after = spawned(s, x, Drawn::Launch(l));
            let (b, a) = (s.cols[x], after.cols[x]);
            let d = a.drops[b.drops.len() as int];
            &&& a.drops.len() == b.drops.len() + 1
            &&& d.row == l.row
            &&& d.speed == l.speed
            &&& d.tail == l.tail
            &&& d.at == l.at
            &&& d.head_idx is None
            &&& 0 <= k < b.drops.len() ==> a.drops[k] == b.drops[k]
            &&& a.gap == l.gap
            &&& a.cooldown == l.cooldown
            &&& a.hue == b.hue
            &&& 0 <= k < s.cols.len() && k != x ==> after.cols[k] == s.cols[k]
            &&& after.cols.len() == s.cols.len()
            &&& after == (Field { cols: after.cols, ..s })
        }),
        needed(s, x, Drawn::Launch(l)) == Need::Nothing,
{
}

/// Anything else that is said about a column starts nothing: its drops, its gap
/// and its hue stay as they were, its cooldown is the one given, or the one it had
/// where it only rolled, and nothing else changes anywhere.
pub proof fn law_only_a_launch_starts_a_drop(s: Field, x: int, drawn: Drawn, k: int)
    requires
        0 <= x < s.cols.len(),
        !(drawn is Launch),
    ensures
        ({
            let after = spawned(s, x, drawn);
            let (b, a) = (s.cols[x], after.cols[x]);
            &&& a.drops == b.drops
            &&& a.gap == b.gap
            &&& a.hue == b.hue
            &&& match drawn {
                Drawn::Cooled { cooldown, .. } => a.cooldown == cooldown,
                Drawn::Rest(cooldown) => a.cooldown == cooldown,
                _ => a.cooldown == b.cooldown,
            }
            &&& 0 <= k < s.cols.len() && k != x ==> after.cols[k] == s.cols[k]
            &&& after.cols.len() == s.cols.len()
            &&& after == (Field { cols: after.cols, ..s })
        }),
{
}

/// A column whose turn has come rolls: one that has cooled off, and that is empty
/// or whose last drop is past the bar. A roll no higher than the density starts a
/// drop and a higher one rests; so a denser rain starts whatever a thinner one
/// would, and a lower roll whatever a higher one would.
pub proof fn law_a_roll_under_the_density_starts_a_drop(
    s: Field,
    x: int,
    cooldown: u32,
    bar: u32,
    roll: u32,
    lower: u32,
    denser: u32,
)
    requires
        0 <= x < s.cols.len(),
    ensures
        le(cooldown, ZERO) && (s.cols[x].drops.len() == 0 || lt(bar, s.cols[x].drops.last().row))
            ==> needed(s, x, Drawn::Cooled { cooldown, bar }) == Need::Roll,
        lt(ZERO, s.density) && le(roll, s.density) ==> needed(s, x, Drawn::Roll(roll))
            == Need::Launch,
        lt(ZERO, s.density) && lt(s.density, roll) ==> needed(s, x, Drawn::Roll(roll))
            == Need::Rest,
        needed(s, x, Drawn::Roll(roll)) == Need::Launch && le(lower, roll) ==> needed(
            s,
            x,
            Drawn::Roll(lower),
        ) == Need::Launch,
        needed(s, x, Drawn::Roll(roll)) == Need::Launch && le(s.density, denser) ==> needed(
            (Field { density: denser, ..s }),
            x,
            Drawn::Roll(roll),
        ) == Need::Launch,
        needed(s, x, Drawn::Rest(roll)) == Need::Nothing,
{
}

/// How many of the first `n` drops stay.
pub open spec fn staying(falls: Seq<Fall>, n: nat) -> nat
    decreases n,
{
    if n == 0 {
        0
    } else {
        staying(falls, (n - 1) as nat) + (if falls[n - 1].gone {
            0nat
        } else {
            1nat
        })
    }
}

proof fn lemma_kept_in_order(drops: Seq<Drop>, falls: Seq<Fall>, n: nat, j: int)
    requires
        0 <= j < n,
    ensures
        kept(drops, falls, n).len() == staying(falls, n),
        staying(falls, j as nat) <= staying(falls, n),
        !falls[j].gone ==> staying(falls, j as nat) < staying(falls, n) && kept(
            drops,
            falls,
            n,
        )[staying(falls, j as nat) as int] == drops[j],
    decreases n,
{
    lemma_kept_len(drops, falls, n);
    lemma_kept_len(drops, falls, (n - 1) as nat);
    if j < n - 1 {
        lemma_kept_in_order(drops, falls, (n - 1) as nat, j);
    }
}

proof fn lemma_kept_len(drops: Seq<Drop>, falls: Seq<Fall>, n: nat)
    ensures
        kept(drops, falls, n).len() == staying(falls, n),
    decreases n,
{
    if n > 0 {
        lemma_kept_len(drops, falls, (n - 1) as nat);
    }
}

proof fn lemma_poured_drops(
    cells: Seq<Cell>,
    rng: Seq<u8>,
    drops: Seq<Drop>,
    falls: Seq<Fall>,
    glyphs: Seq<char>,
    w: u16,
    h: u16,
    x: int,
    n: nat,
)
    ensures
        ({
            let p = poured(cells, rng, drops, falls, glyphs, w, h, x, n);
            &&& p.drops.len() == n
            &&& forall|j: int|
                #![trigger p.drops[j]]
                0 <= j < n ==> {
                    &&& p.drops[j].row == falls[j].row
                    &&& p.drops[j].at == falls[j].floor
                    &&& p.drops[j].speed == drops[j].speed
                    &&& p.drops[j].tail == drops[j].tail
                }
        }),
    decreases n,
{
    if n > 0 {
        lemma_poured_drops(cells, rng, drops, falls, glyphs, w, h, x, (n - 1) as nat);
    }
}

proof fn lemma_advanced_lane(s: Field, falls: Seq<Vec<Fall>>, n: nat, x: int, j: int)
    requires
        s.wf(),
        falls_fit(s.cols, falls),
        n <= s.cols.len(),
        0 <= x < s.cols.len(),
        0 <= j < s.cols[x].drops.len(),
    ensures
        ({
            let q = advanced(s, falls, n);
            let (b, a) = (s.cols[x], q.cols[x]);
            &&& q.cols.len() == s.cols.len()
            &&& a.cooldown == b.cooldown && a.gap == b.gap && a.hue == b.hue
            &&& x >= n ==> a == b
            &&& x < n ==> {
                let k = staying(falls[x]@, j as nat) as int;
                &&& a.drops.len() == staying(falls[x]@, b.drops.len())
                &&& !falls[x]@[j].gone ==> {
                    &&& k < a.drops.len()
                    &&& a.drops[k].row == falls[x]@[j].row
                    &&& a.drops[k].at == falls[x]@[j].floor
                    &&& a.drops[k].speed == b.drops[j].speed
                    &&& a.drops[k].tail == b.drops[j].tail
                }
            }
        }),
    decreases n,
{
    if n > 0 {
        lemma_advanced_lane(s, falls, (n - 1) as nat, x, j);
        let q = advanced(s, falls, (n - 1) as nat);
        if x == n - 1 {
            let lane = q.cols[x];
            let p = poured(
                q.cells,
                q.rng,
                lane.drops,
                falls[x]@,
                s.glyphs,
                s.w,
                s.h,
                x,
                lane.drops.len(),
            );
            lemma_poured_drops(
                q.cells,
                q.rng,
                lane.drops,
                falls[x]@,
                s.glyphs,
                s.w,
                s.h,
                x,
                lane.drops.len(),
            );
            lemma_kept_in_order(p.drops, falls[x]@, p.drops.len(), j);
            assert(p.drops[j].row == falls[x]@[j].row);
        }
    }
}

/// A drop goes where it falls to and keeps its speed and its tail. Exactly those
/// that are gone are retired, the others stay in order, and no column changes its
/// cooldown, its gap or its hue.
pub proof fn law_a_falling_drop_keeps_its_speed_and_tail(
    s: Field,
    falls: Seq<Vec<Fall>>,
    x: int,
    j: int,
)
    requires
        s.wf(),
        falls_fit(s.cols, falls),
        0 <= x < s.cols.len(),
        0 <= j < s.cols[x].drops.len(),
    ensures
        ({
            let (b, a) = (s.cols[x], advanced(s, falls, s.cols.len()).cols[x]);
            // Those of the drops before it that stay come before it still.
            let k = staying(falls[x]@, j as nat) as int;
            &&& a.drops.len() == staying(falls[x]@, b.drops.len())
            &&& !falls[x]@[j].gone ==> {
                &&& k < a.drops.len()
                &&& a.drops[k].row == falls[x]@[j].row
                &&& a.drops[k].at == falls[x]@[j].floor
                &&& a.drops[k].speed == b.drops[j].speed
                &&& a.drops[k].tail == b.drops[j].tail
            }
            &&& a.cooldown == b.cooldown
            &&& a.gap == b.gap
            &&& a.hue == b.hue
        }),
{
    lemma_advanced_lane(s, falls, s.cols.len(), x, j);
}

/// A lit cell takes the glow it fades to and keeps its glyph, its decay and its
/// head, unless that glow is under 0.012: then nothing is left of it. A cell that
/// is not lit stays as it is.
pub proof fn law_a_cell_fades_to_its_glow(c: Cell, faded: u32)
    ensures
        lt(ZERO, c.glow) && le(EPS, faded) ==> {
            let a = faded_cell(c, faded);
            a.glow == faded && a.ch == c.ch && a.decay == c.decay && a.head == c.head
        },
        lt(ZERO, c.glow) && lt(faded, EPS) ==> {
            let a = faded_cell(c, faded);
            a.glow == ZERO && a.ch == ' ' && !a.head && a.decay == IDLE_DECAY
        },
        le(c.glow, ZERO) ==> faded_cell(c, faded) == c,
        stands_for(EPS, 12, 1000),
        stands_for(IDLE_DECAY, 1, 2),
{
    lemma2_to64();
    lemma_stands_for(EPS, 12, 1000);
    lemma_stands_for(IDLE_DECAY, 1, 2);
}

/// Mutation that is off churns nothing; otherwise the budget is churned, as far as
/// there are cells.
pub proof fn law_the_churn_budget(mutate: u32, budget: usize, len: nat)
    ensures
        le(mutate, ZERO) ==> churn_count(mutate, budget, len) == 0,
        lt(ZERO, mutate) && budget <= len ==> churn_count(mutate, budget, len) == budget,
        lt(ZERO, mutate) && budget > len ==> churn_count(mutate, budget, len) == len,
{
}

/// A churned cell that is lit and no head takes the glyph that is drawn next, and
/// no other cell changes; where it is dark or a head, none does. Either way the
/// generator has moved past what was drawn and no further.
pub proof fn law_a_churned_cell_takes_the_glyph_drawn(
    cells: Seq<Cell>,
    rng: Seq<u8>,
    glyphs: Seq<char>,
    n: nat,
    k: int,
)
    requires
        0 <= k < cells.len(),
        cells.len() <= usize::MAX,
        0 < glyphs.len() <= usize::MAX,
        churned(cells, rng, glyphs, n).0.len() == cells.len(),
    ensures
        ({
            let (before, state) = churned(cells, rng, glyphs, n);
            let (after, end) = churned(cells, rng, glyphs, n + 1);
            let (i, drawn) = index_draw(state, cells.len() as usize);
            let (g, last) = index_draw(drawn, glyphs.len() as usize);
            &&& k != i ==> after[k] == before[k]
            &&& k == i && lt(EPS, before[k].glow) && !before[k].head ==> {
                &&& g < glyphs.len() ==> after[k].ch == glyphs[g as int]
                &&& after[k].glow == before[k].glow && after[k].decay == before[k].decay
                &&& !after[k].head
                &&& end == last
            }
            &&& k == i && !(lt(EPS, before[k].glow) && !before[k].head) ==> after == before && end
                == drawn
        }),
{
    let (before, state) = churned(cells, rng, glyphs, n);
    let (i, drawn) = index_draw(state, cells.len() as usize);
    let g = index_draw(drawn, glyphs.len() as usize).0;
    if g < glyphs.len() {
        vstd::arithmetic::div_mod::lemma_small_mod(g as nat, glyphs.len());
    }
}

/// A drop that crosses into a row of the grid writes the glyph drawn next into it,
/// and the generator has moved past that draw; one that crosses into a row beyond
/// the grid draws nothing.
pub proof fn law_a_row_takes_the_glyph_drawn(
    f: Falling,
    glyphs: Seq<char>,
    w: u16,
    h: u16,
    x: int,
    r: int,
    decay: u32,
)
    requires
        f.cells.len() == w * h,
        0 <= x < w,
        0 < glyphs.len() <= usize::MAX,
    ensures
        ({
            let after = fallen(f, glyphs, w, h, x, decay, r - 1, r);
            let (g, last) = index_draw(f.rng, glyphs.len() as usize);
            &&& 0 <= r < h ==> {
                let c = after.cells[r * w + x];
                &&& g < glyphs.len() ==> c.ch == glyphs[g as int]
                &&& c.glow == ONE && c.decay == decay && c.head
                &&& after.rng == last
            }
            &&& !(0 <= r < h) ==> after.rng == f.rng && after.head is None
        }),
{
    reveal_with_fuel(fallen, 2);
    if 0 <= r < h {
        lemma_grid_index(w as int, h as int, x, r);
    }
    let g = index_draw(f.rng, glyphs.len() as usize).0;
    if g < glyphs.len() {
        vstd::arithmetic::div_mod::lemma_small_mod(g as nat, glyphs.len());
    }
}

/// A new grid has the size asked for and a column per start, with that start's
/// cooldown, gap and hue and nothing falling in it. The glyphs, the density and
/// the generator are kept.
pub proof fn law_a_new_grid_starts_its_columns(
    s: Field,
    w: u16,
    h: u16,
    starts: Seq<Start>,
    x: int,
)
    requires
        starts.len() == w,
        0 <= x < w,
    ensures
        ({
            let a = cleared(s, w, h, starts);
            &&& a.w == w && a.h == h
            &&& a.cells.len() == w * h && a.cols.len() == w
            &&& a.cols[x].drops.len() == 0
            &&& a.cols[x].cooldown == starts[x].cooldown
            &&& a.cols[x].gap == starts[x].gap
            &&& a.cols[x].hue == starts[x].hue
            &&& a.glyphs == s.glyphs && a.density == s.density && a.rng == s.rng
        }),
{
}

/// A picture shows exactly the lit cells, each with its own glyph, as a head where
/// it is one, and in a colour made from its own glow and its own column's hue.
pub proof fn law_a_picture_shows_the_lit_cells<F: Fn(u32, bool, u32) -> Rgb>(
    s: Field,
    shade: F,
    x: int,
    y: int,
    sample: Option<Sample>,
)
    requires
        s.wf(),
        0 <= x < s.w,
        0 <= y < s.h,
        !nan(s.cells[y * s.w + x].glow),
        pictured(s, shade, x, y, sample),
    ensures
        sample is Some <==> lt(ZERO, s.cells[y * s.w + x].glow),
        sample matches Some(p) ==> {
            let c = s.cells[y * s.w + x];
            p.ch == c.ch && p.head == c.head && shade.ensures(
                (c.glow, c.head, s.cols[x].hue),
                p.rgb,
            )
        },
{
}

} // verus!
