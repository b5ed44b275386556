//! The stats readout.
//!
//! Two surfaces for the same figures. The overlay is drawn into the frame; the
//! window title is the one that stays readable under a font that remaps ASCII
//! to glyphs.

use crate::ansi::{
    encode, queue_background, queue_foreground, queue_move_to, queue_reset, queue_text, reset_all,
    sgr_color, Op,
};
use crate::charset::is_control;
use crate::render::DrawStats;
use crate::text::{digits, lemma_utf8_concat, push_number};
use crate::theme::Color;
use vstd::prelude::*;
use vstd::utf8::encode_utf8;

verus! {

/// Half a second, in nanoseconds: often enough to feel live, rarely enough that
/// the digits stay readable.
pub const WINDOW: u128 = 500_000_000;

/// What was counted over some stretch of time.
#[derive(Clone, Copy, Debug, PartialEq, Eq, Structural)]
pub struct Tally {
    pub frames: u32,
    /// Ticks where the terminal was still busy, so the draw was folded into the
    /// next frame instead.
    pub skipped: u32,
    /// How long it took, in nanoseconds.
    pub window: u128,
    pub bytes: usize,
    pub damaged: usize,
    /// Cells on the screen at the end of it.
    pub cells: usize,
}

/// Nothing counted yet.
pub open spec fn no_tally() -> Tally {
    Tally { frames: 0, skipped: 0, window: 0, bytes: 0, damaged: 0, cells: 0 }
}

impl Default for Tally {
    fn default() -> (t: Tally)
        ensures
            t == no_tally(),
    {
        Tally { frames: 0, skipped: 0, window: 0, bytes: 0, damaged: 0, cells: 0 }
    }
}

/// The tally with one more frame in it.
pub open spec fn counted(t: Tally, dt: u128, stats: DrawStats, cells: usize) -> Tally {
    Tally {
        frames: (t.frames + 1) as u32,
        window: (t.window + dt) as u128,
        bytes: (t.bytes + stats.bytes) as usize,
        damaged: (t.damaged + stats.cells_damaged) as usize,
        cells,
        ..t
    }
}

/// The tally can hold one more frame.
pub open spec fn holds(t: Tally, dt: u128, stats: DrawStats) -> bool {
    &&& t.frames < u32::MAX
    &&& t.window + dt <= u128::MAX
    &&& t.bytes + stats.bytes <= usize::MAX
    &&& t.damaged + stats.cells_damaged <= usize::MAX
}

/// Rolling frame-rate and output-volume meter.
///
/// Output volume is the number that matters: what the terminal spends on
/// parsing the escape sequences dwarfs what it costs to make them.
pub struct Meter {
    running: Tally,
    published: Option<Tally>,
}

impl Default for Meter {
    fn default() -> (m: Meter)
        ensures
            m.current() == no_tally(),
            m.last() is None,
    {
        Meter { running: Tally::default(), published: None }
    }
}

impl Meter {
    /// What is being counted.
    pub closed spec fn current(&self) -> Tally {
        self.running
    }

    /// What the figures are made from.
    pub closed spec fn last(&self) -> Option<Tally> {
        self.published
    }

    /// What is being counted since the window opened.
    #[must_use]
    pub fn running(&self) -> (t: Tally)
        ensures
            t == self.current(),
    {
        self.running
    }

    /// What the published figures are made from; nothing until the first window
    /// has closed.
    #[must_use]
    pub fn published(&self) -> (t: Option<Tally>)
        ensures
            t == self.last(),
    {
        self.published
    }

    /// A tick that produced no frame because the writer was still busy. Worth
    /// surfacing: a figure other than zero is the terminal telling that it is
    /// the bottleneck.
    pub fn skip(&mut self)
        requires
            old(self).current().skipped < u32::MAX,
        ensures
            final(self).current() == (Tally {
                skipped: (old(self).current().skipped + 1) as u32,
                ..old(self).current()
            }),
            final(self).last() == old(self).last(),
    {
        self.running.skipped = self.running.skipped + 1;
    }

    /// Counts a frame. Returns true when the window closed and the published
    /// figures changed, so that a caller need not retitle on every frame.
    pub fn record(&mut self, dt: u128, stats: DrawStats, cells: usize) -> (closed: bool)
        requires
            holds(old(self).current(), dt, stats),
        ensures
            closed == (old(self).current().window + dt >= WINDOW),
            !closed ==> final(self).current() == counted(old(self).current(), dt, stats, cells)
                && final(self).last() == old(self).last(),
            closed ==> final(self).current() == no_tally() && final(self).last() == Some(
                counted(old(self).current(), dt, stats, cells),
            ),
            closed <==> old(self).current().window + dt >= 500_000_000,
    {
        let mut t: Tally = self.running;
        t.frames = t.frames + 1;
        t.window = t.window + dt;
        t.bytes = t.bytes + stats.bytes;
        t.damaged = t.damaged + stats.cells_damaged;
        t.cells = cells;
        if t.window >= WINDOW {
            self.published = Some(t);
            self.running = Tally::default();
            true
        } else {
            self.running = t;
            false
        }
    }
}

/// The figures, each as it is to be read.
#[derive(Debug)]
pub struct Figures {
    /// Frames per second.
    pub fps: String,
    /// The speed multiplier in effect.
    pub speed: String,
    /// Kilobytes per frame.
    pub kilobytes: String,
    /// Megabytes per second.
    pub megabytes: String,
    /// Percentage of cells repainted.
    pub cells: String,
    /// Percentage of ticks folded into a later frame.
    pub coalesced: String,
}

/// The figures that both readouts share. Speed sits second: the line is trimmed
/// to the window, and this is the field a narrow one can least afford to lose.
pub open spec fn figures_text(f: Figures) -> Seq<char> {
    f.fps@ + " fps · "@ + f.speed@ + "x speed · "@ + f.kilobytes@ + " KB/frame · "@ + f.megabytes@
        + " MB/s · "@ + f.cells@ + "% cells · "@ + f.coalesced@ + "% coalesced · "@
}

/// The overlay.
pub open spec fn line_text(f: Figures, levels: u16, auto: bool) -> Seq<char> {
    " "@ + figures_text(f) + digits(levels as nat) + (if auto {
        " auto"@
    } else {
        Seq::empty()
    }) + " · q quit "@
}

/// The window title.
pub open spec fn title_text(f: Figures, levels: u16, auto: bool) -> Seq<char> {
    "rmatrix — "@ + figures_text(f) + digits(levels as nat) + " levels"@ + (if auto {
        " (auto)"@
    } else {
        Seq::empty()
    })
}

fn push_figures(out: &mut String, f: &Figures)
    ensures
        final(out)@ == old(out)@ + figures_text(*f),
{
    out.append(f.fps.as_str());
    out.append(" fps · ");
    out.append(f.speed.as_str());
    out.append("x speed · ");
    out.append(f.kilobytes.as_str());
    out.append(" KB/frame · ");
    out.append(f.megabytes.as_str());
    out.append(" MB/s · ");
    out.append(f.cells.as_str());
    out.append("% cells · ");
    out.append(f.coalesced.as_str());
    out.append("% coalesced · ");
    assert(out@ =~= old(out)@ + figures_text(*f));
}

/// The line for the overlay.
#[must_use]
pub fn overlay_line(f: &Figures, levels: u16, auto: bool) -> (s: String)
    ensures
        s@ == line_text(*f, levels, auto),
{
    let mut s: String = String::new();
    s.append(" ");
    push_figures(&mut s, f);
    push_number(&mut s, levels as u32);
    if auto {
        s.append(" auto");
    }
    s.append(" · q quit ");
    assert(s@ =~= line_text(*f, levels, auto));
    s
}

/// The same figures, for the window title.
///
/// The title is rendered outside the terminal grid, which makes it the one
/// place where the numbers stay legible whatever the terminal's font does.
#[must_use]
pub fn title(f: &Figures, levels: u16, auto: bool) -> (s: String)
    ensures
        s@ == title_text(*f, levels, auto),
{
    let mut s: String = String::new();
    s.append("rmatrix — ");
    push_figures(&mut s, f);
    push_number(&mut s, levels as u32);
    s.append(" levels");
    if auto {
        s.append(" (auto)");
    }
    assert(s@ =~= title_text(*f, levels, auto));
    s
}

/// A title without anything that would end its sequence early.
pub open spec fn safe_title(title: Seq<char>) -> Seq<char> {
    title.filter(|c: char| !is_control(c))
}

/// The sequence that sets the window title.
pub open spec fn title_sequence(title: Seq<char>) -> Seq<u8> {
    seq![0x1bu8, 0x5d, 0x32, 0x3b] + encode_utf8(safe_title(title)) + seq![0x07u8]
}

/// Whether a terminal acts on a character instead of printing it.
#[must_use]
pub fn control(c: char) -> (r: bool)
    ensures
        r == is_control(c),
{
    let n: u32 = c as u32;
    n < 0x20 || (0x7f <= n && n <= 0x9f)
}

/// Sets the window title. Terminals that do not support it ignore the sequence.
pub fn set_title(out: &mut Vec<u8>, title: &str)
    ensures
        final(out)@ == old(out)@ + title_sequence(title@),
{
    let ghost before = out@;
    out.push(0x1b);
    out.push(0x5d);
    out.push(0x32);
    out.push(0x3b);
    let ghost open = out@;
    let ghost keep = |c: char| !is_control(c);
    let n: usize = title.unicode_len();
    let mut i: usize = 0;
    proof {
        reveal(Seq::filter);
        assert(title@.take(0).filter(keep) =~= Seq::<char>::empty());
        assert(encode_utf8(Seq::<char>::empty()) =~= Seq::<u8>::empty());
    }
    while i < n
        invariant
            i <= n,
            n == title@.len(),
            keep == (|c: char| !is_control(c)),
            out@ == open + encode_utf8(title@.take(i as int).filter(keep)),
        decreases n - i,
    {
        let c: char = title.get_char(i);
        let ghost kept = title@.take(i as int).filter(keep);
        if !control(c) {
            let mut bytes: Vec<u8> = title.substring_char(i, i + 1).as_bytes_vec();
            assert(title@.subrange(i as int, i + 1) =~= seq![c]);
            proof {
                lemma_utf8_concat(kept, seq![c]);
                assert(kept + seq![c] =~= kept.push(c));
            }
            out.append(&mut bytes);
        }
        i = i + 1;
        proof {
            reveal(Seq::filter);
            assert(title@.take(i as int).drop_last() =~= title@.take(i - 1));
            assert(title@.take(i as int).last() == c);
        }
    }
    assert(title@.take(n as int) =~= title@);
    out.push(0x07);
    assert(safe_title(title@) == title@.filter(keep));
    assert(out@ =~= before + title_sequence(title@));
}

/// The overlay's background.
pub open spec fn overlay_back() -> Color {
    Color::Rgb { r: 0, g: 40, b: 12 }
}

/// The overlay's text colour.
pub open spec fn overlay_front() -> Color {
    Color::Rgb { r: 190, g: 255, b: 200 }
}

/// As much of a line as fits `w` columns.
pub open spec fn trimmed(line: Seq<char>, w: u16) -> Seq<char> {
    if line.len() <= w {
        line
    } else {
        line.take(w as int)
    }
}

/// The overlay, drawn across the top row and leaving no colour behind.
pub open spec fn overlay(line: Seq<char>, w: u16, back_off: bool, front_off: bool) -> Seq<u8> {
    encode(Op::MoveTo { x: 0, y: 0 }) + reset_all() + sgr_color(48, overlay_back(), back_off)
        + sgr_color(38, overlay_front(), front_off) + encode_utf8(trimmed(line, w)) + reset_all()
}

/// Painted over the rain, after the renderer has run.
///
/// It moves the cursor and sets colours behind the renderer's back, so the
/// caller has to follow it with
/// [`forget_cursor_and_color`](crate::render::Renderer::forget_cursor_and_color).
pub fn draw_overlay(out: &mut Vec<u8>, w: u16, line: &str)
    ensures
        exists|back_off: bool, front_off: bool|
            final(out)@ == old(out)@ + #[trigger] overlay(line@, w, back_off, front_off),
{
    let n: usize = line.unicode_len();
    let fits: usize = if n <= w as usize {
        n
    } else {
        w as usize
    };
    let text: &str = line.substring_char(0, fits);
    assert(text@ =~= trimmed(line@, w));
    let ghost b0 = out@;
    queue_move_to(out, 0, 0);
    queue_reset(out);
    let ghost b1 = out@;
    queue_background(out, Color::Rgb { r: 0, g: 40, b: 12 });
    let ghost back_off = choose|m: bool| out@ == b1 + #[trigger] sgr_color(48, overlay_back(), m);
    let ghost b2 = out@;
    queue_foreground(out, Color::Rgb { r: 190, g: 255, b: 200 });
    let ghost front_off = choose|m: bool|
        out@ == b2 + #[trigger] encode(Op::Pen { color: overlay_front(), muted: m });
    queue_text(out, text);
    queue_reset(out);
    assert(out@ =~= b0 + overlay(line@, w, back_off, front_off));
}

/// A title without control characters is set in full.
pub proof fn law_a_title_is_set_in_full(title: Seq<char>)
    requires
        forall|i: int| 0 <= i < title.len() ==> !is_control(#[trigger] title[i]),
    ensures
        safe_title(title) == title,
    decreases title.len(),
{
    reveal(Seq::filter);
    if title.len() > 0 {
        let t = title.drop_last();
        assert forall|i: int| 0 <= i < t.len() implies !is_control(#[trigger] t[i]) by {
            assert(t[i] == title[i]);
        }
        law_a_title_is_set_in_full(t);
        assert(!is_control(title[title.len() - 1]));
        assert(title =~= t.push(title.last()));
    }
}

/// No control character of a title reaches the terminal.
pub proof fn law_no_control_character_reaches_the_title(title: Seq<char>)
    ensures
        forall|i: int|
            0 <= i < safe_title(title).len() ==> !is_control(#[trigger] safe_title(title)[i]),
    decreases title.len(),
{
    reveal(Seq::filter);
    if title.len() > 0 {
        law_no_control_character_reaches_the_title(title.drop_last());
    }
}

/// A frame adds itself, its time, its bytes and its damage to the tally, each to
/// the figure of its name; ticks that were folded stay as they were counted, and
/// the screen is as large as it last was.
pub proof fn law_a_frame_adds_to_every_figure(
    t: Tally,
    dt: u128,
    stats: DrawStats,
    cells: usize,
)
    requires
        holds(t, dt, stats),
    ensures
        ({
            let a = counted(t, dt, stats, cells);
            &&& a.frames == t.frames + 1
            &&& a.window == t.window + dt
            &&& a.bytes == t.bytes + stats.bytes
            &&& a.damaged == t.damaged + stats.cells_damaged
            &&& a.skipped == t.skipped
            &&& a.cells == cells
        }),
        ({
            let n = no_tally();
            &&& n.frames == 0 && n.skipped == 0 && n.window == 0
            &&& n.bytes == 0 && n.damaged == 0 && n.cells == 0
        }),
{
}

/// A line is cut at the edge of the window and nowhere else: as much of it as
/// there are columns is left, from its start.
pub proof fn law_a_line_is_cut_at_the_edge(line: Seq<char>, w: u16, i: int)
    ensures
        trimmed(line, w).len() <= w,
        line.len() <= w ==> trimmed(line, w) == line,
        line.len() > w ==> trimmed(line, w).len() == w,
        0 <= i < trimmed(line, w).len() ==> trimmed(line, w)[i] == line[i],
{
}

/// The frame rate and the speed survive a narrow window: where the line is cut
/// behind them, both are still to be read in full.
pub proof fn law_the_speed_survives_a_narrow_window(f: Figures, levels: u16, auto: bool, w: u16)
    requires
        w >= 1 + f.fps@.len() + 7 + f.speed@.len(),
    ensures
        ({
            let line = trimmed(line_text(f, levels, auto), w);
            let from = 1 + f.fps@.len() as int + 7;
            &&& line.subrange(1, 1 + f.fps@.len() as int) == f.fps@
            &&& line.subrange(from, from + f.speed@.len()) == f.speed@
        }),
{
    reveal_strlit(" fps · ");
    reveal_strlit(" ");
    let line = line_text(f, levels, auto);
    let n = f.fps@.len() as int;
    assert(" fps · "@.len() == 7);
    assert(line.subrange(1, 1 + n) =~= f.fps@);
    assert(line.subrange(8 + n, 8 + n + f.speed@.len()) =~= f.speed@);
    let t = trimmed(line, w);
    assert(t.subrange(1, 1 + n) =~= line.subrange(1, 1 + n));
    assert(t.subrange(8 + n, 8 + n + f.speed@.len()) =~= line.subrange(
        8 + n,
        8 + n + f.speed@.len(),
    ));
}

/// Both readouts give the same figures, and the level count reads the same in
/// both; either says where the count is automatic and nothing more.
pub proof fn law_both_readouts_give_the_same_figures(f: Figures, levels: u16)
    ensures
        ({
            let n = figures_text(f).len() as int + digits(levels as nat).len();
            &&& line_text(f, levels, false).subrange(1, 1 + n) == title_text(
                f,
                levels,
                false,
            ).subrange(10, 10 + n)
            &&& line_text(f, levels, true).len() == line_text(f, levels, false).len() + 5
            &&& title_text(f, levels, true) == title_text(f, levels, false) + " (auto)"@
        }),
{
    reveal_strlit(" ");
    reveal_strlit("rmatrix — ");
    reveal_strlit(" auto");
    reveal_strlit(" (auto)");
    let both = figures_text(f) + digits(levels as nat);
    let n = both.len() as int;
    assert("rmatrix — "@.len() == 10);
    assert(line_text(f, levels, false).subrange(1, 1 + n) =~= both);
    assert(title_text(f, levels, false).subrange(10, 10 + n) =~= both);
    assert(title_text(f, levels, true) =~= title_text(f, levels, false) + " (auto)"@);
}

/// A title is framed as terminals take it: `ESC ] 2 ;`, the title, and a bell.
pub proof fn law_a_title_is_framed(title: Seq<char>)
    ensures
        ({
            let s = title_sequence(title);
            let n = encode_utf8(safe_title(title)).len() as int;
            &&& s.len() == n + 5
            &&& s.take(4) == seq![0x1bu8, 0x5d, 0x32, 0x3b]
            &&& s.subrange(4, 4 + n) == encode_utf8(safe_title(title))
            &&& s.last() == 0x07
        }),
{
    let s = title_sequence(title);
    let n = encode_utf8(safe_title(title)).len() as int;
    assert(s.take(4) =~= seq![0x1bu8, 0x5d, 0x32, 0x3b]);
    assert(s.subrange(4, 4 + n) =~= encode_utf8(safe_title(title)));
}

} // verus!
