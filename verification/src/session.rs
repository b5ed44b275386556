//! The event loop's decisions.
//!
//! The loop reads keys and clocks, simulates and writes; none of that is done
//! here. What each key does, when the next tick is due, how far the rain moves
//! in it, whether a frame is drawn and when a run is over is decided here, from
//! plain values, and handed back as what to do.

use crate::bits::{self, le, lesser, nan};
use crate::charset::Charset;
use crate::cli::CYCLE;
use crate::keys::{repeats, Key, Repeat, REPEAT_WINDOW};
use crate::meter::{
    draw_overlay, line_text, overlay, overlay_line, set_title, title, title_sequence, title_text,
    Figures, Meter, Tally,
};
use crate::render::{drew, Canvas, DrawStats, Estimate, Frame, Renderer};
use crate::theme::{
    law_a_larger_window_gets_no_more_levels, law_the_level_count_is_the_nearest, most_levels, Depth,
    Levels, DEFAULT_LEVELS,
};
use vstd::prelude::*;

verus! {

/// Ticks left out of what a bench run measures. The first draw repaints every
/// lit cell, and that one outlier is not what anybody is looking at.
pub const BENCH_PRIME_TICKS: u32 = 15;

/// How a key came in.
#[derive(Clone, Copy, Debug, PartialEq, Eq, Structural)]
pub enum Stroke {
    Press,
    /// Reported as auto-repeat by the terminal itself.
    Repeat,
    Release,
}

/// What the loop has to do about a key.
#[derive(Clone, Copy, Debug, PartialEq, Eq, Structural)]
pub enum Action {
    Nothing,
    Quit,
    /// Set the live speed to this many thirds.
    Speed(u8),
    /// Rain with another charset.
    Glyphs(Charset),
    /// Repaint everything.
    Repaint,
}

/// What the loop has to do in a tick.
#[derive(Clone, Copy, Debug, PartialEq, Eq, Structural)]
pub struct Tick {
    /// Nanoseconds since the last one.
    pub interval: u128,
    /// Whether the rain moves at all.
    pub moves: bool,
    /// Whether a bench run counts this tick.
    pub measured: bool,
}

/// A frame ready to be handed on, in one piece.
#[derive(Debug)]
pub struct Composed {
    pub buf: Vec<u8>,
    pub stats: DrawStats,
    /// Nanoseconds since the frame before it.
    pub interval: u128,
}

/// The loop in contracts.
#[verifier::ext_equal]
pub struct Loop {
    pub w: u16,
    pub h: u16,
    /// Which of the cycled charsets is on.
    pub cycle: int,
    pub paused: bool,
    pub rainbow: bool,
    pub bold: bool,
    pub stats: bool,
    pub levels: Levels,
    /// Control sequences that wait for the next frame.
    pub parked: Seq<u8>,
    pub last_press: Option<(Key, u128)>,
    pub screensaver: bool,
    /// The frame period, in nanoseconds.
    pub frame: u128,
    /// Largest step of the rain in one tick, in seconds.
    pub max_step: u32,
    /// When the next tick is due.
    pub next: u128,
    /// When the last one was.
    pub tick_at: u128,
    pub last_frame: u128,
    pub ticks: u32,
    pub sent: u64,
    pub skipped: u64,
    pub bench: Option<u32>,
}

/// At least one.
pub open spec fn at_least_one(n: u16) -> u16 {
    if n == 0 {
        1
    } else {
        n
    }
}

/// A quit key, which no filter may swallow.
pub open spec fn quits(l: Loop, key: Key, ctrl: bool) -> bool {
    (ctrl && key == Key::Char('c')) || l.screensaver || key == Key::Char('q') || key == Key::Esc
}

/// What bold switched on or off looks like.
pub open spec fn bold_sequence(on: bool) -> Seq<u8> {
    if on {
        seq![0x1bu8, 0x5b, 0x31, 0x6d]
    } else {
        seq![0x1bu8, 0x5b, 0x32, 0x32, 0x6d]
    }
}

/// A screen cleared.
pub open spec fn clear_sequence() -> Seq<u8> {
    seq![0x1bu8, 0x5b, 0x32, 0x4a]
}

/// The charset at a place of the cycle.
pub open spec fn cycled(i: int) -> Charset {
    CYCLE@[i]
}

/// What a key that got through the filter does to the loop.
pub open spec fn keyed(l: Loop, key: Key) -> (Loop, Action) {
    match key {
        Key::Char(' ') => (Loop { paused: !l.paused, ..l }, Action::Nothing),
        Key::Char('r') => (Loop { rainbow: !l.rainbow, ..l }, Action::Repaint),
        Key::Char('c') => {
            let cycle = (l.cycle + 1) % 6;
            (Loop { cycle, ..l }, Action::Glyphs(cycled(cycle)))
        },
        Key::Char('b') => (
            Loop { bold: !l.bold, parked: l.parked + bold_sequence(!l.bold), ..l },
            Action::Repaint,
        ),
        Key::Char('f') => (
            Loop {
                stats: !l.stats,
                // The title was borrowed for the figures.
                parked: if l.stats {
                    l.parked + title_sequence("rmatrix"@)
                } else {
                    l.parked
                },
                ..l
            },
            Action::Repaint,
        ),
        Key::Char(c) => if '1' <= c <= '9' {
            (l, Action::Speed((c as u32 - 48) as u8))
        } else {
            (l, Action::Nothing)
        },
        _ => (l, Action::Nothing),
    }
}

/// What a keystroke does to the loop. Releases count for nothing. Quitting is
/// checked before the auto-repeat filter and is idempotent, so that a repeat
/// can never swallow it; everything past the filter changes state.
pub open spec fn struck(l: Loop, key: Key, ctrl: bool, stroke: Stroke, now: u128) -> (Loop, Action) {
    if stroke == Stroke::Release {
        (l, Action::Nothing)
    } else if quits(l, key, ctrl) {
        (l, Action::Quit)
    } else if stroke == Stroke::Repeat {
        (l, Action::Nothing)
    } else if repeats(l.last_press, key, now) {
        (Loop { last_press: Some((key, now)), ..l }, Action::Nothing)
    } else {
        keyed(Loop { last_press: Some((key, now)), ..l }, key)
    }
}

/// What a resize does to the loop.
pub open spec fn resized(l: Loop, w: u16, h: u16) -> Loop {
    Loop {
        w: at_least_one(w),
        h: at_least_one(h),
        parked: l.parked + clear_sequence(),
        ..l
    }
}

/// When the tick after one at `now` is due. The next tick is scheduled from the
/// last deadline, so that what a tick costs does not add up into a drift. A
/// whole period behind, the cadence starts afresh instead of firing a burst of
/// catch-up ticks.
pub open spec fn due_after(next: u128, frame: u128, now: u128) -> int {
    if next + frame <= now {
        now + frame
    } else {
        next + frame
    }
}

/// The time from one moment to another, none where it went backwards.
pub open spec fn between(from: u128, to: u128) -> int {
    if to >= from {
        to - from
    } else {
        0
    }
}

/// A bench run counts a tick once the first few are over.
pub open spec fn counting(l: Loop) -> bool {
    l.ticks >= BENCH_PRIME_TICKS
}

/// What a tick does to the loop.
pub open spec fn ticked(l: Loop, now: u128) -> Loop {
    Loop { next: due_after(l.next, l.frame, now) as u128, tick_at: now, ..l }
}

/// What a tick asks for.
pub open spec fn tick_of(l: Loop, now: u128) -> Tick {
    Tick {
        interval: between(l.tick_at, now) as u128,
        moves: !l.paused,
        measured: l.bench is Some && counting(l),
    }
}

/// How far the rain moves in a tick of so many seconds. It is clamped, so that a
/// stall does not teleport every drop.
pub open spec fn step_of(l: Loop, secs: u32) -> u32 {
    lesser(secs, l.max_step)
}

/// Brightness steps for the window as it is.
pub open spec fn steps_shown(l: Loop) -> u16 {
    match l.levels {
        Levels::Auto => most_levels((l.w * l.h) as nat, DEFAULT_LEVELS as nat) as u16,
        Levels::Fixed(n) => n,
    }
}

/// What follows a frame: nothing, or the readout where it is shown. The title
/// is set only where the figures changed, as some terminals flash it.
pub open spec fn readout(
    l: Loop,
    figures: Figures,
    closed: bool,
    back_off: bool,
    front_off: bool,
) -> Seq<u8> {
    let auto = l.levels is Auto;
    if !l.stats {
        Seq::empty()
    } else {
        overlay(line_text(figures, steps_shown(l), auto), l.w, back_off, front_off) + (if closed {
            title_sequence(title_text(figures, steps_shown(l), auto))
        } else {
            Seq::empty()
        })
    }
}

/// What a tick's drawing does to the loop: nothing where there is no buffer to
/// draw into.
pub open spec fn drawn(l: Loop, free: bool, now: u128) -> Loop {
    if free {
        Loop { parked: Seq::empty(), last_frame: now, ..l }
    } else {
        l
    }
}

/// What the end of a tick does to the loop. The first few count for nothing.
pub open spec fn ended(l: Loop, sent: bool) -> Loop {
    Loop {
        ticks: if l.ticks < u32::MAX {
            (l.ticks + 1) as u32
        } else {
            l.ticks
        },
        sent: if counting(l) && sent {
            (l.sent + 1) as u64
        } else {
            l.sent
        },
        skipped: if counting(l) && !sent {
            (l.skipped + 1) as u64
        } else {
            l.skipped
        },
        ..l
    }
}

/// Whether a bench run has had its ticks, those it does not count included.
pub open spec fn finished(l: Loop) -> bool {
    match l.bench {
        Some(n) => l.ticks >= n + BENCH_PRIME_TICKS || l.ticks == u32::MAX,
        None => false,
    }
}

/// The state of a running loop.
pub struct Session {
    w: u16,
    h: u16,
    charset_idx: usize,
    paused: bool,
    rainbow: bool,
    bold: bool,
    show_stats: bool,
    levels: Levels,
    oob: Vec<u8>,
    repeat: Repeat,
    screensaver: bool,
    frame: u128,
    max_step: u32,
    next: u128,
    tick_at: u128,
    last_frame: u128,
    ticks: u32,
    sent: u64,
    skipped: u64,
    bench: Option<u32>,
}

/// Where a charset stands in the cycle, the start where it does not.
pub open spec fn cycle_start(c: Charset) -> int {
    match c {
        Charset::Katakana => 1,
        Charset::Ascii => 2,
        Charset::Alnum => 3,
        Charset::Binary => 4,
        Charset::Greek => 5,
        _ => 0,
    }
}

/// How a loop starts out.
#[derive(Clone, Copy, Debug)]
pub struct Setup {
    pub w: u16,
    pub h: u16,
    pub charset: Charset,
    pub levels: Levels,
    pub rainbow: bool,
    pub bold: bool,
    pub stats: bool,
    pub screensaver: bool,
    pub bench: Option<u32>,
    /// The frame period, in nanoseconds.
    pub frame: u128,
    /// Largest step of the rain in one tick, in seconds.
    pub max_step: u32,
    /// Nanoseconds on the clock.
    pub now: u128,
}

/// The loop as it starts out.
pub open spec fn started(s: Setup) -> Loop {
    Loop {
        w: at_least_one(s.w),
        h: at_least_one(s.h),
        cycle: cycle_start(s.charset),
        paused: false,
        rainbow: s.rainbow,
        bold: s.bold,
        stats: s.stats,
        levels: s.levels,
        parked: Seq::empty(),
        last_press: None,
        screensaver: s.screensaver,
        frame: s.frame,
        max_step: s.max_step,
        next: (s.now + s.frame) as u128,
        tick_at: s.now,
        last_frame: s.now,
        ticks: 0,
        sent: 0,
        skipped: 0,
        bench: s.bench,
    }
}

impl Session {
    /// The state of the loop.
    pub closed spec fn state(&self) -> Loop {
        Loop {
            w: self.w,
            h: self.h,
            cycle: self.charset_idx as int,
            paused: self.paused,
            rainbow: self.rainbow,
            bold: self.bold,
            stats: self.show_stats,
            levels: self.levels,
            parked: self.oob@,
            last_press: self.repeat.last_press(),
            screensaver: self.screensaver,
            frame: self.frame,
            max_step: self.max_step,
            next: self.next,
            tick_at: self.tick_at,
            last_frame: self.last_frame,
            ticks: self.ticks,
            sent: self.sent,
            skipped: self.skipped,
            bench: self.bench,
        }
    }

    /// The window is not empty and the cycle is within its bounds.
    pub open spec fn wf(&self) -> bool {
        let l = self.state();
        &&& l.w > 0
        &&& l.h > 0
        &&& 0 <= l.cycle < 6
    }

    /// A loop about to run. Where the charset is not one of those cycled
    /// through, the cycle starts at its beginning.
    #[must_use]
    pub fn new(s: Setup) -> (r: Session)
        requires
            s.now + s.frame <= u128::MAX,
        ensures
            r.wf(),
            r.state() == started(s),
    {
        let charset_idx: usize = match s.charset {
            Charset::Katakana => 1,
            Charset::Ascii => 2,
            Charset::Alnum => 3,
            Charset::Binary => 4,
            Charset::Greek => 5,
            _ => 0,
        };
        let r = Session {
            w: if s.w == 0 {
                1
            } else {
                s.w
            },
            h: if s.h == 0 {
                1
            } else {
                s.h
            },
            charset_idx,
            paused: false,
            rainbow: s.rainbow,
            bold: s.bold,
            show_stats: s.stats,
            levels: s.levels,
            oob: Vec::new(),
            repeat: Repeat::default(),
            screensaver: s.screensaver,
            frame: s.frame,
            max_step: s.max_step,
            next: s.now + s.frame,
            tick_at: s.now,
            last_frame: s.now,
            ticks: 0,
            sent: 0,
            skipped: 0,
            bench: s.bench,
        };
        assert(r.state() =~= started(s));
        r
    }

    #[must_use]
    pub fn width(&self) -> (w: u16)
        ensures
            w == self.state().w,
    {
        self.w
    }

    #[must_use]
    pub fn height(&self) -> (h: u16)
        ensures
            h == self.state().h,
    {
        self.h
    }

    #[must_use]
    pub fn rainbow(&self) -> (r: bool)
        ensures
            r == self.state().rainbow,
    {
        self.rainbow
    }

    #[must_use]
    pub fn show_stats(&self) -> (r: bool)
        ensures
            r == self.state().stats,
    {
        self.show_stats
    }

    #[must_use]
    pub fn paused(&self) -> (r: bool)
        ensures
            r == self.state().paused,
    {
        self.paused
    }

    /// Brightness steps for the window as it is.
    #[must_use]
    pub fn quantisation(&self) -> (n: u16)
        ensures
            n == steps_shown(self.state()),
    {
        self.levels.resolve(self.w, self.h)
    }

    /// Frames that a bench run counted as sent, and ticks it counted as folded.
    #[must_use]
    pub fn counts(&self) -> (c: (u64, u64))
        ensures
            c == (self.state().sent, self.state().skipped),
    {
        (self.sent, self.skipped)
    }

    /// How long to wait for input before the next tick: `None` once it is due.
    #[must_use]
    pub fn remaining(&self, now: u128) -> (t: Option<u128>)
        ensures
            t == (if self.state().next >= now {
                Some((self.state().next - now) as u128)
            } else {
                None
            }),
            t matches Some(left) ==> now + left == self.state().next,
            t is None <==> now > self.state().next,
    {
        if self.next >= now {
            Some(self.next - now)
        } else {
            None
        }
    }

    /// A keystroke came in.
    pub fn key(&mut self, key: Key, ctrl: bool, stroke: Stroke, now: u128) -> (a: Action)
        requires
            old(self).wf(),
        ensures
            final(self).wf(),
            (final(self).state(), a) == struck(old(self).state(), key, ctrl, stroke, now),
    {
        let ghost l = self.state();
        if stroke == Stroke::Release {
            return Action::Nothing;
        }
        if (ctrl && key == Key::Char('c')) || self.screensaver || key == Key::Char('q') || key
            == Key::Esc {
            return Action::Quit;
        }
        if stroke == Stroke::Repeat || !self.repeat.accept(key, now) {
            return Action::Nothing;
        }
        let ghost mid = self.state();
        let a: Action = match key {
            Key::Char(' ') => {
                self.paused = !self.paused;
                Action::Nothing
            },
            Key::Char('r') => {
                self.rainbow = !self.rainbow;
                Action::Repaint
            },
            Key::Char('c') => {
                self.charset_idx = (self.charset_idx + 1) % 6;
                Action::Glyphs(CYCLE[self.charset_idx])
            },
            Key::Char('b') => {
                self.bold = !self.bold;
                let mut s: Vec<u8> = if self.bold {
                    vec![0x1b, 0x5b, 0x31, 0x6d]
                } else {
                    vec![0x1b, 0x5b, 0x32, 0x32, 0x6d]
                };
                assert(s@ =~= bold_sequence(self.bold));
                self.oob.append(&mut s);
                Action::Repaint
            },
            Key::Char('f') => {
                self.show_stats = !self.show_stats;
                if !self.show_stats {
                    set_title(&mut self.oob, "rmatrix");
                }
                Action::Repaint
            },
            Key::Char(c) => if '1' <= c && c <= '9' {
                Action::Speed((c as u32 - 48) as u8)
            } else {
                Action::Nothing
            },
            _ => Action::Nothing,
        };
        assert(self.state() =~= keyed(mid, key).0);
        a
    }

    /// The window changed. The rain and the renderer have to follow.
    pub fn resize(&mut self, w: u16, h: u16)
        requires
            old(self).wf(),
        ensures
            final(self).wf(),
            final(self).state() == resized(old(self).state(), w, h),
    {
        self.w = if w == 0 {
            1
        } else {
            w
        };
        self.h = if h == 0 {
            1
        } else {
            h
        };
        let mut s: Vec<u8> = vec![0x1b, 0x5b, 0x32, 0x4a];
        assert(s@ =~= clear_sequence());
        self.oob.append(&mut s);
        assert(self.state() =~= resized(old(self).state(), w, h));
    }

    /// A tick is due: schedules the next one and says what this one does.
    pub fn tick(&mut self, now: u128) -> (t: Tick)
        requires
            old(self).wf(),
            old(self).state().next + old(self).state().frame <= u128::MAX,
            now + old(self).state().frame <= u128::MAX,
        ensures
            final(self).wf(),
            final(self).state() == ticked(old(self).state(), now),
            t == tick_of(old(self).state(), now),
    {
        let due: u128 = self.next + self.frame;
        self.next = if due <= now {
            now + self.frame
        } else {
            due
        };
        let interval: u128 = if now >= self.tick_at {
            now - self.tick_at
        } else {
            0
        };
        self.tick_at = now;
        assert(self.state() =~= ticked(old(self).state(), now));
        Tick {
            interval,
            moves: !self.paused,
            measured: self.bench.is_some() && self.ticks >= BENCH_PRIME_TICKS,
        }
    }

    /// How far the rain moves in a tick that came `secs` seconds after the last.
    #[must_use]
    pub fn step(&self, secs: u32) -> (r: u32)
        ensures
            r == step_of(self.state(), secs),
            r == lesser(secs, self.state().max_step),
    {
        bits::min(secs, self.max_step)
    }

    /// A tick's drawing. `free` is the buffer the terminal has finished with,
    /// together with the picture to draw into it; `None` means that it has not
    /// finished, and then nothing is drawn and the tick is counted as skipped.
    /// What is not drawn is not lost: the renderer still owes it.
    ///
    /// What comes back is the same buffer with what was parked and one frame
    /// behind it, and has to be handed on as it is: the renderer already
    /// believes every byte of it.
    pub fn compose<F: Fn(usize, usize) -> Estimate>(
        &mut self,
        free: Option<(Vec<u8>, Frame)>,
        renderer: &mut Renderer,
        meter: &mut Meter,
        depth: Depth,
        estimate: F,
        now: u128,
    ) -> (r: Option<Composed>)
        requires
            old(self).wf(),
            old(renderer).wf(),
            free matches Some((_, frame)) ==> frame.wf(),
            free is None ==> old(meter).current().skipped < u32::MAX,
            forall|damaged: usize, forced: usize| call_requires(estimate, (damaged, forced)),
        ensures
            final(self).wf(),
            final(self).state() == drawn(old(self).state(), free is Some, now),
            final(renderer).wf(),
            final(renderer).width() == old(renderer).width(),
            final(renderer).height() == old(renderer).height(),
            final(renderer).color_tolerance() == old(renderer).color_tolerance(),
            final(renderer).byte_budget() == old(renderer).byte_budget(),
            final(renderer).price() == old(renderer).price(),
            r is Some == free is Some,
            free is None ==> {
                &&& *final(renderer) == *old(renderer)
                &&& final(meter).current() == (Tally {
                    skipped: (old(meter).current().skipped + 1) as u32,
                    ..old(meter).current()
                })
                &&& final(meter).last() == old(meter).last()
            },
            free matches Some((buf, frame)) ==> {
                &&& *final(meter) == *old(meter)
                &&& r matches Some(c) && c.interval == between(old(self).state().last_frame, now)
                    && drew(
                    *old(renderer),
                    *final(renderer),
                    frame,
                    depth,
                    estimate,
                    buf@ + old(self).state().parked,
                    c.buf@,
                    c.stats,
                )
            },
    {
        match free {
            Some((buf, frame)) => {
                let ghost given = buf@;
                let mut buf: Vec<u8> = buf;
                buf.append(&mut self.oob);
                assert(buf@ =~= given + old(self).state().parked);
                let interval: u128 = if now >= self.last_frame {
                    now - self.last_frame
                } else {
                    0
                };
                self.last_frame = now;
                assert(self.state() =~= drawn(old(self).state(), true, now));
                let stats: DrawStats = renderer.draw(&mut buf, &frame, depth, estimate);
                Some(Composed { buf, stats, interval })
            },
            None => {
                meter.skip();
                None
            },
        }
    }

    /// Puts the readout behind a frame, where it is shown. `closed` says that the
    /// figures are new.
    ///
    /// The readout sets colours and moves the cursor behind the renderer's back,
    /// so the renderer is told to forget both.
    pub fn annotate(
        &self,
        frame: Composed,
        renderer: &mut Renderer,
        figures: &Figures,
        closed: bool,
    ) -> (buf: Vec<u8>)
        requires
            old(renderer).wf(),
        ensures
            exists|back_off: bool, front_off: bool|
                buf@ == frame.buf@ + #[trigger] readout(
                    self.state(),
                    *figures,
                    closed,
                    back_off,
                    front_off,
                ),
            final(renderer).wf(),
            final(renderer).canvas() == (if self.state().stats {
                Canvas { pen: None, at: None, ..old(renderer).canvas() }
            } else {
                old(renderer).canvas()
            }),
            final(renderer).width() == old(renderer).width(),
            final(renderer).height() == old(renderer).height(),
            final(renderer).color_tolerance() == old(renderer).color_tolerance(),
            final(renderer).byte_budget() == old(renderer).byte_budget(),
            final(renderer).price() == old(renderer).price(),
    {
        let mut buf: Vec<u8> = frame.buf;
        let ghost b0 = buf@;
        if !self.show_stats {
            assert(buf@ =~= b0 + readout(self.state(), *figures, closed, false, false));
            return buf;
        }
        let levels: u16 = self.quantisation();
        let auto: bool = match self.levels {
            Levels::Auto => true,
            Levels::Fixed(_) => false,
        };
        let line: String = overlay_line(figures, levels, auto);
        draw_overlay(&mut buf, self.w, line.as_str());
        let ghost (back_off, front_off) = choose|back_off: bool, front_off: bool|
            buf@ == b0 + #[trigger] overlay(line@, self.w, back_off, front_off);
        if closed {
            let text: String = title(figures, levels, auto);
            set_title(&mut buf, text.as_str());
        }
        renderer.forget_cursor_and_color();
        assert(buf@ =~= b0 + readout(self.state(), *figures, closed, back_off, front_off));
        buf
    }

    /// A tick is over, with a frame handed on or folded into the next. Returns
    /// whether the run is over, too.
    pub fn end_tick(&mut self, sent: bool) -> (done: bool)
        requires
            old(self).wf(),
            old(self).state().sent < u64::MAX,
            old(self).state().skipped < u64::MAX,
        ensures
            final(self).wf(),
            final(self).state() == ended(old(self).state(), sent),
            done == finished(final(self).state()),
    {
        if self.ticks >= BENCH_PRIME_TICKS {
            if sent {
                self.sent = self.sent + 1;
            } else {
                self.skipped = self.skipped + 1;
            }
        }
        if self.ticks < u32::MAX {
            self.ticks = self.ticks + 1;
        }
        assert(self.state() =~= ended(old(self).state(), sent));
        match self.bench {
            Some(n) => self.ticks as u64 >= n as u64 + BENCH_PRIME_TICKS as u64 || self.ticks
                == u32::MAX,
            None => false,
        }
    }
}

/// Quitting is never swallowed: a quit key quits whatever was pressed before,
/// however fast it comes, and changes nothing else.
pub proof fn law_quitting_is_never_swallowed(l: Loop, key: Key, ctrl: bool, stroke: Stroke, now: u128)
    requires
        stroke != Stroke::Release,
        key == Key::Char('q') || key == Key::Esc || (ctrl && key == Key::Char('c'))
            || l.screensaver,
    ensures
        struck(l, key, ctrl, stroke, now) == (l, Action::Quit),
{
}

/// Whatever a terminal reports as auto-repeat changes nothing.
pub proof fn law_reported_repeats_change_nothing(l: Loop, key: Key, ctrl: bool, now: u128)
    requires
        !quits(l, key, ctrl),
    ensures
        struck(l, key, ctrl, Stroke::Repeat, now) == (l, Action::Nothing),
{
}

/// A run of presses of one key.
pub open spec fn pressed(l: Loop, key: Key, times: Seq<u128>) -> Loop
    decreases times.len(),
{
    if times.len() == 0 {
        l
    } else {
        struck(pressed(l, key, times.drop_last()), key, false, Stroke::Press, times.last()).0
    }
}

/// Holding a key does what pressing it once does, but for when it was last
/// seen: its toggle does not end up on the parity of the repeats.
pub proof fn law_holding_a_key_is_pressing_it_once(l: Loop, key: Key, times: Seq<u128>)
    requires
        times.len() > 0,
        !quits(l, key, false),
        !repeats(l.last_press, key, times[0]),
        forall|i: int, j: int|
            #![trigger times[i], times[j]]
            0 <= i < times.len() && j == i + 1 && j < times.len() ==> times[j] - times[i]
                < crate::keys::REPEAT_WINDOW,
    ensures
        pressed(l, key, times) == (Loop {
            last_press: Some((key, times.last())),
            ..pressed(l, key, seq![times[0]])
        }),
    decreases times.len(),
{
    reveal_with_fuel(pressed, 2);
    let one = seq![times[0]];
    assert(one.drop_last() =~= Seq::<u128>::empty());
    assert(pressed(l, key, one) == struck(l, key, false, Stroke::Press, times[0]).0);
    if times.len() == 1 {
        assert(times =~= one);
        assert(pressed(l, key, times) =~= (Loop {
            last_press: Some((key, times.last())),
            ..pressed(l, key, one)
        }));
    } else {
        let t = times.drop_last();
        assert(t.last() == times[times.len() - 2]);
        assert forall|i: int, j: int|
            #![trigger t[i], t[j]]
            0 <= i < t.len() && j == i + 1 && j < t.len() implies t[j] - t[i]
            < crate::keys::REPEAT_WINDOW by {
            assert(times[j] - times[i] < crate::keys::REPEAT_WINDOW);
        }
        law_holding_a_key_is_pressing_it_once(l, key, t);
        assert(t[0] == times[0]);
        let before = pressed(l, key, t);
        assert(before.last_press == Some((key, t.last())));
        assert(before.screensaver == l.screensaver);
        assert(times[times.len() - 1] - times[times.len() - 2] < crate::keys::REPEAT_WINDOW);
        assert(repeats(before.last_press, key, times.last()));
    }
}

/// Toggles come back: pausing, the rainbow, bold and the overlay, each pressed a
/// second time, are as they were.
pub proof fn law_a_toggle_pressed_twice_is_back(l: Loop, key: Key)
    ensures
        ({
            let twice = keyed(keyed(l, key).0, key).0;
            &&& twice.paused == l.paused
            &&& twice.rainbow == l.rainbow
            &&& twice.bold == l.bold
            &&& twice.stats == l.stats
        }),
{
}

/// Six steps through the cycle lead back to where it started.
pub proof fn law_the_cycle_comes_round(l: Loop)
    requires
        0 <= l.cycle < 6,
    ensures
        ({
            let c = Key::Char('c');
            let half = keyed(keyed(keyed(l, c).0, c).0, c).0;
            keyed(keyed(keyed(half, c).0, c).0, c).0 == l
        }),
{
}

/// The cadence does not drift and does not burst. On time, the next deadline is
/// exactly one period after the last; behind, it is one period from now; either
/// way it lies ahead.
pub proof fn law_the_cadence_holds(next: u128, frame: u128, now: u128)
    requires
        frame > 0,
    ensures
        due_after(next, frame, now) > now,
        next + frame > now ==> due_after(next, frame, now) == next + frame,
        next + frame <= now ==> due_after(next, frame, now) == now + frame,
        next <= now ==> due_after(next, frame, now) <= now + frame,
{
}

/// Below the clamp the rain moves by exactly the time that passed; beyond it by
/// the clamp.
pub proof fn law_a_stall_is_clamped(l: Loop, secs: u32)
    requires
        !nan(secs),
        !nan(l.max_step),
    ensures
        le(step_of(l, secs), l.max_step),
        le(step_of(l, secs), secs),
        le(secs, l.max_step) ==> step_of(l, secs) == secs,
        !le(secs, l.max_step) ==> step_of(l, secs) == l.max_step,
{
}

/// A terminal that is still busy costs a skipped tick and nothing else: what is
/// parked stays parked, in order, the rain moves as it would have, unless it is
/// paused, by no more than the clamp, and the tick is counted as skipped where
/// it is counted at all.
pub proof fn law_a_busy_terminal_only_skips(l: Loop, at: u128, then: u128, secs: u32)
    ensures
        drawn(l, false, at) == l,
        tick_of(drawn(l, false, at), then) == tick_of(l, then),
        step_of(drawn(l, false, at), secs) == step_of(l, secs),
        tick_of(l, then).moves == !l.paused,
        !nan(secs) && !nan(l.max_step) ==> le(step_of(l, secs), l.max_step),
        ended(drawn(l, false, at), false).sent == l.sent,
        counting(l) && l.skipped < u64::MAX ==> ended(drawn(l, false, at), false).skipped
            == l.skipped + 1,
        !counting(l) ==> ended(drawn(l, false, at), false).skipped == l.skipped,
{
}

/// The loop after `n` ticks, whatever became of each.
pub open spec fn after_ticks(l: Loop, sent: Seq<bool>) -> Loop
    decreases sent.len(),
{
    if sent.len() == 0 {
        l
    } else {
        ended(after_ticks(l, sent.drop_last()), sent.last())
    }
}

/// A bench run of `n` ticks is over after `n` counted ticks and not before, and
/// every counted tick is either sent or folded.
pub proof fn law_a_bench_run_has_its_ticks(l: Loop, n: u32, sent: Seq<bool>)
    requires
        l.bench == Some(n),
        l.ticks == 0,
        l.sent == 0,
        l.skipped == 0,
        sent.len() <= n + BENCH_PRIME_TICKS < u32::MAX,
    ensures
        after_ticks(l, sent).ticks == sent.len(),
        after_ticks(l, sent).bench == l.bench,
        finished(after_ticks(l, sent)) <==> sent.len() == n + BENCH_PRIME_TICKS,
        after_ticks(l, sent).sent + after_ticks(l, sent).skipped == (if sent.len()
            <= BENCH_PRIME_TICKS {
            0
        } else {
            sent.len() - BENCH_PRIME_TICKS
        }),
    decreases sent.len(),
{
    if sent.len() > 0 {
        law_a_bench_run_has_its_ticks(l, n, sent.drop_last());
    }
}

/// A keystroke that acts: a press that neither quits nor repeats the one before.
pub open spec fn fresh_press(l: Loop, key: Key, ctrl: bool, now: u128) -> bool {
    &&& !l.screensaver
    &&& key != Key::Char('q') && key != Key::Esc && !(ctrl && key == Key::Char('c'))
    &&& match l.last_press {
        Some((k, t)) => k != key || now >= t + REPEAT_WINDOW,
        None => true,
    }
}

/// A digit from 1 to 9 sets the speed to as many thirds, and nothing else in the
/// loop changes but the last press. No other key ever sets a speed, nor does a
/// stroke that does not act.
pub proof fn law_a_digit_sets_the_speed(
    l: Loop,
    d: u8,
    key: Key,
    ctrl: bool,
    stroke: Stroke,
    now: u128,
)
    requires
        1 <= d <= 9,
    ensures
        ({
            let digit = Key::Char((48 + d) as char);
            fresh_press(l, digit, ctrl, now) ==> struck(l, digit, ctrl, Stroke::Press, now) == (
                Loop { last_press: Some((digit, now)), ..l },
                Action::Speed(d),
            )
        }),
        struck(l, key, ctrl, stroke, now).1 matches Action::Speed(n) ==> {
            &&& 1 <= n <= 9
            &&& key == Key::Char((48 + n) as char)
            &&& stroke == Stroke::Press
            &&& fresh_press(l, key, ctrl, now)
        },
{
    let digit = Key::Char((48 + d) as char);
    assert(digit != Key::Char('q') && digit != Key::Char('c') && digit != Key::Char(' '));
}

/// Each key does what it is for and nothing else. A press that acts flips the
/// pause exactly where it is the space bar, the rainbow exactly where it is `r`,
/// bold where it is `b` and the readout where it is `f`; it moves the cycle on
/// and asks for other glyphs exactly where it is `c`; it asks for a repaint
/// exactly where what is on screen no longer fits; and it never quits.
pub proof fn law_each_key_does_its_own(l: Loop, key: Key, ctrl: bool, now: u128)
    requires
        fresh_press(l, key, ctrl, now),
        0 <= l.cycle < 6,
    ensures
        ({
            let (after, action) = struck(l, key, ctrl, Stroke::Press, now);
            &&& after.paused != l.paused <==> key == Key::Char(' ')
            &&& after.rainbow != l.rainbow <==> key == Key::Char('r')
            &&& after.bold != l.bold <==> key == Key::Char('b')
            &&& after.stats != l.stats <==> key == Key::Char('f')
            &&& after.cycle != l.cycle <==> key == Key::Char('c')
            &&& action is Glyphs <==> key == Key::Char('c')
            &&& action is Repaint <==> key == Key::Char('r') || key == Key::Char('b') || key
                == Key::Char('f')
            &&& !(action is Quit)
            &&& after.last_press == Some((key, now))
            &&& after == (Loop {
                paused: after.paused,
                rainbow: after.rainbow,
                bold: after.bold,
                stats: after.stats,
                cycle: after.cycle,
                parked: after.parked,
                last_press: after.last_press,
                ..l
            })
        }),
{
}

/// What a key parks for the next frame comes behind what was parked already:
/// bold on or off as it now is, the plain title once the readout is hidden, and
/// nothing for any other.
pub proof fn law_what_a_key_parks(l: Loop, key: Key, ctrl: bool, now: u128)
    requires
        fresh_press(l, key, ctrl, now),
    ensures
        ({
            let after = struck(l, key, ctrl, Stroke::Press, now).0;
            &&& key == Key::Char('b') && after.bold ==> after.parked == l.parked + seq![
                0x1bu8,
                0x5b,
                0x31,
                0x6d,
            ]
            &&& key == Key::Char('b') && !after.bold ==> after.parked == l.parked + seq![
                0x1bu8,
                0x5b,
                0x32,
                0x32,
                0x6d,
            ]
            &&& key == Key::Char('f') && !after.stats ==> after.parked == l.parked
                + title_sequence("rmatrix"@)
            &&& key == Key::Char('f') && after.stats ==> after.parked == l.parked
            &&& key != Key::Char('b') && key != Key::Char('f') ==> after.parked == l.parked
        }),
{
}

/// A stroke that does not act changes nothing but the last press: letting go of a
/// key and what a terminal reports as auto-repeat not even that.
pub proof fn law_what_does_not_act_changes_nothing(
    l: Loop,
    key: Key,
    ctrl: bool,
    stroke: Stroke,
    now: u128,
)
    requires
        stroke == Stroke::Press ==> !fresh_press(l, key, ctrl, now),
    ensures
        ({
            let (after, action) = struck(l, key, ctrl, stroke, now);
            &&& after == (Loop { last_press: after.last_press, ..l })
            &&& stroke != Stroke::Press ==> after == l
            &&& stroke == Stroke::Release ==> action == Action::Nothing
            &&& action == Action::Nothing || action == Action::Quit
            &&& action == Action::Quit ==> stroke != Stroke::Release && (l.screensaver || key
                == Key::Char('q') || key == Key::Esc || ctrl && key == Key::Char('c'))
        }),
{
}

/// The cycle starts at the charset the loop started with and goes on to the next
/// of the list with every press of `c`.
pub proof fn law_the_cycle_follows_the_list(s: Setup, l: Loop, ctrl: bool, now: u128)
    requires
        0 <= l.cycle < 6,
        fresh_press(l, Key::Char('c'), ctrl, now),
    ensures
        0 <= started(s).cycle < 6,
        CYCLE@.contains(s.charset) ==> cycled(started(s).cycle) == s.charset,
        !CYCLE@.contains(s.charset) ==> started(s).cycle == 0,
        ({
            let (after, action) = struck(l, Key::Char('c'), ctrl, Stroke::Press, now);
            &&& action == Action::Glyphs(CYCLE@[after.cycle])
            &&& l.cycle < 5 ==> after.cycle == l.cycle + 1
            &&& l.cycle == 5 ==> after.cycle == 0
        }),
        CYCLE@ == seq![
            Charset::Classic,
            Charset::Katakana,
            Charset::Ascii,
            Charset::Alnum,
            Charset::Binary,
            Charset::Greek,
        ],
{
    assert(CYCLE@ =~= seq![
        Charset::Classic,
        Charset::Katakana,
        Charset::Ascii,
        Charset::Alnum,
        Charset::Binary,
        Charset::Greek,
    ]);
    assert(CYCLE@[0] == Charset::Classic && CYCLE@[1] == Charset::Katakana && CYCLE@[2]
        == Charset::Ascii && CYCLE@[3] == Charset::Alnum && CYCLE@[4] == Charset::Binary
        && CYCLE@[5] == Charset::Greek);
}

/// A loop starts as it was asked to: running, with nothing parked, nothing
/// pressed and nothing counted, its first tick due one period on, and a window
/// that is never empty.
pub proof fn law_a_loop_starts_as_asked(s: Setup)
    requires
        s.now + s.frame <= u128::MAX,
    ensures
        ({
            let l = started(s);
            &&& s.w > 0 ==> l.w == s.w
            &&& s.h > 0 ==> l.h == s.h
            &&& l.w > 0 && l.h > 0
            &&& !l.paused
            &&& l.rainbow == s.rainbow && l.bold == s.bold && l.stats == s.stats
            &&& l.levels == s.levels && l.screensaver == s.screensaver && l.bench == s.bench
            &&& l.frame == s.frame && l.max_step == s.max_step
            &&& l.parked.len() == 0 && l.last_press is None
            &&& l.next == s.now + s.frame && l.tick_at == s.now && l.last_frame == s.now
            &&& l.ticks == 0 && l.sent == 0 && l.skipped == 0
        }),
{
}

/// A resize takes over the window, each side one at least, parks a cleared
/// screen behind what was parked, and leaves the rest of the loop alone.
pub proof fn law_a_resize_takes_over_the_window(l: Loop, w: u16, h: u16)
    ensures
        ({
            let after = resized(l, w, h);
            &&& w > 0 ==> after.w == w
            &&& h > 0 ==> after.h == h
            &&& w == 0 ==> after.w == 1
            &&& h == 0 ==> after.h == 1
            &&& after.parked == l.parked + seq![0x1bu8, 0x5b, 0x32, 0x4a]
            &&& after == (Loop { w: after.w, h: after.h, parked: after.parked, ..l })
        }),
{
}

/// Ticks measure the time from one to the next: as long as the clock does not go
/// back, each starts where the one before ended. A tick changes the schedule and
/// nothing else, the rain moves in it exactly where it is not paused, and a bench
/// run measures it once fifteen are over.
pub proof fn law_ticks_measure_all_the_time(l: Loop, a: u128, b: u128)
    requires
        l.tick_at <= a <= b,
        l.next + l.frame <= u128::MAX,
        a + l.frame <= u128::MAX,
    ensures
        l.tick_at + tick_of(l, a).interval == a,
        l.tick_at + tick_of(l, a).interval + tick_of(ticked(l, a), b).interval == b,
        ticked(l, a) == (Loop { next: ticked(l, a).next, tick_at: a, ..l }),
        ticked(l, a).next > a || l.frame == 0,
        tick_of(l, a).moves <==> !l.paused,
        tick_of(l, a).measured <==> l.bench is Some && l.ticks >= 15,
{
}

/// A frame takes everything that was parked and counts its time from the frame
/// before; nothing else in the loop changes.
pub proof fn law_a_frame_takes_what_was_parked(l: Loop, a: u128, b: u128)
    requires
        l.last_frame <= a <= b,
    ensures
        drawn(l, true, a).parked.len() == 0,
        drawn(l, true, a) == (Loop { parked: Seq::empty(), last_frame: a, ..l }),
        l.last_frame + between(l.last_frame, a) + between(drawn(l, true, a).last_frame, b) == b,
        b > a ==> between(b, a) == 0,
{
}

/// Once fifteen ticks are over, each is counted as what became of it, sent or
/// folded; before, as neither. A run without a bench is never over.
pub proof fn law_every_tick_is_counted_as_what_it_was(l: Loop, sent: bool)
    requires
        l.sent < u64::MAX,
        l.skipped < u64::MAX,
        l.ticks < u32::MAX,
    ensures
        ended(l, sent).ticks == l.ticks + 1,
        l.ticks < 15 ==> ended(l, sent).sent == l.sent && ended(l, sent).skipped == l.skipped,
        l.ticks >= 15 && sent ==> ended(l, sent).sent == l.sent + 1 && ended(l, sent).skipped
            == l.skipped,
        l.ticks >= 15 && !sent ==> ended(l, sent).sent == l.sent && ended(l, sent).skipped
            == l.skipped + 1,
        ended(l, sent) == (Loop {
            ticks: ended(l, sent).ticks,
            sent: ended(l, sent).sent,
            skipped: ended(l, sent).skipped,
            ..l
        }),
        l.bench is None ==> !finished(l),
        l.bench matches Some(n) ==> (finished(l) <==> l.ticks >= n + 15),
{
}

/// A given level count holds whatever the window. Otherwise the window decides:
/// the count is the nearest to `1500 / sqrt(cells)` between 6 and 24, squared out,
/// and a larger window never gets more.
pub proof fn law_a_given_level_count_holds(l: Loop, n: u16, w: u16, h: u16)
    ensures
        steps_shown((Loop { levels: Levels::Fixed(n), ..l })) == n,
        l.w <= w && l.h <= h ==> steps_shown((Loop { levels: Levels::Auto, w, h, ..l }))
            <= steps_shown((Loop { levels: Levels::Auto, ..l })),
        ({
            let n = steps_shown((Loop { levels: Levels::Auto, ..l })) as int;
            let cells = l.w * l.h;
            &&& 6 <= n <= 24
            &&& n > 6 ==> (2 * n - 1) * (2 * n - 1) * cells <= 9_000_000
            &&& n < 24 ==> (2 * n + 1) * (2 * n + 1) * cells > 9_000_000
        }),
{
    assert(l.w * l.h >= 0) by (nonlinear_arith)
        requires
            l.w >= 0,
            l.h >= 0,
    ;
    law_the_level_count_is_the_nearest((l.w * l.h) as nat);
    law_a_larger_window_gets_no_more_levels((l.w * l.h) as nat, (l.w * l.h) as nat, 24);
    if l.w <= w && l.h <= h {
        assert(l.w * l.h <= w * h) by (nonlinear_arith)
            requires
                l.w <= w,
                l.h <= h,
        ;
        law_a_larger_window_gets_no_more_levels((l.w * l.h) as nat, (w * h) as nat, 24);
    }
}

/// A readout that is hidden is not there at all. One that is shown is the
/// overlay; new figures put the title behind it, and figures that are not new
/// leave the title alone.
pub proof fn law_the_title_follows_new_figures(
    l: Loop,
    figures: Figures,
    back_off: bool,
    front_off: bool,
)
    ensures
        !l.stats ==> readout(l, figures, true, back_off, front_off).len() == 0,
        !l.stats ==> readout(l, figures, false, back_off, front_off).len() == 0,
        l.stats ==> readout(l, figures, false, back_off, front_off) == overlay(
            line_text(figures, steps_shown(l), l.levels == Levels::Auto),
            l.w,
            back_off,
            front_off,
        ),
        l.stats ==> readout(l, figures, true, back_off, front_off) == readout(
            l,
            figures,
            false,
            back_off,
            front_off,
        ) + title_sequence(title_text(figures, steps_shown(l), l.levels == Levels::Auto)),
{
    assert(readout(l, figures, false, back_off, front_off) =~= if l.stats {
        overlay(
            line_text(figures, steps_shown(l), l.levels == Levels::Auto),
            l.w,
            back_off,
            front_off,
        )
    } else {
        Seq::empty()
    });
}

} // verus!
