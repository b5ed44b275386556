//! Closed-loop quality governor.
//!
//! The signal is the time spent blocked in a write, as a fraction of the frame
//! budget. It rises only when the terminal cannot keep up, which is exactly the
//! condition that sending less fixes. It is summarised by moving medians, since
//! a terminal's line is bursty even when nothing is wrong: a short window gates
//! shedding, so that a few genuinely bad frames move it but one outlier cannot,
//! and a long one gates recovery.
//!
//! The tolerance is a continuous state that climbs while the terminal is
//! overloaded and bleeds off while it is not, with a dead band between, so that
//! it settles at whatever quality the terminal can sustain.

use crate::bits::{
    self, finite, greater, law_whole_parts_and_rounding, le, lemma_nearest_apart,
    lemma_nearest_ordered, lemma_stands_for, lesser, lt, nan, nearest_whole, place, stands_for,
    units, within, ONE, SIGN, ZERO,
};
use vstd::arithmetic::power2::{lemma2_to64, lemma_pow2_pos, pow2};
use vstd::prelude::*;

verus! {

/// Cap on the long window. A couple of seconds of frames is all the history the
/// decision uses.
pub const MAX_WINDOW: usize = 61;

/// `4.0`, the most a single frame can count for.
pub const WORST_LOAD: u32 = 0x4080_0000;

/// The knobs the governor is allowed to turn.
#[derive(Clone, Copy, Debug, PartialEq, Eq, Structural)]
pub struct Quality {
    pub redraw_tolerance: u16,
}

impl Default for Quality {
    fn default() -> (q: Quality)
        ensures
            q.redraw_tolerance == 0,
    {
        Quality { redraw_tolerance: 0 }
    }
}

#[derive(Clone, Copy, Debug)]
pub struct GovernorConfig {
    /// Fraction of the frame budget spent blocked above which quality is shed.
    pub degrade_above: u32,
    /// ...and below which it is taken back. The gap is the dead band the loop
    /// settles inside.
    pub recover_below: u32,
    /// Frames in the short median window, which gates shedding.
    pub fast_window: u32,
    /// Frames in the long median window, which gates recovery.
    pub slow_window: u32,
    /// Colour units of tolerance added per frame while overloaded.
    pub climb: u32,
    /// Colour units given back per frame while idle.
    pub bleed: u32,
    /// Ceiling on the drift, in whole steps of the theme's brightness ramp.
    pub max_steps: u32,
}

impl Default for GovernorConfig {
    fn default() -> (c: GovernorConfig)
        ensures
            c.degrade_above == 0x3df5_c28fu32,
            c.recover_below == 0x3d75_c28fu32,
            c.fast_window == 9,
            c.slow_window == 61,
            c.climb == 0x4000_0000u32,
            c.bleed == 0x3e80_0000u32,
            c.max_steps == 0x4080_0000u32,
            stands_for(c.degrade_above, 12, 100),
            stands_for(c.recover_below, 6, 100),
            stands_for(c.climb, 2, 1),
            stands_for(c.bleed, 1, 4),
            stands_for(c.max_steps, 4, 1),
    {
        proof {
            lemma2_to64();
            lemma_stands_for(0x3df5_c28f, 12, 100);
            lemma_stands_for(0x3d75_c28f, 6, 100);
            lemma_stands_for(0x4000_0000, 2, 1);
            lemma_stands_for(0x3e80_0000, 1, 4);
            lemma_stands_for(0x4080_0000, 4, 1);
        }
        GovernorConfig {
            degrade_above: 0x3df5_c28f,
            recover_below: 0x3d75_c28f,
            fast_window: 9,
            slow_window: 61,
            climb: 0x4000_0000,
            bleed: 0x3e80_0000,
            max_steps: 0x4080_0000,
        }
    }
}

/// One frame's backpressure, and where the tolerance would go from here.
#[derive(Clone, Copy, Debug)]
pub struct Observation {
    /// Nanoseconds a frame may take.
    pub budget: u128,
    /// Time blocked over that budget. It is not looked at where there is none.
    pub ratio: u32,
    /// The tolerance one climb up.
    pub climbed: u32,
    /// The tolerance one bleed down.
    pub bled: u32,
    /// The most the tolerance may be.
    pub ceiling: u32,
}

/// The load a frame counts for. A nonsense budget must not be able to drive the
/// controller, so a frame without one counts for nothing.
pub open spec fn load_of(o: Observation) -> u32 {
    if o.budget == 0 {
        ZERO
    } else {
        within(o.ratio, ZERO, WORST_LOAD)
    }
}

/// How many numbers come before a place in the total order.
pub open spec fn below(s: Seq<u32>, p: int) -> nat
    decreases s.len(),
{
    if s.len() == 0 {
        0
    } else {
        below(s.drop_last(), p) + (if place(s.last()) < p {
            1nat
        } else {
            0nat
        })
    }
}

/// `m` is one of the numbers, and the one in the middle once they are sorted.
pub open spec fn is_median(s: Seq<u32>, m: u32) -> bool {
    &&& s.contains(m)
    &&& below(s, place(m)) <= s.len() / 2
    &&& s.len() / 2 < below(s, place(m) + 1)
}

/// The number in the middle once they are sorted.
pub open spec fn median_of(s: Seq<u32>) -> u32 {
    choose|m: u32| is_median(s, m)
}

/// How many samples a window of nominal size `n` looks at.
pub open spec fn window_len(n: nat) -> nat {
    if n < 1 {
        1
    } else if n > MAX_WINDOW {
        MAX_WINDOW as nat
    } else {
        n
    }
}

/// The latest samples, newest first.
pub open spec fn window(history: Seq<u32>, n: nat) -> Seq<u32> {
    history.take(window_len(n) as int)
}

/// The whole controller in contracts.
#[verifier::ext_equal]
pub struct Control {
    pub cfg: GovernorConfig,
    /// One step of the ramp.
    pub step: u32,
    /// Samples, newest first. Those before the first frame count for nothing.
    pub history: Seq<u32>,
    /// Samples seen so far.
    pub seen: usize,
    pub tol: u32,
}

/// The quality a controller asks for: its tolerance, rounded.
pub open spec fn quality_of(c: Control) -> nat {
    nearest_whole(c.tol, u16::MAX as nat)
}

/// The next state of the controller. Shedding answers the short window,
/// recovery the long one. Between the two thresholds nothing moves at all.
/// Recovery additionally waits for the long window to fill, so that a fresh
/// start cannot read "no history" as "plenty of headroom".
pub open spec fn regulated(c: Control, o: Observation) -> Control {
    let history = seq![load_of(o)] + c.history.take(MAX_WINDOW - 1);
    let seen: usize = if c.seen == usize::MAX {
        c.seen
    } else {
        (c.seen + 1) as usize
    };
    let fast = median_of(window(history, c.cfg.fast_window as nat));
    let slow = median_of(window(history, c.cfg.slow_window as nat));
    let tol = if lt(c.cfg.degrade_above, fast) {
        lesser(o.climbed, o.ceiling)
    } else if lt(slow, c.cfg.recover_below) && seen >= c.cfg.slow_window {
        greater(o.bled, ZERO)
    } else {
        c.tol
    };
    Control { history, seen, tol, ..c }
}

proof fn lemma_below_bounds(s: Seq<u32>, p: int, q: int)
    requires
        p <= q,
    ensures
        below(s, p) <= below(s, q) <= s.len(),
    decreases s.len(),
{
    if s.len() > 0 {
        lemma_below_bounds(s.drop_last(), p, q);
    }
}

proof fn lemma_below_same(s: Seq<u32>, p: int, q: int)
    requires
        forall|i: int| 0 <= i < s.len() ==> (place(#[trigger] s[i]) < p <==> place(s[i]) < q),
    ensures
        below(s, p) == below(s, q),
    decreases s.len(),
{
    if s.len() > 0 {
        let t = s.drop_last();
        assert forall|i: int| 0 <= i < t.len() implies (place(#[trigger] t[i]) < p <==> place(t[i])
            < q) by {
            assert(t[i] == s[i]);
        }
        lemma_below_same(t, p, q);
        assert(place(s[s.len() - 1]) < p <==> place(s[s.len() - 1]) < q);
    }
}

/// One number counts once.
proof fn lemma_below_counts(s: Seq<u32>, i: int)
    requires
        0 <= i < s.len(),
    ensures
        below(s, place(s[i])) < below(s, place(s[i]) + 1),
    decreases s.len(),
{
    let p = place(s[i]);
    let t = s.drop_last();
    lemma_below_bounds(t, p, p + 1);
    if i < s.len() - 1 {
        assert(t[i] == s[i]);
        lemma_below_counts(t, i);
    }
}

/// Among numbers of which some come before `p`, one is the last that does.
proof fn lemma_last_before(s: Seq<u32>, p: int) -> (i: int)
    requires
        below(s, p) > 0,
    ensures
        0 <= i < s.len(),
        place(s[i]) < p,
        forall|j: int|
            0 <= j < s.len() && place(#[trigger] s[j]) < p ==> place(s[j]) <= place(s[i]),
    decreases s.len(),
{
    let t = s.drop_last();
    let n = s.len() - 1;
    if below(t, p) == 0 {
        assert forall|j: int| 0 <= j < s.len() && place(#[trigger] s[j]) < p implies place(s[j])
            <= place(s[n]) by {
            if j < n {
                assert(t[j] == s[j]);
                lemma_below_counts(t, j);
                lemma_below_bounds(t, place(t[j]) + 1, p);
            }
        }
        n
    } else {
        let k = lemma_last_before(t, p);
        assert(t[k] == s[k]);
        assert forall|j: int| 0 <= j < t.len() && place(#[trigger] s[j]) < p implies place(s[j])
            <= place(s[k]) by {
            assert(t[j] == s[j]);
        }
        if place(s[n]) < p && place(s[n]) > place(s[k]) {
            n
        } else {
            k
        }
    }
}

/// There is but one median.
proof fn lemma_median_unique(s: Seq<u32>, a: u32, b: u32)
    requires
        is_median(s, a),
        is_median(s, b),
    ensures
        a == b,
{
    if place(a) < place(b) {
        lemma_below_bounds(s, place(a) + 1, place(b));
    } else if place(b) < place(a) {
        lemma_below_bounds(s, place(b) + 1, place(a));
    }
}

/// The median reaches a place exactly when no more than half of the numbers,
/// rounded down, fall short of it.
pub proof fn law_the_median_follows_the_majority(s: Seq<u32>, m: u32, p: int)
    requires
        is_median(s, m),
    ensures
        place(m) >= p <==> below(s, p) <= s.len() / 2,
{
    if place(m) >= p {
        lemma_below_bounds(s, p, place(m));
    } else {
        lemma_below_bounds(s, place(m) + 1, p);
    }
}

/// How many of `s` come before a place.
fn count_below(s: &Vec<u32>, v: u32, inclusive: bool) -> (n: usize)
    ensures
        n == below(s@, place(v) + (if inclusive {
            1int
        } else {
            0int
        })),
        n <= s@.len(),
{
    let ghost p = place(v) + (if inclusive {
        1int
    } else {
        0int
    });
    let mut n: usize = 0;
    let mut i: usize = 0;
    assert(s@.take(0) =~= Seq::empty());
    while i < s.len()
        invariant
            i <= s@.len(),
            n <= i,
            n == below(s@.take(i as int), p),
            p == place(v) + (if inclusive {
                1int
            } else {
                0int
            }),
        decreases s.len() - i,
    {
        proof {
            assert(s@.take(i + 1).drop_last() =~= s@.take(i as int));
            assert(s@.take(i + 1).last() == s@[i as int]);
        }
        let before: bool = if inclusive {
            !bits::precedes(v, s[i])
        } else {
            bits::precedes(s[i], v)
        };
        if before {
            n = n + 1;
        }
        i = i + 1;
    }
    assert(s@.take(i as int) =~= s@);
    n
}

/// The number in the middle once they are sorted.
fn middle(s: &Vec<u32>) -> (m: u32)
    requires
        s@.len() > 0,
    ensures
        is_median(s@, m),
{
    let k: usize = s.len() / 2;
    let mut best: Option<u32> = None;
    let mut i: usize = 0;
    while i < s.len()
        invariant
            i <= s@.len(),
            k == s@.len() / 2,
            match best {
                Some(m) => s@.contains(m) && below(s@, place(m) + 1) > k,
                None => true,
            },
            forall|j: int|
                0 <= j < i && below(s@, place(#[trigger] s@[j]) + 1) > k ==> match best {
                    Some(m) => place(m) <= place(s@[j]),
                    None => false,
                },
        decreases s.len() - i,
    {
        let v: u32 = s[i];
        if count_below(s, v, true) > k {
            best = match best {
                Some(m) => if bits::precedes(v, m) {
                    Some(v)
                } else {
                    Some(m)
                },
                None => Some(v),
            };
        }
        i = i + 1;
    }
    proof {
        // Everything is up to the last of all.
        lemma_below_all(s@, 0x1_0000_0000);
        let j = lemma_last_before(s@, 0x1_0000_0000);
        assert forall|q: int| 0 <= q < s@.len() implies (place(#[trigger] s@[q]) < place(s@[j]) + 1
            <==> place(s@[q]) < 0x1_0000_0000) by {}
        lemma_below_same(s@, place(s@[j]) + 1, 0x1_0000_0000);
        assert(below(s@, place(s@[j]) + 1) > k);
    }
    match best {
        Some(m) => {
            proof {
                if below(s@, place(m)) > k {
                    let j = lemma_last_before(s@, place(m));
                    assert forall|q: int| 0 <= q < s@.len() implies (place(#[trigger] s@[q])
                        < place(s@[j]) + 1 <==> place(s@[q]) < place(m)) by {}
                    lemma_below_same(s@, place(s@[j]) + 1, place(m));
                }
            }
            m
        },
        None => s[0],
    }
}

/// Every number comes before the end of the order.
proof fn lemma_below_all(s: Seq<u32>, p: int)
    requires
        p >= 0x8000_0000,
    ensures
        below(s, p) == s.len(),
    decreases s.len(),
{
    if s.len() > 0 {
        lemma_below_all(s.drop_last(), p);
    }
}

/// A pure controller: feed it how long the last frame spent blocked, get back
/// the quality to draw the next one at. No clock, no I/O, no randomness, so a
/// given sequence of observations always produces the same sequence of outputs.
#[derive(Clone, Debug)]
pub struct Governor {
    cfg: GovernorConfig,
    step: u32,
    /// The latest samples, newest at `head` and older ones before it.
    ring: Vec<u32>,
    head: usize,
    seen: usize,
    tol: u32,
}

impl Governor {
    /// The state of the controller.
    pub closed spec fn control(&self) -> Control {
        Control {
            cfg: self.cfg,
            step: self.step,
            history: Seq::new(
                MAX_WINDOW as nat,
                |i: int| self.ring@[(self.head + MAX_WINDOW - i) % (MAX_WINDOW as int)],
            ),
            seen: self.seen,
            tol: self.tol,
        }
    }

    /// The ring is whole.
    pub closed spec fn wf(&self) -> bool {
        self.ring@.len() == MAX_WINDOW && self.head < MAX_WINDOW
    }

    /// A controller at full quality. A ramp step that is not a positive number
    /// counts as one.
    #[must_use]
    pub fn new(ramp_step: u32, cfg: GovernorConfig) -> (g: Governor)
        ensures
            g.wf(),
            g.control() == (Control {
                cfg,
                step: if bits::finite(ramp_step) && lt(ZERO, ramp_step) {
                    ramp_step
                } else {
                    ONE
                },
                history: Seq::new(MAX_WINDOW as nat, |i: int| ZERO),
                seen: 0,
                tol: ZERO,
            }),
            untouched(g.control()),
            0 < ramp_step < 0x7f80_0000 ==> g.control().step == ramp_step,
            ramp_step == 0 || ramp_step >= 0x7f80_0000 ==> g.control().step == ONE,
            quality_of(g.control()) == 0,
    {
        proof {
            lemma_nearest_ordered(ZERO, SIGN, u16::MAX as nat);
        }
        let g = Governor {
            cfg,
            step: if bits::is_finite(ramp_step) && bits::less(ZERO, ramp_step) {
                ramp_step
            } else {
                ONE
            },
            ring: crate::grid::filled(MAX_WINDOW, ZERO),
            head: 0,
            seen: 0,
            tol: ZERO,
        };
        assert(g.control().history =~= Seq::new(MAX_WINDOW as nat, |i: int| ZERO));
        g
    }

    /// Median of the last `n` samples.
    fn median(&self, n: u32) -> (m: u32)
        requires
            self.wf(),
        ensures
            m == median_of(window(self.control().history, n as nat)),
            is_median(window(self.control().history, n as nat), m),
    {
        // Deliberately not narrowed to how many samples there are: the ring
        // starts at zero, so an unfilled window reads as a healthy terminal.
        let len: usize = if n < 1 {
            1
        } else if n > 61 {
            MAX_WINDOW
        } else {
            n as usize
        };
        let mut w: Vec<u32> = Vec::with_capacity(len);
        let mut i: usize = 0;
        while i < len
            invariant
                i <= len,
                len <= MAX_WINDOW,
                self.wf(),
                w@ == self.control().history.take(i as int),
            decreases len - i,
        {
            let at: usize = (self.head + MAX_WINDOW - i) % MAX_WINDOW;
            w.push(self.ring[at]);
            i = i + 1;
            assert(self.control().history.take(i as int) =~= self.control().history.take(
                i - 1,
            ).push(self.control().history[i - 1]));
        }
        let m: u32 = middle(&w);
        proof {
            lemma_median_unique(w@, m, median_of(w@));
        }
        m
    }

    /// The current load estimate, as a fraction of the frame budget.
    #[must_use]
    pub fn load(&self) -> (m: u32)
        requires
            self.wf(),
        ensures
            m == median_of(window(self.control().history, self.control().cfg.fast_window as nat)),
    {
        self.median(self.cfg.fast_window)
    }

    /// The tolerance, in fractional colour units.
    #[must_use]
    pub fn tolerance(&self) -> (t: u32)
        ensures
            t == self.control().tol,
    {
        self.tol
    }

    /// One step of the ramp.
    #[must_use]
    pub fn ramp_step(&self) -> (s: u32)
        ensures
            s == self.control().step,
    {
        self.step
    }

    /// The settings.
    #[must_use]
    pub fn config(&self) -> (c: GovernorConfig)
        ensures
            c == self.control().cfg,
    {
        self.cfg
    }

    #[must_use]
    pub fn quality(&self) -> (q: Quality)
        ensures
            q.redraw_tolerance == quality_of(self.control()),
    {
        Quality { redraw_tolerance: bits::nearest(self.tol) }
    }

    /// Folds in one frame's backpressure and returns the quality for the next.
    pub fn observe(&mut self, o: Observation) -> (q: Quality)
        requires
            old(self).wf(),
        ensures
            final(self).wf(),
            final(self).control() == regulated(old(self).control(), o),
            q.redraw_tolerance == quality_of(final(self).control()),
    {
        let sample: u32 = if o.budget == 0 {
            ZERO
        } else {
            bits::clamp(o.ratio, ZERO, WORST_LOAD)
        };
        let ghost before = self.control();
        let at: usize = (self.head + 1) % MAX_WINDOW;
        self.head = at;
        self.ring.set(at, sample);
        if self.seen < usize::MAX {
            self.seen = self.seen + 1;
        }
        proof {
            let next = seq![load_of(o)] + before.history.take(MAX_WINDOW - 1);
            assert forall|i: int| 0 <= i < MAX_WINDOW implies #[trigger] self.control().history[i]
                == next[i] by {
                if i > 0 {
                    assert(next[i] == before.history[i - 1]);
                }
            }
            assert(self.control().history =~= next);
        }
        let fast: u32 = self.median(self.cfg.fast_window);
        let slow: u32 = self.median(self.cfg.slow_window);
        if bits::less(self.cfg.degrade_above, fast) {
            self.tol = bits::min(o.climbed, o.ceiling);
        } else if bits::less(slow, self.cfg.recover_below) && self.seen
            >= self.cfg.slow_window as usize {
            self.tol = bits::max(o.bled, ZERO);
        }
        assert(self.control() =~= regulated(before, o));
        self.quality()
    }
}

/// Down from a number that more than half come up to, to the first such.
proof fn lemma_median_from(s: Seq<u32>, j: int) -> (m: u32)
    requires
        0 <= j < s.len(),
        below(s, place(s[j]) + 1) > s.len() / 2,
    ensures
        is_median(s, m),
    decreases below(s, place(s[j])),
{
    if below(s, place(s[j])) <= s.len() / 2 {
        s[j]
    } else {
        let p = place(s[j]);
        let i = lemma_last_before(s, p);
        assert forall|q: int| 0 <= q < s.len() implies (place(#[trigger] s[q]) < place(s[i]) + 1
            <==> place(s[q]) < p) by {}
        lemma_below_same(s, place(s[i]) + 1, p);
        lemma_below_counts(s, i);
        lemma_median_from(s, i)
    }
}

proof fn lemma_median_exists(s: Seq<u32>)
    requires
        s.len() > 0,
    ensures
        is_median(s, median_of(s)),
{
    lemma_below_all(s, 0x1_0000_0000);
    let j = lemma_last_before(s, 0x1_0000_0000);
    assert forall|q: int| 0 <= q < s.len() implies (place(#[trigger] s[q]) < place(s[j]) + 1
        <==> place(s[q]) < 0x1_0000_0000) by {}
    lemma_below_same(s, place(s[j]) + 1, 0x1_0000_0000);
    let m = lemma_median_from(s, j);
    assert(is_median(s, m));
}

/// The samples one more frame leaves.
pub open spec fn next_history(c: Control, o: Observation) -> Seq<u32> {
    seq![load_of(o)] + c.history.take(MAX_WINDOW - 1)
}

/// A few bad frames cost nothing. As long as more than half of the short window
/// is at or under the threshold, quality is not shed, however far the others
/// are over it: out of nine frames, four may be arbitrarily bad.
pub proof fn law_a_minority_of_bad_frames_sheds_nothing(c: Control, o: Observation)
    requires
        c.history.len() == MAX_WINDOW,
        ({
            let w = window(next_history(c, o), c.cfg.fast_window as nat);
            below(w, place(c.cfg.degrade_above) + 1) > w.len() / 2
        }),
    ensures
        regulated(c, o).tol == c.tol || regulated(c, o).tol == greater(o.bled, ZERO),
{
    let w = window(next_history(c, o), c.cfg.fast_window as nat);
    lemma_median_exists(w);
    law_the_median_follows_the_majority(w, median_of(w), place(c.cfg.degrade_above) + 1);
}

/// A bad majority is answered: once more than half of the short window is over
/// the threshold, the tolerance climbs.
pub proof fn law_a_bad_majority_sheds(c: Control, o: Observation)
    requires
        c.history.len() == MAX_WINDOW,
        c.cfg.degrade_above < SIGN,
        !nan(c.cfg.degrade_above),
        ({
            let w = window(next_history(c, o), c.cfg.fast_window as nat);
            &&& below(w, place(c.cfg.degrade_above) + 1) <= w.len() / 2
            &&& forall|i: int| 0 <= i < w.len() ==> !nan(#[trigger] w[i])
        }),
    ensures
        regulated(c, o).tol == lesser(o.climbed, o.ceiling),
{
    let w = window(next_history(c, o), c.cfg.fast_window as nat);
    lemma_median_exists(w);
    let m = median_of(w);
    law_the_median_follows_the_majority(w, m, place(c.cfg.degrade_above) + 1);
    let i = choose|i: int| 0 <= i < w.len() && w[i] == m;
    assert(!nan(w[i]));
}

/// The short median that a frame leaves.
pub open spec fn fast_load(c: Control, o: Observation) -> u32 {
    median_of(window(next_history(c, o), c.cfg.fast_window as nat))
}

/// The long median that a frame leaves.
pub open spec fn slow_load(c: Control, o: Observation) -> u32 {
    median_of(window(next_history(c, o), c.cfg.slow_window as nat))
}

/// Between the two thresholds nothing moves at all, neither the tolerance nor
/// the quality, which is where the loop settles.
pub proof fn law_the_dead_band_holds_still(c: Control, o: Observation)
    requires
        !lt(c.cfg.degrade_above, fast_load(c, o)),
        !lt(slow_load(c, o), c.cfg.recover_below) || regulated(c, o).seen < c.cfg.slow_window,
    ensures
        regulated(c, o).tol == c.tol,
        quality_of(regulated(c, o)) == quality_of(c),
{
}

/// Quality is not taken back before the long window has filled.
pub proof fn law_recovery_waits_for_evidence(c: Control, o: Observation)
    requires
        regulated(c, o).seen < c.cfg.slow_window,
    ensures
        regulated(c, o).tol == c.tol || regulated(c, o).tol == lesser(o.climbed, o.ceiling),
{
}

/// A controller whose tolerance is between none and its ceiling, and an
/// observation that climbs no lower and bleeds no higher than where it is.
pub open spec fn in_step(c: Control, o: Observation) -> bool {
    &&& le(ZERO, c.tol)
    &&& le(c.tol, o.ceiling)
    &&& le(c.tol, o.climbed)
    &&& le(o.bled, c.tol)
}

/// The quality that callers see is gated like the tolerance. It is shed only
/// where the short window is over its threshold, and taken back only where that
/// is not so, the long window is under its own, and that window has filled.
pub proof fn law_the_quality_moves_through_its_gates(c: Control, o: Observation)
    requires
        in_step(c, o),
    ensures
        quality_of(regulated(c, o)) > quality_of(c) ==> lt(c.cfg.degrade_above, fast_load(c, o)),
        quality_of(regulated(c, o)) < quality_of(c) ==> {
            &&& !lt(c.cfg.degrade_above, fast_load(c, o))
            &&& lt(slow_load(c, o), c.cfg.recover_below)
            &&& regulated(c, o).seen >= c.cfg.slow_window
        },
{
    let cap = u16::MAX as nat;
    lemma_nearest_ordered(c.tol, lesser(o.climbed, o.ceiling), cap);
    lemma_nearest_ordered(greater(o.bled, ZERO), c.tol, cap);
}

/// The tolerance never goes below zero nor past its ceiling, as long as what it
/// climbs to is no lower than it was and what it bleeds to is no higher. Nor
/// does the quality go past the rounded ceiling.
pub proof fn law_the_tolerance_stays_in_bounds(c: Control, o: Observation)
    requires
        in_step(c, o),
    ensures
        le(ZERO, regulated(c, o).tol),
        le(regulated(c, o).tol, o.ceiling),
        quality_of(regulated(c, o)) <= nearest_whole(o.ceiling, u16::MAX as nat),
{
    lemma_nearest_ordered(regulated(c, o).tol, o.ceiling, u16::MAX as nat);
}

/// What a number is worth in the smallest units there are; nothing below zero.
pub open spec fn worth(b: u32) -> nat {
    if b < SIGN {
        units(b)
    } else {
        0
    }
}

/// An observation that moves the tolerance by no more than `most` either way.
pub open spec fn gentle(c: Control, o: Observation, most: nat) -> bool {
    &&& finite(c.tol)
    &&& finite(o.climbed)
    &&& finite(o.bled)
    &&& finite(o.ceiling)
    &&& worth(o.climbed) <= worth(c.tol) + most * pow2(149)
    &&& worth(c.tol) <= worth(o.bled) + most * pow2(149)
}

/// The quality only ever moves gradually: where neither the climb nor the bleed
/// is more than `most`, the rounded tolerance moves by no more than that in a
/// frame.
pub proof fn law_the_quality_moves_gradually(c: Control, o: Observation, most: nat)
    requires
        in_step(c, o),
        gentle(c, o, most),
    ensures
        quality_of(regulated(c, o)) <= quality_of(c) + most,
        quality_of(c) <= quality_of(regulated(c, o)) + most,
{
    let cap = u16::MAX as nat;
    let up = lesser(o.climbed, o.ceiling);
    let down = greater(o.bled, ZERO);
    lemma_nearest_apart(c.tol, o.climbed, cap, most);
    lemma_nearest_ordered(c.tol, up, cap);
    lemma_nearest_ordered(up, o.climbed, cap);
    lemma_nearest_apart(o.bled, c.tol, cap, most);
    lemma_nearest_ordered(o.bled, down, cap);
    lemma_nearest_ordered(down, c.tol, cap);
}

/// A controller after a run of observations.
pub open spec fn observed(c: Control, os: Seq<Observation>) -> Control
    decreases os.len(),
{
    if os.len() == 0 {
        c
    } else {
        regulated(observed(c, os.drop_last()), os.last())
    }
}

/// Every observation of a run is made from where the controller then is, under
/// one ceiling, and climbs or bleeds by no more than `most`.
pub open spec fn measured(c: Control, os: Seq<Observation>, ceiling: u32, most: nat) -> bool {
    forall|i: int|
        #![trigger os[i]]
        0 <= i < os.len() ==> {
            let at = observed(c, os.take(i));
            &&& os[i].ceiling == ceiling
            &&& le(at.tol, os[i].climbed)
            &&& le(os[i].bled, at.tol)
            &&& gentle(at, os[i], most)
        }
}

/// Over any run from full quality the tolerance stays between none and its
/// ceiling, the quality between none and the rounded ceiling, and the last
/// observation moves the quality by no more than `most`.
pub proof fn law_a_run_stays_in_bounds(
    c: Control,
    os: Seq<Observation>,
    ceiling: u32,
    most: nat,
)
    requires
        c.tol == ZERO,
        le(ZERO, ceiling),
        measured(c, os, ceiling, most),
    ensures
        le(ZERO, observed(c, os).tol),
        le(observed(c, os).tol, ceiling),
        quality_of(observed(c, os)) <= nearest_whole(ceiling, u16::MAX as nat),
        os.len() > 0 ==> {
            let before = quality_of(observed(c, os.drop_last()));
            let after = quality_of(observed(c, os));
            after <= before + most && before <= after + most
        },
    decreases os.len(),
{
    if os.len() == 0 {
        lemma_nearest_ordered(ZERO, ceiling, u16::MAX as nat);
    } else {
        let front = os.drop_last();
        assert forall|i: int| #![trigger front[i]] 0 <= i < front.len() implies {
            let at = observed(c, front.take(i));
            &&& front[i].ceiling == ceiling
            &&& le(at.tol, front[i].climbed)
            &&& le(front[i].bled, at.tol)
            &&& gentle(at, front[i], most)
        } by {
            assert(front[i] == os[i]);
            assert(front.take(i) =~= os.take(i));
        }
        law_a_run_stays_in_bounds(c, front, ceiling, most);
        let last = os[os.len() - 1];
        assert(os.take(os.len() - 1) =~= front);
        assert(last.ceiling == ceiling);
        law_the_tolerance_stays_in_bounds(observed(c, front), last);
        law_the_quality_moves_gradually(observed(c, front), last, most);
    }
}

/// A controller that has observed nothing yet.
pub open spec fn untouched(c: Control) -> bool {
    &&& c.history == Seq::new(MAX_WINDOW as nat, |i: int| ZERO)
    &&& c.seen == 0
    &&& c.tol == ZERO
}

/// What a controller remembers of a run: the loads of the latest frames, newest
/// first and nothing where there were none yet, and how many there were.
pub proof fn law_a_run_is_remembered(c: Control, os: Seq<Observation>)
    requires
        untouched(c),
        os.len() <= usize::MAX,
    ensures
        observed(c, os).cfg == c.cfg,
        observed(c, os).seen == os.len(),
        observed(c, os).history.len() == MAX_WINDOW,
        forall|i: int|
            0 <= i < MAX_WINDOW ==> #[trigger] observed(c, os).history[i] == (if i < os.len() {
                load_of(os[os.len() - 1 - i])
            } else {
                ZERO
            }),
    decreases os.len(),
{
    if os.len() > 0 {
        let front = os.drop_last();
        law_a_run_is_remembered(c, front);
        let before = observed(c, front);
        let after = observed(c, os);
        assert forall|i: int| 0 <= i < MAX_WINDOW implies #[trigger] after.history[i] == (if i
            < os.len() {
            load_of(os[os.len() - 1 - i])
        } else {
            ZERO
        }) by {
            if i > 0 {
                assert(after.history[i] == before.history[i - 1]);
                if i < os.len() {
                    assert(front[front.len() - 1 - (i - 1)] == os[os.len() - 1 - i]);
                }
            }
        }
    }
}

/// Over any run from full quality, the last observation sheds quality only where
/// the short window is over its threshold, and takes it back only where that is
/// not so, the long window is under its own and as many frames were seen as it
/// holds; where neither is so, nothing moves.
pub proof fn law_the_gates_hold_over_a_run(
    c: Control,
    os: Seq<Observation>,
    ceiling: u32,
    most: nat,
)
    requires
        untouched(c),
        0 < os.len() <= usize::MAX,
        le(ZERO, ceiling),
        measured(c, os, ceiling, most),
    ensures
        ({
            let before = quality_of(observed(c, os.drop_last()));
            let after = quality_of(observed(c, os));
            let fast = median_of(window(observed(c, os).history, c.cfg.fast_window as nat));
            let slow = median_of(window(observed(c, os).history, c.cfg.slow_window as nat));
            let shed = lt(c.cfg.degrade_above, fast);
            let back = lt(slow, c.cfg.recover_below) && os.len() >= c.cfg.slow_window;
            &&& after > before ==> shed
            &&& after < before ==> !shed && back
            &&& !shed && !back ==> after == before && observed(c, os).tol == observed(
                c,
                os.drop_last(),
            ).tol
        }),
{
    let front = os.drop_last();
    assert forall|i: int| #![trigger front[i]] 0 <= i < front.len() implies {
        let at = observed(c, front.take(i));
        &&& front[i].ceiling == ceiling
        &&& le(at.tol, front[i].climbed)
        &&& le(front[i].bled, at.tol)
        &&& gentle(at, front[i], most)
    } by {
        assert(front[i] == os[i]);
        assert(front.take(i) =~= os.take(i));
    }
    law_a_run_stays_in_bounds(c, front, ceiling, most);
    law_a_run_is_remembered(c, front);
    law_a_run_is_remembered(c, os);
    let last = os[os.len() - 1];
    assert(os.take(os.len() - 1) =~= front);
    assert(last.ceiling == ceiling);
    law_the_quality_moves_through_its_gates(observed(c, front), last);
}

/// What comes out is decided by what went in: two controllers that start alike
/// and observe the same ask for the same quality.
pub proof fn law_equal_observations_give_equal_quality(
    a: Control,
    b: Control,
    os: Seq<Observation>,
    again: Seq<Observation>,
)
    requires
        a == b,
        os.len() == again.len(),
        forall|i: int| 0 <= i < os.len() ==> #[trigger] os[i] == again[i],
    ensures
        quality_of(observed(a, os)) == quality_of(observed(b, again)),
{
    assert(os =~= again);
}

/// An idle terminal never costs any quality: while nothing was ever blocked, a
/// controller at full quality stays there.
pub proof fn law_an_idle_terminal_costs_nothing(c: Control, o: Observation)
    requires
        c.history == Seq::new(MAX_WINDOW as nat, |i: int| ZERO),
        load_of(o) == ZERO,
        le(ZERO, c.cfg.degrade_above),
        le(ZERO, c.tol) && le(c.tol, ZERO),
        le(o.bled, ZERO),
    ensures
        regulated(c, o).history == c.history,
        le(ZERO, regulated(c, o).tol) && le(regulated(c, o).tol, ZERO),
{
    let h = next_history(c, o);
    assert(h =~= c.history);
    let w = window(h, c.cfg.fast_window as nat);
    lemma_median_exists(w);
    let i = choose|i: int| 0 <= i < w.len() && w[i] == median_of(w);
    assert(w[i] == ZERO);
}

/// A frame without a budget counts for nothing, whatever it reports.
pub proof fn law_a_frame_without_a_budget_counts_for_nothing(
    c: Control,
    o: Observation,
    ratio: u32,
)
    requires
        o.budget == 0,
    ensures
        load_of(o) == ZERO,
        regulated(c, o) == regulated(c, (Observation { ratio, ..o })),
{
}

/// The most nanoseconds a span of time can hold.
pub const MAX_NANOS: u128 = 18_446_744_073_709_551_615_999_999_999;

/// What happens to the sum of the times a writer was blocked.
pub enum Timing {
    /// A write or a flush took so many nanoseconds.
    Took(u128),
    Reset,
}

/// The sum after one more of them.
pub open spec fn timed(spent: nat, t: Timing) -> nat {
    match t {
        Timing::Took(nanos) => spent + nanos as nat,
        Timing::Reset => 0,
    }
}

/// The sum after a run of them.
pub open spec fn timed_all(spent: nat, run: Seq<Timing>) -> nat
    decreases run.len(),
{
    if run.len() == 0 {
        spent
    } else {
        timed(timed_all(spent, run.drop_last()), run.last())
    }
}

/// What a run took in all.
pub open spec fn took(run: Seq<Timing>) -> nat
    decreases run.len(),
{
    if run.len() == 0 {
        0
    } else {
        took(run.drop_last()) + match run.last() {
            Timing::Took(nanos) => nanos as nat,
            Timing::Reset => 0,
        }
    }
}

/// The sum is what was spent blocked since the last reset, or since the start
/// where there was none: where nothing from the `k`th on is a reset, and the one
/// before it is, it is what those took together. Between resets it never
/// decreases.
pub proof fn law_the_time_since_the_last_reset(run: Seq<Timing>, k: int, j: int)
    requires
        0 <= k <= j <= run.len(),
        k == 0 || run[k - 1] is Reset,
        forall|i: int| k <= i < run.len() ==> (#[trigger] run[i]) is Took,
    ensures
        timed_all(0, run) == took(run.skip(k)),
        timed_all(0, run.take(j)) <= timed_all(0, run),
    decreases run.len(),
{
    if run.len() == k {
        assert(run.skip(k) =~= Seq::<Timing>::empty());
        assert(run.take(j) =~= run);
    } else {
        let front = run.drop_last();
        assert forall|i: int| k <= i < front.len() implies (#[trigger] front[i]) is Took by {
            assert(front[i] == run[i]);
        }
        law_the_time_since_the_last_reset(
            front,
            k,
            if j == run.len() {
                k
            } else {
                j
            },
        );
        assert(run.skip(k).drop_last() =~= front.skip(k));
        assert(run.skip(k).last() == run[run.len() - 1]);
        if j == run.len() {
            assert(run.take(j) =~= run);
        } else {
            assert(run.take(j) =~= front.take(j));
        }
        assert(run[run.len() - 1] is Took);
    }
}

/// Adds up how long a writer spends in its writes.
///
/// It belongs under any buffering, so that it only ever sees real writes. What
/// it measures is the line refusing to accept more because the terminal has not
/// caught up, which is the governor's entire input.
#[derive(Debug)]
pub struct Backpressure<W> {
    inner: W,
    elapsed: u128,
}

impl<W> Backpressure<W> {
    /// The wrapped writer.
    pub closed spec fn sink(&self) -> W {
        self.inner
    }

    /// Nanoseconds spent blocked.
    pub closed spec fn spent(&self) -> u128 {
        self.elapsed
    }

    pub fn new(inner: W) -> (b: Backpressure<W>)
        ensures
            b.sink() == inner,
            b.spent() == 0,
    {
        Backpressure { inner, elapsed: 0 }
    }

    /// Nanoseconds spent blocked since the last [`Backpressure::reset`].
    #[must_use]
    pub fn elapsed(&self) -> (t: u128)
        ensures
            t == self.spent(),
    {
        self.elapsed
    }

    pub fn reset(&mut self)
        ensures
            final(self).spent() == timed(old(self).spent() as nat, Timing::Reset),
            final(self).sink() == old(self).sink(),
    {
        self.elapsed = 0;
    }

    /// The wrapped writer, to write to.
    pub fn inner_mut(&mut self) -> (w: &mut W)
        ensures
            *w == old(self).sink(),
            final(self).sink() == *final(w),
            final(self).spent() == old(self).spent(),
    {
        &mut self.inner
    }

    /// Adds what one write took. The sum has to stay within what a span of time
    /// can hold.
    pub fn charge(&mut self, nanos: u128)
        requires
            old(self).spent() + nanos <= MAX_NANOS,
        ensures
            final(self).spent() == timed(old(self).spent() as nat, Timing::Took(nanos)),
            final(self).sink() == old(self).sink(),
    {
        self.elapsed = self.elapsed + nanos;
    }
}

/// A quiet spell gives quality back: once as many frames were seen as the long
/// window holds, most of that window is under its threshold and most of the
/// short one is not over its own, the tolerance is the one bled, or none where
/// that is less, and so no higher than it was.
pub proof fn law_a_quiet_spell_gives_quality_back(c: Control, o: Observation)
    requires
        c.history.len() == MAX_WINDOW,
        lt(ZERO, c.cfg.recover_below),
        c.seen < usize::MAX,
        c.seen + 1 >= c.cfg.slow_window,
        ({
            let w = window(next_history(c, o), c.cfg.fast_window as nat);
            below(w, place(c.cfg.degrade_above) + 1) > w.len() / 2
        }),
        ({
            let w = window(next_history(c, o), c.cfg.slow_window as nat);
            &&& below(w, place(c.cfg.recover_below)) > w.len() / 2
            &&& forall|i: int| 0 <= i < w.len() ==> !nan(#[trigger] w[i])
        }),
        !nan(o.bled),
    ensures
        le(ZERO, o.bled) ==> le(regulated(c, o).tol, o.bled) && le(o.bled, regulated(c, o).tol),
        lt(o.bled, ZERO) ==> regulated(c, o).tol == ZERO,
        le(o.bled, c.tol) && le(ZERO, c.tol) ==> le(regulated(c, o).tol, c.tol),
        lt(o.bled, c.tol) && lt(ZERO, c.tol) ==> lt(regulated(c, o).tol, c.tol),
{
    let w = window(next_history(c, o), c.cfg.fast_window as nat);
    lemma_median_exists(w);
    law_the_median_follows_the_majority(w, median_of(w), place(c.cfg.degrade_above) + 1);
    let v = window(next_history(c, o), c.cfg.slow_window as nat);
    lemma_median_exists(v);
    law_the_median_follows_the_majority(v, median_of(v), place(c.cfg.recover_below));
    let i = choose|i: int| 0 <= i < v.len() && v[i] == median_of(v);
    assert(!nan(v[i]));
}

/// An overload takes quality away: once most of the short window is over its
/// threshold, the tolerance is the one climbed to, or the ceiling where that is
/// less, and so no lower than it was.
pub proof fn law_an_overload_takes_quality_away(c: Control, o: Observation)
    requires
        c.history.len() == MAX_WINDOW,
        c.cfg.degrade_above < SIGN,
        !nan(c.cfg.degrade_above),
        ({
            let w = window(next_history(c, o), c.cfg.fast_window as nat);
            &&& below(w, place(c.cfg.degrade_above) + 1) <= w.len() / 2
            &&& forall|i: int| 0 <= i < w.len() ==> !nan(#[trigger] w[i])
        }),
        !nan(o.climbed),
        !nan(o.ceiling),
    ensures
        le(o.climbed, o.ceiling) ==> regulated(c, o).tol == o.climbed,
        lt(o.ceiling, o.climbed) ==> regulated(c, o).tol == o.ceiling,
        lt(c.tol, o.climbed) && lt(c.tol, o.ceiling) ==> lt(c.tol, regulated(c, o).tol),
{
    law_a_bad_majority_sheds(c, o);
}

/// A window holds the latest loads, newest first: as many as it is long, at
/// least one and at most 61. A frame's load is the share of its budget spent
/// blocked, none at least and four budgets at most.
pub proof fn law_a_window_holds_the_latest_loads(c: Control, o: Observation, n: nat, i: int)
    requires
        c.history.len() == 61,
        0 <= i < window(next_history(c, o), n).len(),
    ensures
        1 <= n <= 61 ==> window(next_history(c, o), n).len() == n,
        n == 0 ==> window(next_history(c, o), n).len() == 1,
        n > 61 ==> window(next_history(c, o), n).len() == 61,
        window(next_history(c, o), n)[0] == load_of(o),
        i > 0 ==> window(next_history(c, o), n)[i] == c.history[i - 1],
        regulated(c, o).history == next_history(c, o),
        o.budget > 0 && le(ZERO, o.ratio) && le(o.ratio, WORST_LOAD) ==> load_of(o) == o.ratio,
        o.budget > 0 && lt(WORST_LOAD, o.ratio) ==> load_of(o) == WORST_LOAD,
        o.budget > 0 && lt(o.ratio, ZERO) ==> load_of(o) == ZERO,
        stands_for(WORST_LOAD, 4, 1),
{
    lemma2_to64();
    lemma_stands_for(WORST_LOAD, 4, 1);
}

/// The middle one of an odd number of loads has as many no smaller as no larger:
/// fewer than half of them come before it, and fewer than half behind it.
pub proof fn law_the_median_is_in_the_middle(s: Seq<u32>, m: u32)
    requires
        is_median(s, m),
        s.len() % 2 == 1,
    ensures
        s.contains(m),
        2 * s.filter(|x: u32| place(x) < place(m)).len() < s.len(),
        2 * s.filter(|x: u32| place(x) > place(m)).len() < s.len(),
{
    lemma_below_filters(s, place(m));
    lemma_above_filters(s, place(m));
}

proof fn lemma_below_filters(s: Seq<u32>, p: int)
    ensures
        below(s, p) == s.filter(|x: u32| place(x) < p).len(),
    decreases s.len(),
{
    reveal(Seq::filter);
    if s.len() > 0 {
        lemma_below_filters(s.drop_last(), p);
    }
}

proof fn lemma_above_filters(s: Seq<u32>, p: int)
    ensures
        below(s, p + 1) + s.filter(|x: u32| place(x) > p).len() == s.len(),
    decreases s.len(),
{
    reveal(Seq::filter);
    if s.len() > 0 {
        lemma_above_filters(s.drop_last(), p);
    }
}

/// The quality asked for is the tolerance to the nearest whole unit: no more than
/// half a unit away from it, as far as sixteen bits hold it.
pub proof fn law_the_quality_is_the_tolerance_rounded(c: Control)
    requires
        finite(c.tol),
        le(ZERO, c.tol),
    ensures
        quality_of(c) <= 65535,
        2 * quality_of(c) * pow2(148) <= worth(c.tol) + pow2(148),
        quality_of(c) < 65535 ==> worth(c.tol) + pow2(148) < 2 * (quality_of(c) + 1) * pow2(148),
{
    if c.tol < SIGN {
        law_whole_parts_and_rounding(c.tol, u16::MAX as nat);
    } else {
        let (q, h) = (quality_of(c), pow2(148));
        lemma_pow2_pos(148);
        assert(2 * q * h == 0 && 2 * (q + 1) * h == 2 * h) by (nonlinear_arith)
            requires
                q == 0,
        ;
    }
}

} // verus!
