//! Timing instrumentation.
//!
//! Smoothness is a distribution, not an average, so what is kept is every
//! interval, and what is reported is their spread. Times are in nanoseconds.

use vstd::prelude::*;
use vstd::relations::{sorted_by, total_ordering};
use vstd::seq_lib::lemma_sorted_unique;

verus! {

/// The order of numbers.
pub open spec fn ascending() -> spec_fn(u128, u128) -> bool {
    |a: u128, b: u128| a <= b
}

/// The numbers in ascending order.
pub open spec fn in_order(v: Seq<u128>) -> Seq<u128> {
    v.sort_by(ascending())
}

/// Where in the order of `n` numbers the given percentage falls, to the nearest.
pub open spec fn rank_at(n: nat, percent: nat) -> int {
    ((n - 1) * percent + 50) / 100
}

fn merge(a: &Vec<u128>, b: &Vec<u128>) -> (out: Vec<u128>)
    requires
        sorted_by(a@, ascending()),
        sorted_by(b@, ascending()),
        a@.len() + b@.len() <= usize::MAX,
    ensures
        sorted_by(out@, ascending()),
        out@.to_multiset() == a@.to_multiset().add(b@.to_multiset()),
{
    broadcast use vstd::seq_lib::group_to_multiset_ensures;

    let mut out: Vec<u128> = Vec::with_capacity(a.len() + b.len());
    let mut i: usize = 0;
    let mut j: usize = 0;
    proof {
        assert(a@.take(0) =~= Seq::empty());
        assert(b@.take(0) =~= Seq::empty());
        assert(out@.to_multiset() =~= a@.take(0).to_multiset().add(b@.take(0).to_multiset()));
    }
    while i < a.len() || j < b.len()
        invariant
            i <= a@.len(),
            j <= b@.len(),
            sorted_by(a@, ascending()),
            sorted_by(b@, ascending()),
            sorted_by(out@, ascending()),
            forall|k: int, m: int|
                0 <= k < out@.len() && i <= m < a@.len() ==> #[trigger] out@[k] <= #[trigger] a@[m],
            forall|k: int, m: int|
                0 <= k < out@.len() && j <= m < b@.len() ==> #[trigger] out@[k] <= #[trigger] b@[m],
            out@.to_multiset() == a@.take(i as int).to_multiset().add(
                b@.take(j as int).to_multiset(),
            ),
        decreases a.len() - i + b.len() - j,
    {
        broadcast use vstd::seq_lib::group_to_multiset_ensures;

        let left: bool = j >= b.len() || (i < a.len() && a[i] <= b[j]);
        let ghost before = out@;
        let v: u128 = if left {
            a[i]
        } else {
            b[j]
        };
        proof {
            assert forall|m: int| i <= m < a@.len() implies v <= #[trigger] a@[m] by {
                assert(m > i ==> ascending()(a@[i as int], a@[m]));
            }
            assert forall|m: int| j <= m < b@.len() implies v <= #[trigger] b@[m] by {
                assert(m > j ==> ascending()(b@[j as int], b@[m]));
            }
            assert forall|k: int| 0 <= k < before.len() implies #[trigger] before[k] <= v by {
                if left {
                    assert(before[k] <= a@[i as int]);
                } else {
                    assert(before[k] <= b@[j as int]);
                }
            }
        }
        out.push(v);
        proof {
            assert forall|k: int, m: int| 0 <= k < m < out@.len() implies #[trigger] ascending()(
                out@[k],
                out@[m],
            ) by {
                if m < before.len() {
                    assert(ascending()(before[k], before[m]));
                } else {
                    assert(before[k] <= v);
                }
            }
        }
        if left {
            proof {
                assert(a@.take(i + 1) =~= a@.take(i as int).push(v));
                assert(out@.to_multiset() =~= a@.take(i + 1).to_multiset().add(
                    b@.take(j as int).to_multiset(),
                ));
            }
            i = i + 1;
        } else {
            proof {
                assert(b@.take(j + 1) =~= b@.take(j as int).push(v));
                assert(out@.to_multiset() =~= a@.take(i as int).to_multiset().add(
                    b@.take(j + 1).to_multiset(),
                ));
            }
            j = j + 1;
        }
    }
    assert(a@.take(i as int) =~= a@);
    assert(b@.take(j as int) =~= b@);
    out
}

/// The numbers from `lo` up to `hi`, in order.
fn sort_range(v: &Vec<u128>, lo: usize, hi: usize) -> (out: Vec<u128>)
    requires
        lo <= hi <= v@.len(),
    ensures
        sorted_by(out@, ascending()),
        out@.to_multiset() == v@.subrange(lo as int, hi as int).to_multiset(),
        out@.len() == hi - lo,
    decreases hi - lo,
{
    broadcast use vstd::seq_lib::group_to_multiset_ensures;

    if hi - lo <= 1 {
        let mut out: Vec<u128> = Vec::new();
        if lo < hi {
            out.push(v[lo]);
        }
        assert(out@ =~= v@.subrange(lo as int, hi as int));
        return out;
    }
    let mid: usize = lo + (hi - lo) / 2;
    let a: Vec<u128> = sort_range(v, lo, mid);
    let b: Vec<u128> = sort_range(v, mid, hi);
    let out: Vec<u128> = merge(&a, &b);
    proof {
        let left = v@.subrange(lo as int, mid as int);
        let right = v@.subrange(mid as int, hi as int);
        assert(v@.subrange(lo as int, hi as int) =~= left + right);
        vstd::seq_lib::lemma_multiset_commutative(left, right);
        assert(out@.to_multiset().len() == out@.len());
        assert(v@.subrange(lo as int, hi as int).to_multiset().len() == hi - lo);
    }
    out
}

/// The numbers in ascending order.
#[must_use]
pub fn sorted(v: &Vec<u128>) -> (out: Vec<u128>)
    ensures
        out@ == in_order(v@),
        out@.len() == v@.len(),
{
    let out: Vec<u128> = sort_range(v, 0, v.len());
    proof {
        assert(v@.subrange(0, v@.len() as int) =~= v@);
        assert(total_ordering(ascending()));
        v@.lemma_sort_by_ensures(ascending());
        lemma_sorted_unique(out@, in_order(v@), ascending());
    }
    out
}

/// The number that the given percentage of the others come up to: nothing where
/// there are none.
#[must_use]
pub fn quantile(v: &Vec<u128>, percent: usize) -> (q: Option<u128>)
    requires
        percent <= 100,
    ensures
        q == (if v@.len() == 0 {
            None
        } else {
            Some(in_order(v@)[rank_at(v@.len(), percent as nat)])
        }),
{
    if v.len() == 0 {
        return None;
    }
    let s: Vec<u128> = sorted(v);
    let n: u128 = s.len() as u128 - 1;
    assert(n * percent <= n * 100) by (nonlinear_arith)
        requires
            percent <= 100,
    ;
    let k: u128 = (n * percent as u128 + 50) / 100;
    Some(s[k as usize])
}

/// What was measured.
#[verifier::ext_equal]
pub struct Record {
    /// Wall interval between loop ticks.
    pub ticks: Seq<u128>,
    /// Wall interval between frames that actually reached the terminal.
    pub frames: Seq<u128>,
    /// Simulated time carried by each of those frames.
    pub steps: Seq<u128>,
    /// Simulated time since the last frame.
    pub pending: u128,
    pub seen_frame: bool,
    /// Simulated time altogether, and wall time.
    pub sim: u128,
    pub wall: u128,
}

/// A record with one more tick in it.
pub open spec fn with_tick(r: Record, interval: u128, dt: u128) -> Record {
    Record {
        ticks: r.ticks.push(interval),
        wall: (r.wall + interval) as u128,
        sim: (r.sim + dt) as u128,
        pending: (r.pending + dt) as u128,
        ..r
    }
}

/// A record with one more frame in it. The first one straddles the boundary into
/// the measured window: its wall interval reaches back before measurement
/// started but its simulated time does not, so the pair is not comparable and
/// is dropped.
pub open spec fn with_frame(r: Record, interval: u128) -> Record {
    if r.seen_frame {
        Record {
            frames: r.frames.push(interval),
            steps: r.steps.push(r.pending),
            pending: 0,
            ..r
        }
    } else {
        Record { seen_frame: true, pending: 0, ..r }
    }
}

/// Timing recorder.
pub struct Bench {
    ticks: Vec<u128>,
    frames: Vec<u128>,
    steps: Vec<u128>,
    pending: u128,
    seen_frame: bool,
    sim: u128,
    wall: u128,
}

impl Default for Bench {
    fn default() -> (b: Bench)
        ensures
            b.record() == (Record {
                ticks: Seq::empty(),
                frames: Seq::empty(),
                steps: Seq::empty(),
                pending: 0,
                seen_frame: false,
                sim: 0,
                wall: 0,
            }),
    {
        Bench {
            ticks: Vec::new(),
            frames: Vec::new(),
            steps: Vec::new(),
            pending: 0,
            seen_frame: false,
            sim: 0,
            wall: 0,
        }
    }
}

impl Bench {
    /// What was measured so far.
    pub closed spec fn record(&self) -> Record {
        Record {
            ticks: self.ticks@,
            frames: self.frames@,
            steps: self.steps@,
            pending: self.pending,
            seen_frame: self.seen_frame,
            sim: self.sim,
            wall: self.wall,
        }
    }

    /// A tick came `interval` after the last and moved the rain by `dt`.
    pub fn tick(&mut self, interval: u128, dt: u128)
        requires
            old(self).record().wall + interval <= u128::MAX,
            old(self).record().sim + dt <= u128::MAX,
            old(self).record().pending + dt <= u128::MAX,
        ensures
            final(self).record() == with_tick(old(self).record(), interval, dt),
    {
        self.ticks.push(interval);
        self.wall = self.wall + interval;
        self.sim = self.sim + dt;
        self.pending = self.pending + dt;
        assert(self.record() =~= with_tick(old(self).record(), interval, dt));
    }

    /// A frame came `interval` after the last.
    pub fn frame(&mut self, interval: u128)
        ensures
            final(self).record() == with_frame(old(self).record(), interval),
    {
        if self.seen_frame {
            self.frames.push(interval);
            self.steps.push(self.pending);
        }
        self.seen_frame = true;
        self.pending = 0;
        assert(self.record() =~= with_frame(old(self).record(), interval));
    }

    /// Intervals between ticks.
    #[must_use]
    pub fn ticks(&self) -> (v: &Vec<u128>)
        ensures
            v@ == self.record().ticks,
    {
        &self.ticks
    }

    /// Intervals between frames.
    #[must_use]
    pub fn frames(&self) -> (v: &Vec<u128>)
        ensures
            v@ == self.record().frames,
    {
        &self.frames
    }

    /// Simulated time per frame.
    #[must_use]
    pub fn steps(&self) -> (v: &Vec<u128>)
        ensures
            v@ == self.record().steps,
    {
        &self.steps
    }

    /// Simulated time and wall time altogether. They are the same where the
    /// rain kept up with the clock.
    #[must_use]
    pub fn totals(&self) -> (t: (u128, u128))
        ensures
            t == (self.record().sim, self.record().wall),
    {
        (self.sim, self.wall)
    }
}

/// Something that is measured: a tick, with its interval and its step, or a
/// frame, with its interval.
pub enum Beat {
    Tick(u128, u128),
    Frame(u128),
}

/// What a run of them leaves.
pub open spec fn recorded(r: Record, run: Seq<Beat>) -> Record
    decreases run.len(),
{
    if run.len() == 0 {
        r
    } else {
        let before = recorded(r, run.drop_last());
        match run.last() {
            Beat::Tick(interval, dt) => with_tick(before, interval, dt),
            Beat::Frame(interval) => with_frame(before, interval),
        }
    }
}

/// Every frame that is kept carries the simulated time of its own: there are as
/// many steps as intervals, whatever the run.
pub proof fn law_every_frame_has_its_step(r: Record, run: Seq<Beat>)
    requires
        r.frames.len() == r.steps.len(),
    ensures
        recorded(r, run).frames.len() == recorded(r, run).steps.len(),
    decreases run.len(),
{
    if run.len() > 0 {
        law_every_frame_has_its_step(r, run.drop_last());
    }
}

/// The order holds the same numbers, from the least to the greatest: no
/// percentage gives less than a smaller one does.
pub proof fn law_quantiles_do_not_cross(v: Seq<u128>, low: nat, high: nat)
    requires
        v.len() > 0,
        low <= high <= 100,
    ensures
        in_order(v).to_multiset() == v.to_multiset(),
        in_order(v).len() == v.len(),
        0 <= rank_at(v.len(), low) <= rank_at(v.len(), high) < v.len(),
        in_order(v)[rank_at(v.len(), low)] <= in_order(v)[rank_at(v.len(), high)],
        rank_at(v.len(), 100) == v.len() - 1,
{
    broadcast use vstd::seq_lib::group_to_multiset_ensures;

    assert(total_ordering(ascending()));
    v.lemma_sort_by_ensures(ascending());
    let s = in_order(v);
    assert(s.to_multiset().len() == v.to_multiset().len());
    let n = v.len() - 1;
    assert(n * low <= n * high <= n * 100) by (nonlinear_arith)
        requires
            n >= 0,
            low <= high <= 100,
    ;
    assert(0 <= n * low) by (nonlinear_arith)
        requires
            n >= 0,
    ;
    let i = rank_at(v.len(), low);
    let j = rank_at(v.len(), high);
    if i < j {
        assert(ascending()(s[i], s[j]));
    }
}

/// A percentage of a run falls on the number nearest to it: none of it on the
/// first, all of it on the last, and in between no more than half a place off.
pub proof fn law_a_percentage_falls_on_the_nearest(n: nat, percent: nat)
    requires
        n > 0,
        percent <= 100,
    ensures
        -50 < 100 * rank_at(n, percent) - (n - 1) * percent <= 50,
        rank_at(n, 0) == 0,
        rank_at(n, 100) == n - 1,
{
    assert((n - 1) * 0 == 0) by (nonlinear_arith);
}

/// The sum of some numbers.
pub open spec fn total(v: Seq<u128>) -> nat
    decreases v.len(),
{
    if v.len() == 0 {
        0
    } else {
        total(v.drop_last()) + v.last() as nat
    }
}

/// What a run of ticks asks a record to hold.
pub open spec fn asked(run: Seq<Beat>) -> (nat, nat)
    decreases run.len(),
{
    if run.len() == 0 {
        (0, 0)
    } else {
        let (wall, sim) = asked(run.drop_last());
        match run.last() {
            Beat::Tick(interval, dt) => (wall + interval as nat, sim + dt as nat),
            Beat::Frame(_) => (wall, sim),
        }
    }
}

/// No time is lost: the ticks add up to the wall time of the run, and the steps
/// that its frames carry, with what is still pending, to its simulated time, once
/// a first frame was seen.
pub proof fn law_no_time_is_lost(r: Record, run: Seq<Beat>)
    requires
        r.seen_frame,
        r.wall + asked(run).0 <= u128::MAX,
        r.sim + asked(run).1 <= u128::MAX,
        r.pending + asked(run).1 <= u128::MAX,
    ensures
        ({
            let a = recorded(r, run);
            &&& a.seen_frame
            &&& total(a.ticks) == total(r.ticks) + asked(run).0
            &&& a.wall == r.wall + asked(run).0
            &&& a.sim == r.sim + asked(run).1
            &&& total(a.steps) + a.pending == total(r.steps) + r.pending + asked(run).1
            &&& a.pending <= r.pending + asked(run).1
        }),
    decreases run.len(),
{
    if run.len() > 0 {
        let front = run.drop_last();
        law_no_time_is_lost(r, front);
        let b = recorded(r, front);
        match run.last() {
            Beat::Tick(interval, dt) => {
                assert(b.ticks.push(interval).drop_last() =~= b.ticks);
            },
            Beat::Frame(_) => {
                assert(b.steps.push(b.pending).drop_last() =~= b.steps);
            },
        }
    }
}

/// A frame is kept with its interval and with what was pending, and starts the
/// next from nothing; the first is not kept, as it reaches back before the
/// measurement. A tick is kept with its interval and belongs to the frame that
/// comes.
pub proof fn law_a_frame_is_kept_with_its_step(r: Record, interval: u128, dt: u128)
    requires
        r.pending + dt <= u128::MAX,
    ensures
        with_frame(r, interval).pending == 0,
        with_frame(r, interval).seen_frame,
        with_frame(r, interval).ticks == r.ticks,
        r.seen_frame ==> with_frame(r, interval).frames == r.frames.push(interval)
            && with_frame(r, interval).steps == r.steps.push(r.pending),
        !r.seen_frame ==> with_frame(r, interval).frames == r.frames && with_frame(
            r,
            interval,
        ).steps == r.steps,
        with_tick(r, interval, dt).ticks == r.ticks.push(interval),
        with_tick(r, interval, dt).pending == r.pending + dt,
        with_tick(r, interval, dt).frames == r.frames,
        with_tick(r, interval, dt).steps == r.steps,
        with_tick(r, interval, dt).seen_frame == r.seen_frame,
{
}

} // verus!
