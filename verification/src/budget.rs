//! How many bytes a frame may cost.
//!
//! One number is watched, the fraction of the frame spent blocked in the write,
//! and the budget creeps toward the value that holds that fraction at a target
//! between the extremes. While the terminal keeps up, no budget is imposed and
//! output is unchanged.

use crate::bits::{
    self, greater, le, lemma_stands_for, lesser, lt, nan, stands_for, whole_part, within, ZERO,
};
use vstd::prelude::*;

verus! {

/// `0.9`. A write eating this much of the frame period means that the frame was
/// far too big.
pub const OVERSHOOT: u32 = 0x3f66_6666;

/// `0.6`, the load the loop aims to hover at.
pub const TARGET_LOAD: u32 = 0x3f19_999a;

/// `0.51`, the load under which there is room again. Between it and the target
/// the budget sits still.
pub const ROOM: u32 = 0x3f02_8f5d;

/// `2048.0`, the least a frame may cost.
pub const FLOOR: u32 = 0x4500_0000;

/// `4096.0`, the least a full repaint is taken to cost.
pub const MIN_CEILING: u32 = 0x4580_0000;

/// One frame's outcome, and where the budget would go from here.
#[derive(Clone, Copy, Debug)]
pub struct Feedback {
    /// Time blocked in the write over the frame period.
    pub load: u32,
    /// What was sent, cut back.
    pub cut: u32,
    /// The budget, one creep down.
    pub down: u32,
    /// The budget, one creep up.
    pub up: u32,
}

/// The middle one of three.
pub open spec fn median3(a: u32, b: u32, c: u32) -> u32 {
    lesser(greater(a, b), greater(lesser(a, b), c))
}

/// The controller in contracts.
pub struct Throttle {
    pub budget: u32,
    /// The last three loads, oldest first.
    pub recent: (u32, u32, u32),
    pub ceiling: u32,
    pub throttling: bool,
}

/// The state after one more frame.
pub open spec fn adjusted(t: Throttle, f: Feedback) -> Throttle {
    let recent = (t.recent.1, t.recent.2, f.load);
    let load = median3(recent.0, recent.1, recent.2);
    if lt(OVERSHOOT, load) {
        // The cut is anchored to what was sent, not to the budget, which may
        // have been sitting far above it.
        Throttle { budget: within(f.cut, FLOOR, t.ceiling), recent, throttling: true, ..t }
    } else if t.throttling {
        let budget = within(
            if lt(TARGET_LOAD, load) {
                f.down
            } else if lt(load, ROOM) {
                f.up
            } else {
                t.budget
            },
            FLOOR,
            t.ceiling,
        );
        // Back at the ceiling with nothing blocking: the terminal has room
        // again, so nothing is imposed at all.
        Throttle { budget, recent, throttling: lt(budget, t.ceiling), ..t }
    } else {
        Throttle { recent, ..t }
    }
}

/// A controller that has learnt nothing yet.
pub open spec fn unthrottled(demand: u32) -> Throttle {
    let ceiling = greater(demand, MIN_CEILING);
    Throttle { budget: ceiling, recent: (ZERO, ZERO, ZERO), ceiling, throttling: false }
}

/// What was learnt about the terminal, in a window of another size.
pub open spec fn rescaled(t: Throttle, demand: u32) -> Throttle {
    let ceiling = greater(demand, MIN_CEILING);
    let budget = within(t.budget, FLOOR, ceiling);
    if t.throttling {
        Throttle { budget, recent: t.recent, ceiling, throttling: lt(budget, ceiling) }
    } else {
        Throttle { budget: ceiling, recent: t.recent, ceiling, throttling: false }
    }
}

/// The budget lies between the floor and the ceiling, and at the ceiling unless
/// it is biting.
pub open spec fn sound(t: Throttle) -> bool {
    &&& le(MIN_CEILING, t.ceiling)
    &&& le(FLOOR, t.budget)
    &&& le(t.budget, t.ceiling)
    &&& !t.throttling ==> t.budget == t.ceiling
}

/// Turns how long the terminal made the last write block into a byte budget for
/// the next frame.
#[derive(Debug)]
pub struct Governor {
    budget: u32,
    /// The last three observed loads. The controller runs off their median: a
    /// frame can block because the process was descheduled, and cutting the
    /// budget does nothing about that.
    recent: (u32, u32, u32),
    ceiling: u32,
    throttling: bool,
}

impl Governor {
    /// The state of the controller.
    pub closed spec fn throttle(&self) -> Throttle {
        Throttle {
            budget: self.budget,
            recent: self.recent,
            ceiling: self.ceiling,
            throttling: self.throttling,
        }
    }

    /// A controller that imposes nothing. `demand` is what a full repaint would
    /// cost: a budget at or above it is the same as no budget.
    #[must_use]
    pub fn new(demand: u32) -> (g: Governor)
        ensures
            g.throttle() == unthrottled(demand),
            sound(g.throttle()),
    {
        let ceiling: u32 = bits::max(demand, MIN_CEILING);
        Governor { budget: ceiling, recent: (ZERO, ZERO, ZERO), ceiling, throttling: false }
    }

    #[must_use]
    pub fn budget(&self) -> (b: usize)
        ensures
            b == whole_part(self.throttle().budget, usize::MAX as nat),
    {
        bits::whole(self.budget)
    }

    /// The budget with its fraction.
    #[must_use]
    pub fn raw_budget(&self) -> (b: u32)
        ensures
            b == self.throttle().budget,
    {
        self.budget
    }

    /// Whether the budget is currently biting.
    #[must_use]
    pub fn throttling(&self) -> (t: bool)
        ensures
            t == self.throttle().throttling,
    {
        self.throttling
    }

    /// Feeds back one frame.
    pub fn observe(&mut self, f: Feedback)
        requires
            sound(old(self).throttle()),
        ensures
            final(self).throttle() == adjusted(old(self).throttle(), f),
            !nan(f.cut) && !nan(f.down) && !nan(f.up) ==> sound(final(self).throttle()),
    {
        self.recent = (self.recent.1, self.recent.2, f.load);
        let (a, b, c) = self.recent;
        let load: u32 = bits::min(bits::max(a, b), bits::max(bits::min(a, b), c));
        if bits::less(OVERSHOOT, load) {
            self.budget = bits::clamp(f.cut, FLOOR, self.ceiling);
            self.throttling = true;
        } else if self.throttling {
            let next: u32 = if bits::less(TARGET_LOAD, load) {
                f.down
            } else if bits::less(load, ROOM) {
                f.up
            } else {
                self.budget
            };
            self.budget = bits::clamp(next, FLOOR, self.ceiling);
            self.throttling = bits::less(self.budget, self.ceiling);
        }
    }

    /// Keeps what was learnt about the terminal and rescales what depends on
    /// the window.
    pub fn resize(&mut self, demand: u32)
        requires
            sound(old(self).throttle()),
        ensures
            final(self).throttle() == rescaled(old(self).throttle(), demand),
            sound(final(self).throttle()),
    {
        self.ceiling = bits::max(demand, MIN_CEILING);
        if self.throttling {
            self.budget = bits::clamp(self.budget, FLOOR, self.ceiling);
            self.throttling = bits::less(self.budget, self.ceiling);
        } else {
            self.budget = self.ceiling;
        }
    }
}

/// The middle of three is over a threshold exactly when two of them are.
pub proof fn law_the_middle_of_three_takes_two(a: u32, b: u32, c: u32, t: u32)
    requires
        !nan(a) && !nan(b) && !nan(c),
    ensures
        lt(t, median3(a, b, c)) <==> (lt(t, a) && lt(t, b)) || (lt(t, a) && lt(t, c)) || (lt(t, b)
            && lt(t, c)),
{
}

/// One spike does not throttle: a single frame over the mark, with the two
/// before it under, changes nothing while the terminal was keeping up.
pub proof fn law_one_spike_does_not_throttle(t: Throttle, f: Feedback)
    requires
        !t.throttling,
        le(t.recent.1, OVERSHOOT),
        le(t.recent.2, OVERSHOOT),
        !nan(f.load),
    ensures
        adjusted(t, f).budget == t.budget,
        !adjusted(t, f).throttling,
{
}

/// A sustained overload throttles: two frames out of three over the mark cut the
/// budget to what was sent, cut back.
pub proof fn law_a_sustained_overload_throttles(t: Throttle, f: Feedback)
    requires
        lt(OVERSHOOT, t.recent.2),
        lt(OVERSHOOT, f.load),
        !nan(t.recent.1),
    ensures
        adjusted(t, f).throttling,
        adjusted(t, f).budget == within(f.cut, FLOOR, t.ceiling),
{
}

/// Nothing is imposed while the terminal keeps up.
pub proof fn law_an_idle_terminal_is_never_throttled(t: Throttle, f: Feedback)
    requires
        !t.throttling,
        le(t.recent.1, OVERSHOOT),
        le(t.recent.2, OVERSHOOT),
        le(f.load, OVERSHOOT),
    ensures
        !adjusted(t, f).throttling,
        adjusted(t, f).budget == t.budget,
{
}

/// Between room and target the budget sits still.
pub proof fn law_the_dead_band_sits_still(t: Throttle, f: Feedback)
    requires
        sound(t),
        t.throttling,
        le(ROOM, median3(t.recent.1, t.recent.2, f.load)),
        le(median3(t.recent.1, t.recent.2, f.load), TARGET_LOAD),
    ensures
        adjusted(t, f).budget == t.budget,
{
}

/// The budget never leaves the range between its floor and a full repaint, so
/// it never starves the picture out; and whenever it is not biting it is a full
/// repaint, which is no budget at all.
pub proof fn law_the_budget_never_starves(t: Throttle, f: Feedback, demand: u32)
    requires
        sound(t),
        !nan(f.cut) && !nan(f.down) && !nan(f.up),
    ensures
        sound(adjusted(t, f)),
        sound(rescaled(t, demand)),
        sound(unthrottled(demand)),
{
}

/// A resize keeps what was learnt: the loads seen, and the budget as far as the
/// new window allows it.
pub proof fn law_a_resize_keeps_what_was_learnt(t: Throttle, demand: u32)
    requires
        sound(t),
    ensures
        rescaled(t, demand).recent == t.recent,
        t.throttling && le(t.budget, greater(demand, MIN_CEILING)) ==> rescaled(t, demand).budget
            == t.budget,
        !t.throttling ==> !rescaled(t, demand).throttling,
{
}

/// At least two of three loads are over a mark.
pub open spec fn mostly_over(a: u32, b: u32, c: u32, mark: u32) -> bool {
    lt(mark, a) && lt(mark, b) || lt(mark, a) && lt(mark, c) || lt(mark, b) && lt(mark, c)
}

/// At least two of three loads are under a mark.
pub open spec fn mostly_under(a: u32, b: u32, c: u32, mark: u32) -> bool {
    lt(a, mark) && lt(b, mark) || lt(a, mark) && lt(c, mark) || lt(b, mark) && lt(c, mark)
}

/// Over its target and short of an overshoot, a throttled terminal is sent less:
/// the next budget is the one crept down, kept between the floor and a full
/// repaint, and where that creep is not upwards the budget does not grow.
pub proof fn law_over_the_target_the_budget_creeps_down(t: Throttle, f: Feedback)
    requires
        sound(t),
        t.throttling,
        !nan(t.recent.1) && !nan(t.recent.2) && !nan(f.load),
        mostly_over(t.recent.1, t.recent.2, f.load, TARGET_LOAD),
        !mostly_over(t.recent.1, t.recent.2, f.load, OVERSHOOT),
        !nan(f.down),
    ensures
        le(FLOOR, f.down) && le(f.down, t.ceiling) ==> adjusted(t, f).budget == f.down,
        lt(f.down, FLOOR) ==> adjusted(t, f).budget == FLOOR,
        lt(t.ceiling, f.down) ==> adjusted(t, f).budget == t.ceiling,
        le(f.down, t.budget) ==> le(adjusted(t, f).budget, t.budget),
{
}

/// With room to spare, a throttled terminal is sent more: the next budget is the
/// one crept up, kept between the floor and a full repaint, and where that creep
/// is not downwards the budget does not shrink. Once it is a full repaint,
/// nothing is imposed any more.
pub proof fn law_with_room_the_budget_creeps_up(t: Throttle, f: Feedback)
    requires
        sound(t),
        t.throttling,
        !nan(t.recent.1) && !nan(t.recent.2) && !nan(f.load),
        mostly_under(t.recent.1, t.recent.2, f.load, ROOM),
        !nan(f.up),
    ensures
        le(FLOOR, f.up) && le(f.up, t.ceiling) ==> adjusted(t, f).budget == f.up,
        lt(f.up, FLOOR) ==> adjusted(t, f).budget == FLOOR,
        le(t.budget, f.up) ==> le(t.budget, adjusted(t, f).budget),
        lt(t.ceiling, f.up) ==> adjusted(t, f).budget == t.ceiling,
        le(t.ceiling, f.up) ==> !adjusted(t, f).throttling,
        lt(f.up, t.ceiling) ==> adjusted(t, f).throttling,
{
}

/// An overshoot is answered from what was sent: two loads of three over the mark
/// throttle at the cut, within the floor and a full repaint, whatever the budget
/// was before.
pub proof fn law_an_overshoot_cuts_what_was_sent(t: Throttle, f: Feedback, budget: u32)
    requires
        sound(t),
        !nan(t.recent.1) && !nan(t.recent.2) && !nan(f.load),
        mostly_over(t.recent.1, t.recent.2, f.load, OVERSHOOT),
        !nan(f.cut),
    ensures
        adjusted(t, f).throttling,
        le(FLOOR, f.cut) && le(f.cut, t.ceiling) ==> adjusted(t, f).budget == f.cut,
        lt(f.cut, FLOOR) ==> adjusted(t, f).budget == FLOOR,
        lt(t.ceiling, f.cut) ==> adjusted(t, f).budget == t.ceiling,
        adjusted((Throttle { budget, ..t }), f).budget == adjusted(t, f).budget,
{
}

/// The last three loads are kept, oldest first, and a frame leaves what a full
/// repaint costs as it is.
pub proof fn law_the_last_three_loads_are_kept(t: Throttle, a: Feedback, b: Feedback, c: Feedback)
    ensures
        adjusted(adjusted(adjusted(t, a), b), c).recent == (a.load, b.load, c.load),
        adjusted(t, a).ceiling == t.ceiling,
        adjusted(t, a).recent.0 == t.recent.1,
        adjusted(t, a).recent.1 == t.recent.2,
{
}

/// Nothing is imposed to begin with, and after a resize no more than what was
/// imposed before it: a budget below a full repaint stays, one that is not is
/// none.
pub proof fn law_a_full_repaint_is_no_budget(t: Throttle, demand: u32)
    requires
        sound(t),
        !nan(demand),
    ensures
        !unthrottled(demand).throttling,
        le(demand, unthrottled(demand).budget),
        le(MIN_CEILING, demand) ==> unthrottled(demand).budget == demand,
        unthrottled(demand).ceiling == unthrottled(demand).budget,
        rescaled(t, demand).ceiling == unthrottled(demand).ceiling,
        rescaled(t, demand).throttling <==> t.throttling && lt(
            t.budget,
            unthrottled(demand).ceiling,
        ),
        rescaled(t, demand).throttling ==> rescaled(t, demand).budget == t.budget,
        !rescaled(t, demand).throttling ==> le(demand, rescaled(t, demand).budget),
{
}

/// The marks are where they are said to be: an overshoot at nine tenths of the
/// frame, the target at six tenths, room under 0.85 of that, as a product of the
/// two in single precision, the floor at 2048 bytes and the least full repaint at
/// 4096.
pub proof fn law_the_marks_of_the_load()
    ensures
        stands_for(OVERSHOOT, 9, 10),
        stands_for(TARGET_LOAD, 6, 10),
        stands_for(ROOM, 10_066_330 * 14_260_634, 0x1_0000_0000_0000),
        stands_for(FLOOR, 2048, 1),
        stands_for(MIN_CEILING, 4096, 1),
{
    vstd::arithmetic::power2::lemma2_to64();
    lemma_stands_for(OVERSHOOT, 9, 10);
    lemma_stands_for(TARGET_LOAD, 6, 10);
    lemma_stands_for(ROOM, 10_066_330 * 14_260_634, 0x1_0000_0000_0000);
    lemma_stands_for(FLOOR, 2048, 1);
    lemma_stands_for(MIN_CEILING, 4096, 1);
}

/// A governor starts out unprejudiced: no first frame throttles it, however long
/// it blocked, and two that overshoot do.
pub proof fn law_one_bad_start_is_forgiven(demand: u32, a: Feedback, b: Feedback)
    requires
        !nan(a.load),
        !nan(b.load),
    ensures
        !adjusted(unthrottled(demand), a).throttling,
        adjusted(unthrottled(demand), a).budget == unthrottled(demand).budget,
        lt(OVERSHOOT, a.load) && lt(OVERSHOOT, b.load) ==> adjusted(
            adjusted(unthrottled(demand), a),
            b,
        ).throttling,
        le(a.load, OVERSHOOT) ==> !adjusted(adjusted(unthrottled(demand), a), b).throttling,
{
}

} // verus!
