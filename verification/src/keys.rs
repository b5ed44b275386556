//! Telling a held key apart from a pressed one.
//!
//! A terminal delivers auto-repeat as bytes indistinguishable from a real
//! keypress, so the only signal available is timing. That matters because most
//! of the keys toggle: without a filter, holding one leaves its toggle set to
//! the parity of however many repeats the terminal happened to send.

use vstd::prelude::*;

verus! {

/// Two presses of the same key closer together than this, in nanoseconds, are
/// auto-repeat.
///
/// It sits above the repeat interval of the platforms that matter, or a held
/// key would still get through.
pub const REPEAT_WINDOW: u128 = 150_000_000;

/// A key, as far as it matters which.
#[derive(Clone, Copy, Debug, PartialEq, Eq, Structural)]
pub enum Key {
    Char(char),
    Esc,
    /// Any other, told apart by its number.
    Other(u32),
}

/// Whether a press at `now` repeats the press before it. A clock that went
/// backwards counts as no time at all.
pub open spec fn repeats(last: Option<(Key, u128)>, key: Key, now: u128) -> bool {
    match last {
        Some((k, t)) => k == key && now - t < REPEAT_WINDOW,
        None => false,
    }
}

/// Filters terminal auto-repeat out of a key stream.
pub struct Repeat {
    last: Option<(Key, u128)>,
}

impl Default for Repeat {
    fn default() -> (r: Repeat)
        ensures
            r.last_press() is None,
    {
        Repeat { last: None }
    }
}

impl Repeat {
    /// The latest press, whether or not it was acted on.
    pub closed spec fn last_press(&self) -> Option<(Key, u128)> {
        self.last
    }

    /// Whether this keypress should be acted on.
    ///
    /// The press is remembered even when it is suppressed. Remembering only
    /// those that got through would let every second repeat through.
    ///
    /// Quit keys are for the caller to check first: swallowing one because it
    /// was pressed twice is never the right call.
    pub fn accept(&mut self, key: Key, now: u128) -> (go: bool)
        ensures
            go == !repeats(old(self).last_press(), key, now),
            final(self).last_press() == Some((key, now)),
    {
        let held: bool = match self.last {
            Some((k, t)) => k == key && (now < t || now - t < REPEAT_WINDOW),
            None => false,
        };
        self.last = Some((key, now));
        !held
    }
}

/// Whether the `i`th of a run of presses gets through a fresh filter.
pub open spec fn passes(presses: Seq<(Key, u128)>, i: int) -> bool {
    !repeats(
        if i == 0 {
            None
        } else {
            Some(presses[i - 1])
        },
        presses[i].0,
        presses[i].1,
    )
}

/// A held key acts once, however long it is held and whatever the rate, as long
/// as the repeats come faster than the window.
pub proof fn law_a_held_key_acts_once(presses: Seq<(Key, u128)>, key: Key)
    requires
        forall|i: int| 0 <= i < presses.len() ==> (#[trigger] presses[i]).0 == key,
        forall|i: int, j: int|
            #![trigger presses[i], presses[j]]
            0 <= i < presses.len() && j == i + 1 && j < presses.len() ==> presses[j].1 - presses[i].1
                < REPEAT_WINDOW,
    ensures
        forall|i: int| 0 <= i < presses.len() ==> (#[trigger] passes(presses, i) <==> i == 0),
{
    assert forall|i: int| 0 <= i < presses.len() implies (#[trigger] passes(presses, i) <==> i
        == 0) by {
        if i > 0 {
            assert(presses[i - 1].0 == key);
            assert(presses[i].0 == key);
        }
    }
}

/// Deliberate presses get through: those at least a window apart, each of them.
pub proof fn law_deliberate_presses_get_through(presses: Seq<(Key, u128)>)
    requires
        forall|i: int, j: int|
            #![trigger presses[i], presses[j]]
            0 <= i < presses.len() && j == i + 1 && j < presses.len() ==> presses[j].1 - presses[i].1
                >= REPEAT_WINDOW,
    ensures
        forall|i: int| 0 <= i < presses.len() ==> #[trigger] passes(presses, i),
{
    assert forall|i: int| 0 <= i < presses.len() implies #[trigger] passes(presses, i) by {
        if i > 0 {
            let a = presses[i - 1];
            let b = presses[i];
            assert(b.1 - a.1 >= REPEAT_WINDOW);
        }
    }
}

/// Auto-repeat only ever repeats one key, so a change of key is a real press
/// however fast it comes.
pub proof fn law_a_different_key_is_never_suppressed(presses: Seq<(Key, u128)>, i: int)
    requires
        0 < i < presses.len(),
        presses[i].0 != presses[i - 1].0,
    ensures
        passes(presses, i),
{
}

/// A key pressed again within 150 milliseconds is held, and so is one whose
/// press before seems to lie ahead; after that it is pressed anew.
pub proof fn law_the_repeat_window(key: Key, t: u128, now: u128)
    ensures
        now < t + 150_000_000 ==> repeats(Some((key, t)), key, now),
        now >= t + 150_000_000 ==> !repeats(Some((key, t)), key, now),
        !repeats(None, key, now),
{
}

} // verus!
