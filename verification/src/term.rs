//! Putting the terminal back.

use crate::ansi::{
    csi, decimal, param2, private_mode, queue_enable_wrap, queue_leave_screen, queue_reset,
    queue_show_cursor, reset_all,
};
use vstd::prelude::*;

verus! {

/// What puts the terminal back the way it was found: the window title, the
/// attributes, the cursor, line wrap and the main screen.
pub open spec fn restoration() -> Seq<u8> {
    csi(param2(decimal(23), decimal(2)), 0x74) + reset_all() + private_mode(25, 0x68)
        + private_mode(7, 0x68) + private_mode(1049, 0x6c)
}

/// The bytes that put the terminal back.
///
/// Whoever wrote the last frame has to write these too, or the two can race.
#[must_use]
pub fn restore_sequence() -> (b: Vec<u8>)
    ensures
        b@ == restoration(),
{
    let mut b: Vec<u8> = vec![0x1b, 0x5b, 0x32, 0x33, 0x3b, 0x32, 0x74];
    proof {
        reveal_with_fuel(decimal, 3);
        assert(b@ =~= csi(param2(decimal(23), decimal(2)), 0x74));
    }
    queue_reset(&mut b);
    queue_show_cursor(&mut b);
    queue_enable_wrap(&mut b);
    queue_leave_screen(&mut b);
    b
}

} // verus!
