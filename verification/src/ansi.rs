//! The escape sequences the library emits, and the calls that produce them.
//!
//! [`Op`] is the vocabulary the renderer draws with and [`encode`] is the byte
//! string each word of it stands for on the wire.
//!
//! The calls append to a byte buffer, which cannot fail. They do so wherever
//! the terminal takes escape sequences; only a Windows console that takes none
//! is driven through other calls, and nothing is claimed for it.

use crate::theme::Color;
use crossterm::cursor;
use crossterm::style;
use crossterm::terminal;
use crossterm::QueueableCommand;
use vstd::prelude::*;
use vstd::utf8::encode_utf8;

verus! {

/// One drawing instruction.
pub enum Op {
    /// Put the cursor on column `x` of row `y`, both counted from zero.
    MoveTo { x: u16, y: u16 },
    /// Step the cursor right.
    MoveRight(u16),
    /// Backspace, then a bare line feed.
    DownLeft,
    /// Set the foreground pen. A `muted` one carries no colour: that is what
    /// comes out while colour output is switched off for the process.
    Pen { color: Color, muted: bool },
    /// Print one glyph at the cursor.
    Put(char),
}

/// `n` in decimal, without leading zeros.
pub open spec fn decimal(n: nat) -> Seq<u8>
    decreases n,
{
    if n < 10 {
        seq![(48 + n) as u8]
    } else {
        decimal(n / 10).push((48 + n % 10) as u8)
    }
}

/// A control sequence: `ESC [`, the parameters, a final byte.
pub open spec fn csi(params: Seq<u8>, last: u8) -> Seq<u8> {
    seq![0x1bu8, 0x5b] + params + seq![last]
}

/// Two parameters, separated as a control sequence separates them.
pub open spec fn param2(a: Seq<u8>, b: Seq<u8>) -> Seq<u8> {
    a + seq![0x3bu8] + b
}

/// What selects `color` inside an SGR sequence, after the 38 or 48.
pub open spec fn color_params(color: Color) -> Seq<u8> {
    match color {
        Color::Rgb { r, g, b } => param2(
            decimal(2),
            param2(decimal(r as nat), param2(decimal(g as nat), decimal(b as nat))),
        ),
        Color::AnsiValue(n) => param2(decimal(5), decimal(n as nat)),
    }
}

/// An SGR sequence that selects `color` on the plane `plane`, or an empty one.
pub open spec fn sgr_color(plane: nat, color: Color, muted: bool) -> Seq<u8> {
    if muted {
        csi(Seq::empty(), 0x6d)
    } else {
        csi(param2(decimal(plane), color_params(color)), 0x6d)
    }
}

/// The bytes of one instruction.
pub open spec fn encode(op: Op) -> Seq<u8> {
    match op {
        Op::MoveTo { x, y } => csi(param2(decimal((y + 1) as nat), decimal((x + 1) as nat)), 0x48),
        Op::MoveRight(n) => csi(decimal(n as nat), 0x43),
        Op::DownLeft => seq![0x08u8, 0x0a],
        Op::Pen { color, muted } => sgr_color(38, color, muted),
        Op::Put(ch) => encode_utf8(seq![ch]),
    }
}

/// The bytes of a run of instructions.
pub open spec fn encode_all(ops: Seq<Op>) -> Seq<u8>
    decreases ops.len(),
{
    if ops.len() == 0 {
        Seq::empty()
    } else {
        encode_all(ops.drop_last()) + encode(ops.last())
    }
}

/// `crossterm::cursor::MoveTo`, queued on a byte buffer: appends the absolute
/// cursor move. The row and the column are incremented in sixteen bits, so the
/// largest value of each is left out.
#[verifier::external_body]
pub(crate) fn queue_move_to(out: &mut Vec<u8>, x: u16, y: u16)
    requires
        x < u16::MAX,
        y < u16::MAX,
    ensures
        final(out)@ == old(out)@ + encode(Op::MoveTo { x, y }),
{
    let _ = out.queue(cursor::MoveTo(x, y));
}

/// `crossterm::cursor::MoveRight`, queued on a byte buffer.
#[verifier::external_body]
pub(crate) fn queue_move_right(out: &mut Vec<u8>, n: u16)
    ensures
        final(out)@ == old(out)@ + encode(Op::MoveRight(n)),
{
    let _ = out.queue(cursor::MoveRight(n));
}

/// `crossterm::style::SetForegroundColor`, queued on a byte buffer: appends the
/// sequence for `color`, or an empty SGR sequence where the process has colour
/// output switched off (`NO_COLOR`), which no argument tells.
#[verifier::external_body]
pub(crate) fn queue_foreground(out: &mut Vec<u8>, color: Color)
    ensures
        exists|muted: bool|
            final(out)@ == old(out)@ + #[trigger] encode(Op::Pen { color, muted }),
{
    let _ = out.queue(style::SetForegroundColor(match color {
        Color::Rgb { r, g, b } => style::Color::Rgb { r, g, b },
        Color::AnsiValue(n) => style::Color::AnsiValue(n),
    }));
}

/// `crossterm::style::Print` of one character, queued on a byte buffer: appends
/// its UTF-8 encoding.
#[verifier::external_body]
pub(crate) fn queue_char(out: &mut Vec<u8>, ch: char)
    ensures
        final(out)@ == old(out)@ + encode(Op::Put(ch)),
{
    let _ = out.queue(style::Print(ch));
}

/// An SGR sequence that switches every attribute and colour off.
pub open spec fn reset_all() -> Seq<u8> {
    csi(decimal(0), 0x6d)
}

/// A private mode switched on (`h`) or off (`l`).
pub open spec fn private_mode(n: nat, last: u8) -> Seq<u8> {
    csi(seq![0x3fu8] + decimal(n), last)
}

/// `crossterm::style::SetBackgroundColor`, queued on a byte buffer. Like the
/// foreground, it comes out empty where the process has colour output off.
#[verifier::external_body]
pub(crate) fn queue_background(out: &mut Vec<u8>, color: Color)
    ensures
        exists|muted: bool| final(out)@ == old(out)@ + #[trigger] sgr_color(48, color, muted),
{
    let _ = out.queue(style::SetBackgroundColor(match color {
        Color::Rgb { r, g, b } => style::Color::Rgb { r, g, b },
        Color::AnsiValue(n) => style::Color::AnsiValue(n),
    }));
}

/// `crossterm::style::SetAttribute` with `Attribute::Reset`, queued on a byte
/// buffer.
#[verifier::external_body]
pub(crate) fn queue_reset(out: &mut Vec<u8>)
    ensures
        final(out)@ == old(out)@ + reset_all(),
{
    let _ = out.queue(style::SetAttribute(style::Attribute::Reset));
}

/// `crossterm::style::Print` of a string, queued on a byte buffer: appends its
/// UTF-8 encoding.
#[verifier::external_body]
pub(crate) fn queue_text(out: &mut Vec<u8>, text: &str)
    ensures
        final(out)@ == old(out)@ + encode_utf8(text@),
{
    let _ = out.queue(style::Print(text));
}

/// `crossterm::cursor::Show`, queued on a byte buffer.
#[verifier::external_body]
pub(crate) fn queue_show_cursor(out: &mut Vec<u8>)
    ensures
        final(out)@ == old(out)@ + private_mode(25, 0x68),
{
    let _ = out.queue(cursor::Show);
}

/// `crossterm::terminal::EnableLineWrap`, queued on a byte buffer.
#[verifier::external_body]
pub(crate) fn queue_enable_wrap(out: &mut Vec<u8>)
    ensures
        final(out)@ == old(out)@ + private_mode(7, 0x68),
{
    let _ = out.queue(terminal::EnableLineWrap);
}

/// `crossterm::terminal::LeaveAlternateScreen`, queued on a byte buffer.
#[verifier::external_body]
pub(crate) fn queue_leave_screen(out: &mut Vec<u8>)
    ensures
        final(out)@ == old(out)@ + private_mode(1049, 0x6c),
{
    let _ = out.queue(terminal::LeaveAlternateScreen);
}

} // verus!
