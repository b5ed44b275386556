//! A terminal that reads the bytes.
//!
//! [`crate::screen`] says what a terminal does with drawing instructions. Here
//! the instructions come as bytes, one at a time: escape sequences are taken
//! apart, UTF-8 is put together. The laws say that what was meant is what is
//! read, so everything proved of the instructions holds of the bytes sent.

use crate::ansi::{color_params, csi, decimal, encode, encode_all, param2, Op};
use crate::charset::is_control;
use crate::grid::{lemma_grid_index, lemma_grid_size};
use crate::render::{
    cell_ops, close_enough, damages, frame_muted, frame_painted, frame_plan, image, lemma_damages,
    painted, printed, scan, settled, Canvas, Damage, Estimate, Frame, Muted, Plan, Wanted,
};
use crate::screen::{
    agrees, law_an_unbounded_frame_catches_up, law_the_screen_is_as_believed, least, obey, obey_all,
    shows, Screen,
};
use crate::theme::{Color, Depth};
use vstd::prelude::*;
use vstd::utf8::{
    decode_first_scalar, encode_scalar, encode_utf8, encode_utf8_first_scalar,
    length_of_first_scalar,
};

verus! {

/// Where in its input the terminal is.
pub enum Mode {
    /// Between sequences.
    Ground,
    /// After an escape character.
    Escape,
    /// Among the parameters of a control sequence: those that are complete, and
    /// the digits of the next one read so far.
    Params { done: Seq<nat>, digits: Option<nat> },
    /// Inside the UTF-8 encoding of a character.
    Rune(Seq<u8>),
}

/// A terminal in the middle of its input.
pub struct Reader {
    pub screen: Screen,
    pub mode: Mode,
}

/// A terminal that has finished reading everything it was sent.
pub open spec fn idle(s: Screen) -> Reader {
    Reader { screen: s, mode: Mode::Ground }
}

/// The parameters of a control sequence at its final byte. A parameter without
/// digits is zero, and a sequence without any text between has none.
pub open spec fn closed_params(done: Seq<nat>, digits: Option<nat>) -> Seq<nat> {
    match digits {
        Some(n) => done.push(n),
        None => if done.len() == 0 {
            done
        } else {
            done.push(0)
        },
    }
}

/// What a control sequence does. One that is not in use here does nothing.
pub open spec fn dispatch(s: Screen, ps: Seq<nat>, last: u8) -> Screen {
    if last == 0x48 && ps.len() == 2 {
        Screen { x: ps[1] - 1, y: ps[0] - 1, ..s }
    } else if last == 0x43 && ps.len() == 1 {
        Screen { x: least(s.x + ps[0], s.w - 1), ..s }
    } else if last == 0x6d && ps.len() == 0 {
        Screen { pen: None, ..s }
    } else if last == 0x6d && ps.len() == 5 && ps[0] == 38 && ps[1] == 2 {
        Screen { pen: Some(Color::Rgb { r: ps[2] as u8, g: ps[3] as u8, b: ps[4] as u8 }), ..s }
    } else if last == 0x6d && ps.len() == 3 && ps[0] == 38 && ps[1] == 5 {
        Screen { pen: Some(Color::AnsiValue(ps[2] as u8)), ..s }
    } else {
        s
    }
}

/// What the terminal does with one byte.
pub open spec fn hear(r: Reader, b: u8) -> Reader {
    let s = r.screen;
    match r.mode {
        Mode::Ground => if b == 0x1b {
            Reader { mode: Mode::Escape, ..r }
        } else if b == 0x08 {
            idle(
                Screen {
                    x: if s.x > 0 {
                        s.x - 1
                    } else {
                        0
                    },
                    ..s
                },
            )
        } else if b == 0x0a {
            idle(Screen { y: s.y + 1, ..s })
        } else if b < 0x80 {
            idle(obey(s, Op::Put(b as char)))
        } else {
            Reader { mode: Mode::Rune(seq![b]), ..r }
        },
        Mode::Escape => if b == 0x5b {
            Reader { mode: Mode::Params { done: Seq::empty(), digits: None }, ..r }
        } else {
            idle(s)
        },
        Mode::Params { done, digits } => if 0x30 <= b <= 0x39 {
            let value: nat = match digits {
                Some(n) => n * 10 + (b - 0x30) as nat,
                None => (b - 0x30) as nat,
            };
            Reader { mode: Mode::Params { done, digits: Some(value) }, ..r }
        } else if b == 0x3b {
            let value: nat = match digits {
                Some(n) => n,
                None => 0,
            };
            Reader { mode: Mode::Params { done: done.push(value), digits: None }, ..r }
        } else {
            idle(dispatch(s, closed_params(done, digits), b))
        },
        Mode::Rune(seen) => {
            let rune = seen.push(b);
            if rune.len() == length_of_first_scalar(rune) {
                idle(obey(s, Op::Put(decode_first_scalar(rune) as char)))
            } else {
                Reader { mode: Mode::Rune(rune), ..r }
            }
        },
    }
}

/// What the terminal does with a run of bytes.
pub open spec fn hear_all(r: Reader, bytes: Seq<u8>) -> Reader
    decreases bytes.len(),
{
    if bytes.len() == 0 {
        r
    } else {
        hear(hear_all(r, bytes.drop_last()), bytes.last())
    }
}

/// An instruction that survives the wire: no glyph that a terminal would act on
/// instead of printing it.
pub open spec fn printable(op: Op) -> bool {
    match op {
        Op::Put(ch) => !is_control(ch),
        _ => true,
    }
}

proof fn lemma_hear_concat(r: Reader, a: Seq<u8>, b: Seq<u8>)
    ensures
        hear_all(r, a + b) == hear_all(hear_all(r, a), b),
    decreases b.len(),
{
    if b.len() == 0 {
        assert(a + b =~= a);
    } else {
        assert((a + b).drop_last() =~= a + b.drop_last());
        lemma_hear_concat(r, a, b.drop_last());
    }
}

proof fn lemma_hear_one(r: Reader, b: u8)
    ensures
        hear_all(r, seq![b]) == hear(r, b),
{
    reveal_with_fuel(hear_all, 2);
    assert(seq![b].drop_last() =~= Seq::<u8>::empty());
}

proof fn lemma_hear_decimal(s: Screen, done: Seq<nat>, n: nat)
    ensures
        hear_all(
            Reader { screen: s, mode: Mode::Params { done, digits: None } },
            decimal(n),
        ) == (Reader { screen: s, mode: Mode::Params { done, digits: Some(n) } }),
    decreases n,
{
    let r = Reader { screen: s, mode: Mode::Params { done, digits: None } };
    if n < 10 {
        lemma_hear_one(r, (48 + n) as u8);
    } else {
        lemma_hear_decimal(s, done, n / 10);
        let last = (48 + n % 10) as u8;
        assert(decimal(n).drop_last() =~= decimal(n / 10));
        assert(decimal(n).last() == last);
    }
}

/// A number and the separator behind it.
proof fn lemma_hear_param(s: Screen, done: Seq<nat>, n: nat, rest: Seq<u8>)
    ensures
        hear_all(
            Reader { screen: s, mode: Mode::Params { done, digits: None } },
            param2(decimal(n), rest),
        ) == hear_all(
            Reader { screen: s, mode: Mode::Params { done: done.push(n), digits: None } },
            rest,
        ),
{
    let r = Reader { screen: s, mode: Mode::Params { done, digits: None } };
    lemma_hear_decimal(s, done, n);
    lemma_hear_concat(r, decimal(n) + seq![0x3bu8], rest);
    lemma_hear_concat(r, decimal(n), seq![0x3bu8]);
    lemma_hear_one(hear_all(r, decimal(n)), 0x3b);
}

/// A control sequence does what its parameters and final byte say.
proof fn lemma_hear_csi(s: Screen, params: Seq<u8>, last: u8, done: Seq<nat>, digits: Option<nat>)
    requires
        hear_all(
            Reader { screen: s, mode: Mode::Params { done: Seq::empty(), digits: None } },
            params,
        ) == (Reader { screen: s, mode: Mode::Params { done, digits } }),
        !(0x30 <= last <= 0x39),
        last != 0x3b,
    ensures
        hear_all(idle(s), csi(params, last)) == idle(
            dispatch(s, closed_params(done, digits), last),
        ),
{
    let open = seq![0x1bu8, 0x5b];
    let r = Reader { screen: s, mode: Mode::Params { done: Seq::empty(), digits: None } };
    assert(hear_all(idle(s), open) == r) by {
        assert(open =~= seq![0x1bu8] + seq![0x5bu8]);
        lemma_hear_concat(idle(s), seq![0x1bu8], seq![0x5bu8]);
        lemma_hear_one(idle(s), 0x1b);
        lemma_hear_one(hear(idle(s), 0x1b), 0x5b);
    }
    lemma_hear_concat(idle(s), open + params, seq![last]);
    lemma_hear_concat(idle(s), open, params);
    lemma_hear_one(Reader { screen: s, mode: Mode::Params { done, digits } }, last);
}

/// The bytes of a character, and one character only.
proof fn lemma_hear_char(s: Screen, ch: char)
    requires
        !is_control(ch),
    ensures
        hear_all(idle(s), encode_utf8(seq![ch])) == idle(obey(s, Op::Put(ch))),
{
    let bytes = encode_utf8(seq![ch]);
    encode_utf8_first_scalar(seq![ch]);
    assert(bytes =~= encode_scalar(ch as u32)) by {
        reveal_with_fuel(encode_utf8, 2);
    }
    assert(decode_first_scalar(bytes) == ch as u32);
    assert(bytes.len() == length_of_first_scalar(bytes));
    let r = idle(s);
    reveal_with_fuel(hear_all, 5);
    if bytes.len() == 1 {
        let b = bytes[0];
        assert(bytes =~= seq![b]);
        assert(b <= 0x7f);
        assert(b & 0x7f == b) by (bit_vector)
            requires
                b <= 0x7fu8,
        ;
        lemma_hear_one(r, b);
    } else if bytes.len() == 2 {
        assert(bytes.drop_last() =~= seq![bytes[0]]);
        lemma_hear_one(r, bytes[0]);
        assert(seq![bytes[0]].push(bytes[1]) =~= bytes);
    } else if bytes.len() == 3 {
        assert(bytes.drop_last() =~= seq![bytes[0], bytes[1]]);
        assert(seq![bytes[0], bytes[1]].drop_last() =~= seq![bytes[0]]);
        lemma_hear_one(r, bytes[0]);
        assert(seq![bytes[0]].push(bytes[1]) =~= seq![bytes[0], bytes[1]]);
        assert(seq![bytes[0], bytes[1]].push(bytes[2]) =~= bytes);
    } else {
        assert(bytes.drop_last() =~= seq![bytes[0], bytes[1], bytes[2]]);
        assert(seq![bytes[0], bytes[1], bytes[2]].drop_last() =~= seq![bytes[0], bytes[1]]);
        assert(seq![bytes[0], bytes[1]].drop_last() =~= seq![bytes[0]]);
        lemma_hear_one(r, bytes[0]);
        assert(seq![bytes[0]].push(bytes[1]) =~= seq![bytes[0], bytes[1]]);
        assert(seq![bytes[0], bytes[1]].push(bytes[2]) =~= seq![bytes[0], bytes[1], bytes[2]]);
        assert(seq![bytes[0], bytes[1], bytes[2]].push(bytes[3]) =~= bytes);
    }
}

/// What is sent for an instruction is read as that instruction, and leaves
/// nothing over.
pub proof fn law_an_instruction_survives_the_wire(s: Screen, op: Op)
    requires
        printable(op),
    ensures
        hear_all(idle(s), encode(op)) == idle(obey(s, op)),
{
    let none = Seq::<nat>::empty();
    match op {
        Op::MoveTo { x, y } => {
            lemma_hear_param(s, none, (y + 1) as nat, decimal((x + 1) as nat));
            lemma_hear_decimal(s, none.push((y + 1) as nat), (x + 1) as nat);
            lemma_hear_csi(
                s,
                param2(decimal((y + 1) as nat), decimal((x + 1) as nat)),
                0x48,
                none.push((y + 1) as nat),
                Some((x + 1) as nat),
            );
        },
        Op::MoveRight(n) => {
            lemma_hear_decimal(s, none, n as nat);
            lemma_hear_csi(s, decimal(n as nat), 0x43, none, Some(n as nat));
        },
        Op::DownLeft => {
            assert(encode(op) =~= seq![0x08u8] + seq![0x0au8]);
            lemma_hear_concat(idle(s), seq![0x08u8], seq![0x0au8]);
            lemma_hear_one(idle(s), 0x08);
            lemma_hear_one(hear(idle(s), 0x08), 0x0a);
        },
        Op::Pen { color, muted } => {
            if muted {
                lemma_hear_csi(s, Seq::empty(), 0x6d, none, None);
            } else {
                lemma_hear_param(s, none, 38, color_params(color));
                match color {
                    Color::Rgb { r, g, b } => {
                        let p1 = none.push(38).push(2);
                        let p2 = p1.push(r as nat);
                        let p3 = p2.push(g as nat);
                        lemma_hear_param(
                            s,
                            none.push(38),
                            2,
                            param2(
                                decimal(r as nat),
                                param2(decimal(g as nat), decimal(b as nat)),
                            ),
                        );
                        lemma_hear_param(
                            s,
                            p1,
                            r as nat,
                            param2(decimal(g as nat), decimal(b as nat)),
                        );
                        lemma_hear_param(s, p2, g as nat, decimal(b as nat));
                        lemma_hear_decimal(s, p3, b as nat);
                        lemma_hear_csi(
                            s,
                            param2(decimal(38), color_params(color)),
                            0x6d,
                            p3,
                            Some(b as nat),
                        );
                    },
                    Color::AnsiValue(n) => {
                        let p1 = none.push(38).push(5);
                        lemma_hear_param(s, none.push(38), 5, decimal(n as nat));
                        lemma_hear_decimal(s, p1, n as nat);
                        lemma_hear_csi(
                            s,
                            param2(decimal(38), color_params(color)),
                            0x6d,
                            p1,
                            Some(n as nat),
                        );
                    },
                }
            }
        },
        Op::Put(ch) => {
            lemma_hear_char(s, ch);
        },
    }
}

/// What is sent for a run of instructions is read as those instructions.
pub proof fn law_instructions_survive_the_wire(s: Screen, ops: Seq<Op>)
    requires
        forall|i: int| 0 <= i < ops.len() ==> printable(#[trigger] ops[i]),
    ensures
        hear_all(idle(s), encode_all(ops)) == idle(obey_all(s, ops)),
    decreases ops.len(),
{
    if ops.len() > 0 {
        let front = ops.drop_last();
        assert forall|i: int| 0 <= i < front.len() implies printable(#[trigger] front[i]) by {
            assert(front[i] == ops[i]);
        }
        law_instructions_survive_the_wire(s, front);
        lemma_hear_concat(idle(s), encode_all(front), encode(ops.last()));
        law_an_instruction_survives_the_wire(obey_all(s, front), ops.last());
    }
}

/// A picture whose every glyph a terminal would print.
pub open spec fn legible(wants: Seq<Wanted>) -> bool {
    forall|i: int|
        0 <= i < wants.len() ==> match (#[trigger] wants[i]).glyph {
            Some(g) => !is_control(g.ch),
            None => true,
        }
}

/// A frame all of whose glyphs print asks for a picture that prints.
pub proof fn law_a_frame_that_prints_is_legible(frame: Frame, depth: Depth, w: u16, h: u16)
    requires
        frame.wf(),
        forall|i: int|
            0 <= i < frame.cells@.len() ==> match #[trigger] frame.cells@[i] {
                Some(s) => !is_control(s.ch),
                None => true,
            },
    ensures
        legible(scan(frame, depth, w, h)),
{
    let wants = scan(frame, depth, w, h);
    lemma_grid_size(w as int, h as int);
    assert forall|i: int| 0 <= i < wants.len() implies match (#[trigger] wants[i]).glyph {
        Some(g) => !is_control(g.ch),
        None => true,
    } by {
        let x = i % (w as int);
        let y = i / (w as int);
        if 0 <= x < frame.w && 0 <= y < frame.h {
            lemma_grid_index(frame.w as int, frame.h as int, x, y);
            assert(frame.cells@[y * frame.w + x] == frame.at(x, y));
        }
    }
}

proof fn lemma_painted_printable(
    c: Canvas,
    plan: Plan,
    ds: Seq<Damage>,
    w: u16,
    tol: u16,
    muted: Seq<bool>,
    n: nat,
)
    requires
        n <= ds.len(),
        forall|k: int| 0 <= k < ds.len() ==> !is_control(printed(#[trigger] ds[k].want)),
    ensures
        forall|i: int|
            0 <= i < painted(c, plan, ds, w, tol, muted, n).ops.len() ==> printable(
                #[trigger] painted(c, plan, ds, w, tol, muted, n).ops[i],
            ),
    decreases n,
{
    if n > 0 {
        lemma_painted_printable(c, plan, ds, w, tol, muted, (n - 1) as nat);
        let q = painted(c, plan, ds, w, tol, muted, (n - 1) as nat);
        let d = ds[n - 1];
        let ops = cell_ops(q.canvas, d, w, tol, muted[n - 1]);
        assert(!is_control(printed(ds[n - 1].want)));
        assert forall|i: int| 0 <= i < ops.len() implies printable(#[trigger] ops[i]) by {}
    }
}

/// A terminal that shows what the renderer believes it shows, and that is then
/// sent the bytes of a frame, shows what the renderer believes after the frame;
/// it has read all of it and waits for nothing. Colours are part of this as
/// long as colour output is on.
pub proof fn law_the_bytes_leave_the_screen_as_believed(
    s: Screen,
    c: Canvas,
    wants: Seq<Wanted>,
    budget: Option<usize>,
    est: Estimate,
    w: u16,
    h: u16,
    tol: u16,
    muted: Muted,
    colours: bool,
)
    requires
        agrees(s, c, w, h, tol, colours),
        wants.len() == w * h,
        legible(wants),
        muted.covers(damages(c, wants, wants.len()).len()),
        colours ==> muted.never(),
    ensures
        ({
            let p = frame_painted(c, wants, budget, est, w, tol, muted);
            let r = hear_all(idle(s), encode_all(p.ops));
            &&& r.mode is Ground
            &&& agrees(r.screen, p.canvas, w, h, tol, colours)
        }),
{
    let p = frame_painted(c, wants, budget, est, w, tol, muted);
    let ds = damages(c, wants, wants.len());
    lemma_grid_size(w as int, h as int);
    lemma_damages(c, wants, wants.len());
    assert forall|k: int| 0 <= k < ds.len() implies !is_control(
        printed(#[trigger] ds[k].want),
    ) by {
        assert(ds[k].want == wants[ds[k].idx as int].glyph);
    }
    lemma_painted_printable(
        settled(c, wants, wants.len()),
        frame_plan(c, wants, budget, est, w, tol, muted),
        ds,
        w,
        tol,
        frame_muted(c, wants, budget, w, tol, muted),
        ds.len(),
    );
    law_instructions_survive_the_wire(s, p.ops);
    law_the_screen_is_as_believed(s, c, wants, budget, est, w, h, tol, muted, colours);
}

/// What a terminal shows once it has read the bytes of a frame without a budget
/// is the picture itself, cell by cell, however many pictures before it were
/// never drawn. Without a pen tolerance, the colours are exact.
pub proof fn law_the_bytes_show_the_picture(
    s: Screen,
    c: Canvas,
    wants: Seq<Wanted>,
    est: Estimate,
    w: u16,
    h: u16,
    tol: u16,
    muted: Muted,
    colours: bool,
)
    requires
        agrees(s, c, w, h, tol, colours),
        wants.len() == w * h,
        legible(wants),
        muted.covers(damages(c, wants, wants.len()).len()),
        colours ==> muted.never(),
    ensures
        ({
            let p = frame_painted(c, wants, None, est, w, tol, muted);
            let shown = hear_all(idle(s), encode_all(p.ops)).screen;
            forall|i: int|
                0 <= i < w * h ==> shows(#[trigger] shown.cells[i], wants[i].glyph, tol, colours)
        }),
{
    let p = frame_painted(c, wants, None, est, w, tol, muted);
    law_the_bytes_leave_the_screen_as_believed(
        s,
        c,
        wants,
        None,
        est,
        w,
        h,
        tol,
        muted,
        colours,
    );
    law_an_unbounded_frame_catches_up(c, wants, est, w, h, tol, muted);
    let shown = hear_all(idle(s), encode_all(p.ops)).screen;
    assert forall|i: int| 0 <= i < w * h implies shows(
        #[trigger] shown.cells[i],
        wants[i].glyph,
        tol,
        colours,
    ) by {
        assert(p.canvas.prev[i] == image(wants)[i]);
    }
}

/// Without a tolerance two colours are close enough only where they are the
/// same.
pub proof fn law_no_tolerance_means_exact_colours(a: Color, b: Color)
    requires
        close_enough(a, b, 0),
    ensures
        a == b,
{
}

} // verus!
