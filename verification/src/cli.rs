//! Turning options into something the loop can trust.
//!
//! [`validate`] is the only place that rejects input, and it is pure: no
//! terminal, no globals.

use crate::bits::{
    self, finite, greater, le, lemma_stands_for, lt, nan, stands_for, ONE, ZERO,
};
use crate::charset::{
    glyphs_of, is_control, is_wide, is_zero_width, wide, zero_width, Charset,
};
use crate::meter::control;
use crate::rain::Config;
use crate::text::{hex, letters, push_hex, same};
use crate::theme::{base_color_of, BaseColor, Depth, Levels, Rgb};
use vstd::arithmetic::power2::lemma2_to64;
use vstd::prelude::*;

verus! {

/// One second, in nanoseconds.
pub const SECOND: u128 = 1_000_000_000;

/// The step clamp, in frame periods.
///
/// Below it the rain moves in exact proportion to elapsed time; beyond it the
/// process has been descheduled or suspended, and teleporting a drop is worse
/// than losing the time.
pub const MAX_STEP_FRAMES: u16 = 3;

/// `0.1`, the floor for the clamp in seconds, so that a high frame rate does not
/// make it hair-trigger.
pub const MAX_STEP_FLOOR: u32 = 0x3dcc_cccd;

/// What can be asked for.
#[derive(Clone, Debug)]
pub struct Options {
    /// A colour name, `#RRGGBB`, or `rainbow`.
    pub color: String,
    pub charset: Charset,
    /// Glyphs for a custom charset. Every one must take exactly one column.
    pub custom: String,
    /// Overall speed multiplier.
    pub speed: u32,
    /// Frame rate cap.
    pub fps: u16,
    /// Brightness steps in the trail.
    pub levels: Levels,
    /// Start with the stats overlay visible.
    pub stats: bool,
    /// Fraction of columns raining at any moment.
    pub density: u32,
    /// Shortest trail, in rows.
    pub tail_min: u32,
    /// Longest trail, in rows.
    pub tail_max: u32,
    /// Glyph churn rate, in screens per second.
    pub mutate: u32,
    pub bold: bool,
    /// Exit on any keypress.
    pub screensaver: bool,
    /// Replay a specific animation.
    pub seed: Option<u64>,
    /// `truecolor`, `256` or `16` forces a colour depth.
    pub color_depth: String,
    /// Run this many loop ticks with timing instrumentation, then exit.
    pub bench: Option<u32>,
    /// Largest simulation step, in seconds, where it is a positive number.
    pub max_step: u32,
}

impl Default for Options {
    fn default() -> (o: Options)
        ensures
            o.color@ == "green"@,
            o.charset == Charset::Classic,
            o.custom@ == ""@,
            o.speed == ONE,
            o.fps == 30,
            o.levels == Levels::Auto,
            !o.stats,
            o.density == 0x3f0c_cccdu32,
            o.tail_min == 0x40c0_0000u32,
            o.tail_max == 0x41d0_0000u32,
            o.mutate == 0x3eb3_3333u32,
            !o.bold,
            !o.screensaver,
            o.seed is None,
            o.color_depth@ == "auto"@,
            o.bench is None,
            o.max_step == ZERO,
            stands_for(o.speed, 1, 1),
            stands_for(o.density, 55, 100),
            stands_for(o.tail_min, 6, 1),
            stands_for(o.tail_max, 26, 1),
            stands_for(o.mutate, 35, 100),
    {
        proof {
            lemma2_to64();
            lemma_stands_for(ONE, 1, 1);
            lemma_stands_for(0x3f0c_cccd, 55, 100);
            lemma_stands_for(0x40c0_0000, 6, 1);
            lemma_stands_for(0x41d0_0000, 26, 1);
            lemma_stands_for(0x3eb3_3333, 35, 100);
        }
        Options {
            color: "green".to_owned(),
            charset: Charset::Classic,
            custom: "".to_owned(),
            speed: ONE,
            fps: 30,
            levels: Levels::Auto,
            stats: false,
            density: 0x3f0c_cccd,
            tail_min: 0x40c0_0000,
            tail_max: 0x41d0_0000,
            mutate: 0x3eb3_3333,
            bold: false,
            screensaver: false,
            seed: None,
            color_depth: "auto".to_owned(),
            bench: None,
            max_step: ZERO,
        }
    }
}

/// Why options are turned down.
#[derive(Clone, Copy, Debug, PartialEq, Eq, Structural)]
pub enum Invalid {
    Color,
    Density,
    Speed,
    TailMin,
    TailMax,
    Mutate,
    /// A custom charset without glyphs.
    NoGlyphs,
    /// A control character among the glyphs, which would land raw in the middle
    /// of the escape stream.
    Control(char),
    /// A glyph of two columns, which would shift everything drawn after it.
    Wide(char),
    /// A glyph of no column of its own.
    ZeroWidth(char),
}

/// Charsets that can be cycled through, in order.
pub const CYCLE: [Charset; 6] = [
    Charset::Classic,
    Charset::Katakana,
    Charset::Ascii,
    Charset::Alnum,
    Charset::Binary,
    Charset::Greek,
];

/// Everything the loop needs, once the options are known to be good.
#[derive(Debug)]
pub struct Settings {
    pub base: Rgb,
    pub rainbow: bool,
    pub depth: Depth,
    pub config: Config,
    /// The frame period, in nanoseconds.
    pub frame: u128,
    /// Largest step the simulation takes in one tick, in seconds.
    pub max_step: u32,
}

/// What is wrong with one glyph.
pub open spec fn glyph_fault(c: char) -> Option<Invalid> {
    if is_control(c) {
        Some(Invalid::Control(c))
    } else if wide(c) {
        Some(Invalid::Wide(c))
    } else if zero_width(c) {
        Some(Invalid::ZeroWidth(c))
    } else {
        None
    }
}

/// What is wrong with the first glyph that has anything wrong with it.
pub open spec fn glyphs_fault(s: Seq<char>) -> Option<Invalid>
    decreases s.len(),
{
    if s.len() == 0 {
        None
    } else if glyph_fault(s[0]) is Some {
        glyph_fault(s[0])
    } else {
        glyphs_fault(s.drop_first())
    }
}

/// The first rule that options break, in the order they are checked.
pub open spec fn fault(o: Options) -> Option<Invalid> {
    if base_color_of(o.color@) is None {
        Some(Invalid::Color)
    } else if !(le(ZERO, o.density) && le(o.density, ONE)) {
        Some(Invalid::Density)
    } else if !(finite(o.speed) && lt(ZERO, o.speed)) {
        Some(Invalid::Speed)
    } else if !(finite(o.tail_min) && lt(ZERO, o.tail_min)) {
        Some(Invalid::TailMin)
    } else if !(finite(o.tail_max) && le(o.tail_min, o.tail_max)) {
        Some(Invalid::TailMax)
    } else if !(finite(o.mutate) && le(ZERO, o.mutate)) {
        Some(Invalid::Mutate)
    } else if o.charset == Charset::Custom && o.custom@.len() == 0 {
        Some(Invalid::NoGlyphs)
    } else {
        glyphs_fault(o.custom@)
    }
}

/// The frame rate that is kept: at least one frame a second, at most 240.
pub open spec fn kept_rate(fps: u16) -> int {
    if fps < 1 {
        1
    } else if fps > 240 {
        240
    } else {
        fps as int
    }
}

/// The frame period for a frame rate, to the nearest nanosecond.
pub open spec fn period(fps: u16) -> int {
    (2 * SECOND + kept_rate(fps)) / (2 * kept_rate(fps))
}

/// The depth a flag forces, or the one detected.
pub open spec fn forced_depth(flag: Seq<char>, detected: Depth) -> Depth {
    if flag == "truecolor"@ {
        Depth::True
    } else if flag == "256"@ {
        Depth::Ansi256
    } else if flag == "16"@ {
        Depth::Ansi16
    } else {
        detected
    }
}

/// What options that break no rule become. `three_frames` is what three frame
/// periods come to, in seconds.
pub open spec fn settled(o: Options, detected: Depth, three_frames: u32, s: Settings) -> bool {
    &&& Some(BaseColor(s.base, s.rainbow)) == base_color_of(o.color@)
    &&& s.depth == forced_depth(o.color_depth@, detected)
    &&& s.config.speed == o.speed
    &&& s.config.density == o.density
    &&& s.config.tail_min == o.tail_min
    &&& s.config.tail_max == o.tail_max
    &&& s.config.mutate == o.mutate
    &&& s.config.glyphs@ == glyphs_of(o.charset, o.custom@)
    &&& s.config.seed == o.seed
    &&& s.frame == period(o.fps)
    &&& s.max_step == (if finite(o.max_step) && lt(ZERO, o.max_step) {
        o.max_step
    } else {
        greater(three_frames, MAX_STEP_FLOOR)
    })
}

/// The frame period for a frame rate, in nanoseconds.
#[must_use]
pub fn frame_period(fps: u16) -> (p: u128)
    ensures
        p == period(fps),
        0 < p <= SECOND,
{
    let rate: u128 = if fps < 1 {
        1
    } else if fps > 240 {
        240
    } else {
        fps as u128
    };
    proof {
        vstd::arithmetic::div_mod::lemma_fundamental_div_mod(
            (2 * SECOND + rate) as int,
            (2 * rate) as int,
        );
        let q = (2 * SECOND + rate) as int / (2 * rate) as int;
        let m = (2 * SECOND + rate) as int % (2 * rate) as int;
        assert(0 < q <= SECOND) by (nonlinear_arith)
            requires
                2 * SECOND + rate == (2 * rate) * q + m,
                0 <= m < 2 * rate,
                1 <= rate <= 240,
                SECOND == 1_000_000_000,
        ;
    }
    (2 * SECOND + rate) / (2 * rate)
}

/// Largest simulation step taken in one frame, in seconds: three frame periods,
/// or the floor where they come to less.
///
/// A stall must not teleport every drop down the screen once the process
/// resumes. The clamp has to sit above the frame period, or it would truncate
/// ordinary frames instead of only the abnormal ones.
#[must_use]
pub fn default_max_step(three_frames: u32) -> (s: u32)
    ensures
        s == greater(three_frames, MAX_STEP_FLOOR),
{
    bits::max(three_frames, MAX_STEP_FLOOR)
}

fn check_glyph(c: char) -> (r: Option<Invalid>)
    ensures
        r == glyph_fault(c),
{
    if control(c) {
        Some(Invalid::Control(c))
    } else if is_wide(c) {
        Some(Invalid::Wide(c))
    } else if is_zero_width(c) {
        Some(Invalid::ZeroWidth(c))
    } else {
        None
    }
}

fn check_glyphs(s: &str) -> (r: Option<Invalid>)
    ensures
        r == glyphs_fault(s@),
{
    let v: Vec<char> = letters(s);
    let mut i: usize = 0;
    assert(v@.skip(0) =~= v@);
    while i < v.len()
        invariant
            i <= v@.len(),
            v@ == s@,
            glyphs_fault(s@) == glyphs_fault(v@.skip(i as int)),
        decreases v.len() - i,
    {
        assert(v@.skip(i as int)[0] == v@[i as int]);
        assert(v@.skip(i as int).drop_first() =~= v@.skip(i + 1));
        let found: Option<Invalid> = check_glyph(v[i]);
        if found.is_some() {
            return found;
        }
        i = i + 1;
    }
    None
}

/// Checks options and turns them into settings. `detected` is the colour depth
/// the terminal seems to have, for where none is forced. `three_frames` gives
/// what [`MAX_STEP_FRAMES`] frame periods come to in seconds; it is handed the
/// period in nanoseconds.
pub fn validate<F: Fn(u128) -> u32>(o: &Options, detected: Depth, three_frames: F) -> (r: Result<
    Settings,
    Invalid,
>)
    requires
        forall|frame: u128| call_requires(three_frames, (frame,)),
    ensures
        match r {
            Ok(s) => fault(*o) is None && exists|t: u32|
                call_ensures(three_frames, (period(o.fps) as u128,), t) && #[trigger] settled(
                    *o,
                    detected,
                    t,
                    s,
                ),
            Err(e) => fault(*o) == Some(e),
        },
{
    let (base, rainbow) = match BaseColor::parse(o.color.as_str()) {
        Some(BaseColor(base, rainbow)) => (base, rainbow),
        None => return Err(Invalid::Color),
    };
    if !(bits::at_most(ZERO, o.density) && bits::at_most(o.density, ONE)) {
        return Err(Invalid::Density);
    }
    if !(bits::is_finite(o.speed) && bits::less(ZERO, o.speed)) {
        return Err(Invalid::Speed);
    }
    if !(bits::is_finite(o.tail_min) && bits::less(ZERO, o.tail_min)) {
        return Err(Invalid::TailMin);
    }
    if !(bits::is_finite(o.tail_max) && bits::at_most(o.tail_min, o.tail_max)) {
        return Err(Invalid::TailMax);
    }
    if !(bits::is_finite(o.mutate) && bits::at_most(ZERO, o.mutate)) {
        return Err(Invalid::Mutate);
    }
    if o.charset == Charset::Custom && o.custom.as_str().unicode_len() == 0 {
        return Err(Invalid::NoGlyphs);
    }
    // Checked whenever glyphs are given rather than only where they are used:
    // silently ignoring them is how a typo survives to the one run where it
    // matters.
    if let Some(e) = check_glyphs(o.custom.as_str()) {
        return Err(e);
    }
    let flag: &str = o.color_depth.as_str();
    let depth: Depth = if same(flag, "truecolor") {
        Depth::True
    } else if same(flag, "256") {
        Depth::Ansi256
    } else if same(flag, "16") {
        Depth::Ansi16
    } else {
        detected
    };
    let frame: u128 = frame_period(o.fps);
    let thrice: u32 = three_frames(frame);
    let max_step: u32 = if bits::is_finite(o.max_step) && bits::less(ZERO, o.max_step) {
        o.max_step
    } else {
        default_max_step(thrice)
    };
    let s = Settings {
        base,
        rainbow,
        depth,
        max_step,
        config: Config {
            speed: o.speed,
            density: o.density,
            tail_min: o.tail_min,
            tail_max: o.tail_max,
            mutate: o.mutate,
            glyphs: o.charset.glyphs(o.custom.as_str()),
            seed: o.seed,
        },
        frame,
    };
    assert(settled(*o, detected, thrice, s));
    Ok(s)
}

/// What a user is told. `given` is the value turned down, `bound` what it was
/// held against.
pub open spec fn message_text(e: Invalid, given: Seq<char>, bound: Seq<char>) -> Seq<char> {
    match e {
        Invalid::Color => "invalid --color: "@ + given,
        Invalid::Density => "--density must be between 0.0 and 1.0, got "@ + given,
        Invalid::Speed => "--speed must be a positive number, got "@ + given,
        Invalid::TailMin => "--tail-min must be a positive number, got "@ + given,
        Invalid::TailMax => "--tail-max ("@ + given + ") must be >= --tail-min ("@ + bound + ")"@,
        Invalid::Mutate => "--mutate must be zero or positive, got "@ + given,
        Invalid::NoGlyphs => "--charset custom needs --custom <GLYPHS>"@,
        Invalid::Control(c) => "--custom cannot contain control characters, found U+"@ + hex(
            c as nat,
            4,
        ),
        Invalid::Wide(c) => "--custom needs single-column glyphs, but "@ + given + " (U+"@ + hex(
            c as nat,
            4,
        ) + ") is double-width"@,
        Invalid::ZeroWidth(c) => "--custom needs single-column glyphs, but U+"@ + hex(c as nat, 4)
            + " is combining or zero-width"@,
    }
}

impl Invalid {
    /// What the user is told: which flag, and what is wrong with it.
    #[must_use]
    pub fn message(&self, given: &str, bound: &str) -> (s: String)
        ensures
            s@ == message_text(*self, given@, bound@),
    {
        let mut s: String = String::new();
        match *self {
            Invalid::Color => {
                s.append("invalid --color: ");
                s.append(given);
            },
            Invalid::Density => {
                s.append("--density must be between 0.0 and 1.0, got ");
                s.append(given);
            },
            Invalid::Speed => {
                s.append("--speed must be a positive number, got ");
                s.append(given);
            },
            Invalid::TailMin => {
                s.append("--tail-min must be a positive number, got ");
                s.append(given);
            },
            Invalid::TailMax => {
                s.append("--tail-max (");
                s.append(given);
                s.append(") must be >= --tail-min (");
                s.append(bound);
                s.append(")");
            },
            Invalid::Mutate => {
                s.append("--mutate must be zero or positive, got ");
                s.append(given);
            },
            Invalid::NoGlyphs => {
                s.append("--charset custom needs --custom <GLYPHS>");
            },
            Invalid::Control(c) => {
                s.append("--custom cannot contain control characters, found U+");
                push_hex(&mut s, c as u32, 4);
            },
            Invalid::Wide(c) => {
                s.append("--custom needs single-column glyphs, but ");
                s.append(given);
                s.append(" (U+");
                push_hex(&mut s, c as u32, 4);
                s.append(") is double-width");
            },
            Invalid::ZeroWidth(c) => {
                s.append("--custom needs single-column glyphs, but U+");
                push_hex(&mut s, c as u32, 4);
                s.append(" is combining or zero-width");
            },
        }
        assert(s@ =~= message_text(*self, given@, bound@));
        s
    }
}

/// Glyphs are turned down exactly when one of them is.
proof fn lemma_glyphs_fault(s: Seq<char>)
    ensures
        glyphs_fault(s) is None <==> forall|i: int|
            0 <= i < s.len() ==> glyph_fault(#[trigger] s[i]) is None,
    decreases s.len(),
{
    if s.len() > 0 {
        let t = s.drop_first();
        lemma_glyphs_fault(t);
        if glyphs_fault(s) is None {
            assert forall|i: int| 0 <= i < s.len() implies glyph_fault(#[trigger] s[i]) is None by {
                if i > 0 {
                    assert(s[i] == t[i - 1]);
                }
            }
        } else if forall|i: int| 0 <= i < s.len() ==> glyph_fault(#[trigger] s[i]) is None {
            assert forall|i: int| 0 <= i < t.len() implies glyph_fault(#[trigger] t[i]) is None by {
                assert(t[i] == s[i + 1]);
            }
            assert(glyph_fault(s[0]) is None);
        }
    }
}

/// Whatever is accepted rains with glyphs that print: there is at least one, and
/// each of them is one column wide and no control character.
pub proof fn law_accepted_glyphs_print(o: Options)
    requires
        fault(o) is None,
    ensures
        glyphs_of(o.charset, o.custom@).len() > 0,
        forall|i: int|
            0 <= i < glyphs_of(o.charset, o.custom@).len() ==> glyph_fault(
                #[trigger] glyphs_of(o.charset, o.custom@)[i],
            ) is None,
{
    lemma_glyphs_fault(o.custom@);
    if o.charset != Charset::Custom {
        crate::charset::law_every_repertoire_prints(o.charset, o.custom@);
    }
}

/// The step clamp never sits below one frame period, so it never truncates an
/// ordinary frame, nor below its floor; where three periods come to no more than
/// the floor, it is the floor. At thirty frames a second and above they come to
/// no more than a tenth of a second.
pub proof fn law_the_step_clamp_spares_ordinary_frames(frame: u32, three_frames: u32, fps: u16)
    requires
        le(frame, three_frames),
    ensures
        le(frame, greater(three_frames, MAX_STEP_FLOOR)),
        le(MAX_STEP_FLOOR, greater(three_frames, MAX_STEP_FLOOR)),
        lt(three_frames, MAX_STEP_FLOOR) ==> greater(three_frames, MAX_STEP_FLOOR)
            == MAX_STEP_FLOOR,
        !lt(three_frames, MAX_STEP_FLOOR) ==> greater(three_frames, MAX_STEP_FLOOR)
            == three_frames,
        fps >= 30 ==> MAX_STEP_FRAMES * period(fps) * 10 <= SECOND,
{
    let rate = kept_rate(fps);
    vstd::arithmetic::div_mod::lemma_fundamental_div_mod(2 * SECOND + rate, 2 * rate);
    let q = (2 * SECOND + rate) / (2 * rate);
    let m = (2 * SECOND + rate) % (2 * rate);
    if rate >= 30 {
        assert(q <= 33_333_333) by (nonlinear_arith)
            requires
                2 * SECOND + rate == (2 * rate) * q + m,
                0 <= m < 2 * rate,
                30 <= rate <= 240,
                SECOND == 1_000_000_000,
        ;
    }
}

/// Options are accepted exactly where every one of them is in order: a colour that
/// is known, a density from zero to one, a speed and a shortest tail that are
/// positive numbers, a longest tail that is no shorter, a churn that is not
/// negative, and glyphs that print, of which a custom charset has at least one.
pub proof fn law_what_is_accepted(o: Options)
    ensures
        fault(o) is None <==> {
            &&& base_color_of(o.color@) is Some
            &&& le(ZERO, o.density) && le(o.density, ONE)
            &&& lt(ZERO, o.speed) && finite(o.speed)
            &&& lt(ZERO, o.tail_min) && finite(o.tail_min)
            &&& le(o.tail_min, o.tail_max) && finite(o.tail_max)
            &&& le(ZERO, o.mutate) && finite(o.mutate)
            &&& o.charset == Charset::Custom ==> o.custom@.len() > 0
            &&& forall|i: int|
                0 <= i < o.custom@.len() ==> {
                    let c = #[trigger] o.custom@[i];
                    !is_control(c) && !wide(c) && !zero_width(c)
                }
        },
{
    lemma_glyphs_fault(o.custom@);
    let s = o.custom@;
    if forall|i: int|
        0 <= i < s.len() ==> !is_control(#[trigger] s[i]) && !wide(s[i]) && !zero_width(s[i]) {
        assert forall|i: int| 0 <= i < s.len() implies glyph_fault(#[trigger] s[i]) is None by {
            assert(!is_control(s[i]) && !wide(s[i]) && !zero_width(s[i]));
        }
    } else if forall|i: int| 0 <= i < s.len() ==> glyph_fault(#[trigger] s[i]) is None {
        let i = choose|i: int|
            0 <= i < s.len() && !(!is_control(#[trigger] s[i]) && !wide(s[i]) && !zero_width(s[i]));
        assert(glyph_fault(s[i]) is None);
    }
}

/// What is reported is what is wrong: the option named breaks its rule, and where
/// it is a glyph, that glyph is among the custom ones and is of the kind it is
/// said to be.
pub proof fn law_what_is_reported_is_wrong(o: Options)
    ensures
        match fault(o) {
            None => true,
            Some(Invalid::Color) => base_color_of(o.color@) is None,
            Some(Invalid::Density) => !le(ZERO, o.density) || !le(o.density, ONE),
            Some(Invalid::Speed) => !finite(o.speed) || le(o.speed, ZERO),
            Some(Invalid::TailMin) => !finite(o.tail_min) || le(o.tail_min, ZERO),
            Some(Invalid::TailMax) => !finite(o.tail_max) || lt(o.tail_max, o.tail_min),
            Some(Invalid::Mutate) => !finite(o.mutate) || lt(o.mutate, ZERO),
            Some(Invalid::NoGlyphs) => o.charset == Charset::Custom && o.custom@.len() == 0,
            Some(Invalid::Control(c)) => o.custom@.contains(c) && is_control(c),
            Some(Invalid::Wide(c)) => o.custom@.contains(c) && wide(c),
            Some(Invalid::ZeroWidth(c)) => o.custom@.contains(c) && zero_width(c),
        },
{
    lemma_glyph_reported(o.custom@);
}

proof fn lemma_glyph_reported(s: Seq<char>)
    ensures
        match glyphs_fault(s) {
            None => true,
            Some(Invalid::Control(c)) => s.contains(c) && is_control(c),
            Some(Invalid::Wide(c)) => s.contains(c) && wide(c),
            Some(Invalid::ZeroWidth(c)) => s.contains(c) && zero_width(c),
            Some(_) => false,
        },
    decreases s.len(),
{
    if s.len() > 0 {
        assert(s.contains(s[0]));
        let t = s.drop_first();
        lemma_glyph_reported(t);
        assert forall|c: char| t.contains(c) implies s.contains(c) by {
            let i = choose|i: int| 0 <= i < t.len() && t[i] == c;
            assert(s[i + 1] == c);
        }
    }
}

/// The first rule that is broken is the one reported, in the order of colour,
/// density, speed, shortest tail, longest tail, churn, glyphs.
pub proof fn law_the_first_fault_is_reported(o: Options)
    ensures
        base_color_of(o.color@) is None ==> fault(o) == Some(Invalid::Color),
        fault(o) == Some(Invalid::Color) ==> base_color_of(o.color@) is None,
        base_color_of(o.color@) is Some && nan(o.density) ==> fault(o) == Some(Invalid::Density),
        fault(o) matches Some(e) && e == Invalid::Speed ==> le(ZERO, o.density) && le(
            o.density,
            ONE,
        ),
        fault(o) matches Some(e) && e == Invalid::TailMin ==> lt(ZERO, o.speed),
        fault(o) matches Some(e) && e == Invalid::TailMax ==> lt(ZERO, o.tail_min),
        fault(o) matches Some(e) && e == Invalid::Mutate ==> le(o.tail_min, o.tail_max),
        fault(o) matches Some(e) && e == Invalid::NoGlyphs ==> le(ZERO, o.mutate),
        fault(o) is None ==> lt(ZERO, o.tail_min) && le(o.tail_min, o.tail_max),
{
    lemma_glyph_reported(o.custom@);
}

/// The frame period is the one nearest to a second over the frame rate, which is
/// taken as one at least and 240 at most: as many periods as there are frames in a
/// second come to a second, give or take half a nanosecond each.
pub proof fn law_a_second_holds_its_frames(fps: u16)
    ensures
        1 <= fps <= 240 ==> -(fps as int) <= 2 * (period(fps) * fps - 1_000_000_000) <= fps,
        fps == 0 ==> period(fps) == period(1),
        fps > 240 ==> period(fps) == period(240),
        period(1) == 1_000_000_000,
{
    let r = kept_rate(fps);
    let q = period(fps);
    vstd::arithmetic::div_mod::lemma_fundamental_div_mod(2 * SECOND + r, 2 * r);
    let m = (2 * SECOND + r) % (2 * r);
    assert((2 * r) * q == 2 * (q * r)) by (nonlinear_arith);
    assert(kept_rate(1) == 1);
    assert((2 * SECOND + 1) / 2 == 1_000_000_000);
}

/// A depth that is forced holds whatever was detected, and anything else leaves
/// it to what was.
pub proof fn law_a_forced_depth_holds(flag: Seq<char>, detected: Depth)
    ensures
        forced_depth("truecolor"@, detected) == Depth::True,
        forced_depth("256"@, detected) == Depth::Ansi256,
        forced_depth("16"@, detected) == Depth::Ansi16,
        flag != "truecolor"@ && flag != "256"@ && flag != "16"@ ==> forced_depth(flag, detected)
            == detected,
        forced_depth("auto"@, detected) == detected,
{
    reveal_strlit("truecolor");
    reveal_strlit("256");
    reveal_strlit("16");
    reveal_strlit("auto");
    assert("auto"@[0] == 'a');
    assert("256"@.len() == 3 && "16"@.len() == 2 && "auto"@.len() == 4 && "truecolor"@.len() == 9);
}

/// Every setting is the option of its name: the rain gets the speed, the density,
/// the tails, the churn and the seed as they were given and the glyphs of the
/// charset, the loop the period of the frame rate, and the step the limit given
/// where one is, or else three frames, a tenth of a second at least.
pub proof fn law_every_setting_is_its_option(
    o: Options,
    detected: Depth,
    three_frames: u32,
    s: Settings,
)
    requires
        settled(o, detected, three_frames, s),
        !nan(three_frames),
    ensures
        s.config.speed == o.speed,
        s.config.density == o.density,
        s.config.tail_min == o.tail_min,
        s.config.tail_max == o.tail_max,
        s.config.mutate == o.mutate,
        s.config.seed == o.seed,
        s.config.glyphs@ == glyphs_of(o.charset, o.custom@),
        s.frame == period(o.fps),
        o.color@ == "rainbow"@ <==> s.rainbow,
        base_color_of(o.color@) matches Some(c) && c.0 == s.base,
        o.color_depth@ == "256"@ ==> s.depth == Depth::Ansi256,
        o.color_depth@ == "auto"@ ==> s.depth == detected,
        lt(ZERO, o.max_step) && finite(o.max_step) ==> s.max_step == o.max_step,
        !finite(o.max_step) || le(o.max_step, ZERO) ==> le(three_frames, s.max_step) && le(
            MAX_STEP_FLOOR,
            s.max_step,
        ) && (s.max_step == three_frames || s.max_step == MAX_STEP_FLOOR),
        stands_for(MAX_STEP_FLOOR, 1, 10),
        MAX_STEP_FRAMES == 3,
{
    law_a_forced_depth_holds(o.color_depth@, detected);
    crate::theme::law_names_mix_their_channels(o.color@);
    lemma2_to64();
    lemma_stands_for(MAX_STEP_FLOOR, 1, 10);
}

/// A message opens with the flag it is about and, where a number or a colour was
/// turned down, closes with what was given.
pub proof fn law_a_message_names_its_flag(given: Seq<char>, bound: Seq<char>, c: char)
    ensures
        ({
            let color = message_text(Invalid::Color, given, bound);
            let density = message_text(Invalid::Density, given, bound);
            let speed = message_text(Invalid::Speed, given, bound);
            let tail_min = message_text(Invalid::TailMin, given, bound);
            let tail_max = message_text(Invalid::TailMax, given, bound);
            let mutate = message_text(Invalid::Mutate, given, bound);
            &&& color.take(15) == "invalid --color"@
            &&& density.take(9) == "--density"@
            &&& speed.take(7) == "--speed"@
            &&& tail_min.take(10) == "--tail-min"@
            &&& tail_max.take(10) == "--tail-max"@
            &&& mutate.take(8) == "--mutate"@
            &&& message_text(Invalid::NoGlyphs, given, bound).take(9) == "--charset"@
            &&& message_text(Invalid::Control(c), given, bound).take(8) == "--custom"@
            &&& message_text(Invalid::Wide(c), given, bound).take(8) == "--custom"@
            &&& message_text(Invalid::ZeroWidth(c), given, bound).take(8) == "--custom"@
            &&& color.skip(color.len() - given.len()) == given
            &&& density.skip(density.len() - given.len()) == given
            &&& speed.skip(speed.len() - given.len()) == given
            &&& tail_min.skip(tail_min.len() - given.len()) == given
            &&& mutate.skip(mutate.len() - given.len()) == given
            &&& tail_max.subrange(12, 12 + given.len() as int) == given
            &&& tail_max.subrange(
                37 + given.len() as int,
                37 + given.len() as int + bound.len(),
            ) == bound
        }),
        ({
            let code = hex(c as nat, 4);
            let control = message_text(Invalid::Control(c), given, bound);
            let wide = message_text(Invalid::Wide(c), given, bound);
            let thin = message_text(Invalid::ZeroWidth(c), given, bound);
            &&& control.skip(control.len() - code.len()) == code
            &&& wide.subrange(41, 41 + given.len() as int) == given
            &&& wide.subrange(45 + given.len() as int, 45 + given.len() as int + code.len()) == code
            &&& thin.subrange(43, 43 + code.len() as int) == code
        }),
{
    reveal_strlit("invalid --color");
    reveal_strlit("--density");
    reveal_strlit("--speed");
    reveal_strlit("--tail-min");
    reveal_strlit("--tail-max");
    reveal_strlit("--mutate");
    reveal_strlit("--charset");
    reveal_strlit("--custom");
    reveal_strlit("invalid --color: ");
    reveal_strlit("--density must be between 0.0 and 1.0, got ");
    reveal_strlit("--speed must be a positive number, got ");
    reveal_strlit("--tail-min must be a positive number, got ");
    reveal_strlit("--tail-max (");
    reveal_strlit("--mutate must be zero or positive, got ");
    reveal_strlit("--charset custom needs --custom <GLYPHS>");
    reveal_strlit("--custom cannot contain control characters, found U+");
    reveal_strlit("--custom needs single-column glyphs, but ");
    reveal_strlit("--custom needs single-column glyphs, but U+");
    let color = message_text(Invalid::Color, given, bound);
    let density = message_text(Invalid::Density, given, bound);
    let speed = message_text(Invalid::Speed, given, bound);
    let tail_min = message_text(Invalid::TailMin, given, bound);
    let tail_max = message_text(Invalid::TailMax, given, bound);
    let mutate = message_text(Invalid::Mutate, given, bound);
    assert(color.take(15) =~= "invalid --color"@);
    assert(density.take(9) =~= "--density"@);
    assert(speed.take(7) =~= "--speed"@);
    assert(tail_min.take(10) =~= "--tail-min"@);
    assert(tail_max.take(10) =~= "--tail-max"@);
    assert(mutate.take(8) =~= "--mutate"@);
    assert(message_text(Invalid::NoGlyphs, given, bound).take(9) =~= "--charset"@);
    assert(message_text(Invalid::Control(c), given, bound).take(8) =~= "--custom"@);
    assert(message_text(Invalid::Wide(c), given, bound).take(8) =~= "--custom"@);
    assert(message_text(Invalid::ZeroWidth(c), given, bound).take(8) =~= "--custom"@);
    assert(color.skip(color.len() - given.len()) =~= given);
    assert(density.skip(density.len() - given.len()) =~= given);
    assert(speed.skip(speed.len() - given.len()) =~= given);
    assert(tail_min.skip(tail_min.len() - given.len()) =~= given);
    assert(mutate.skip(mutate.len() - given.len()) =~= given);
    assert(tail_max.subrange(12, 12 + given.len() as int) =~= given);
    reveal_strlit(") must be >= --tail-min (");
    assert(tail_max.subrange(37 + given.len() as int, 37 + given.len() as int + bound.len()) =~= bound);
    reveal_strlit(" (U+");
    let code = hex(c as nat, 4);
    let control = message_text(Invalid::Control(c), given, bound);
    let wide = message_text(Invalid::Wide(c), given, bound);
    let thin = message_text(Invalid::ZeroWidth(c), given, bound);
    assert(control.skip(control.len() - code.len()) =~= code);
    assert(wide.subrange(41, 41 + given.len() as int) =~= given);
    assert(wide.subrange(45 + given.len() as int, 45 + given.len() as int + code.len()) =~= code);
    assert(thin.subrange(43, 43 + code.len() as int) =~= code);
}

} // verus!
