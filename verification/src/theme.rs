//! Colours, and how many of them a window gets.

use crate::text::{
    contains, digit, digits, hex, law_a_part_occurs_inside_the_whole, letters, occurs, same,
};
use vstd::prelude::*;

verus! {

/// Red, green and blue, eight bits each.
pub type Rgb = (u8, u8, u8);

/// A pen colour as the terminal is told about it.
#[derive(Clone, Copy, Debug, PartialEq, Eq, Structural)]
pub enum Color {
    /// A 24-bit colour.
    Rgb { r: u8, g: u8, b: u8 },
    /// An entry of the terminal's palette.
    AnsiValue(u8),
}

/// How many colours the terminal can be trusted with.
#[derive(Clone, Copy, Debug, PartialEq, Eq, Structural)]
pub enum Depth {
    True,
    Ansi256,
    Ansi16,
}

/// Nearest of the six steps a channel has in the 256-colour cube.
pub open spec fn cube_step(v: u8) -> int {
    (v * 5 + 127) / 255
}

/// The brightest channel.
pub open spec fn brightest(rgb: Rgb) -> u8 {
    if rgb.0 >= rgb.1 && rgb.0 >= rgb.2 {
        rgb.0
    } else if rgb.1 >= rgb.2 {
        rgb.1
    } else {
        rgb.2
    }
}

/// `1` for a channel that counts as lit among sixteen colours.
pub open spec fn lit_bit(v: u8) -> int {
    if v >= 96 {
        1
    } else {
        0
    }
}

/// The pen colour a 24-bit colour becomes at a depth.
pub open spec fn color_at(depth: Depth, rgb: Rgb) -> Color {
    match depth {
        Depth::True => Color::Rgb { r: rgb.0, g: rgb.1, b: rgb.2 },
        Depth::Ansi256 => Color::AnsiValue(
            (16 + 36 * cube_step(rgb.0) + 6 * cube_step(rgb.1) + cube_step(rgb.2)) as u8,
        ),
        Depth::Ansi16 => Color::AnsiValue(
            (lit_bit(rgb.0) + 2 * lit_bit(rgb.1) + 4 * lit_bit(rgb.2) + (if brightest(rgb) >= 192 {
                8int
            } else {
                0int
            })) as u8,
        ),
    }
}

fn cube(v: u8) -> (s: u8)
    ensures
        s == cube_step(v),
        s <= 5,
{
    ((v as u16 * 5 + 127) / 255) as u8
}

/// The depth a terminal has, by what it calls itself.
pub open spec fn detected(colorterm: Seq<char>, term: Seq<char>) -> Depth {
    if occurs(colorterm, "truecolor"@) || occurs(colorterm, "24bit"@) {
        Depth::True
    } else if occurs(term, "256color"@) {
        Depth::Ansi256
    } else {
        Depth::Ansi16
    }
}

impl Depth {
    /// How many colours the terminal can be trusted with, going by the usual
    /// two variables of its environment.
    #[must_use]
    pub fn detect(colorterm: &str, term: &str) -> (d: Depth)
        ensures
            d == detected(colorterm@, term@),
    {
        if contains(colorterm, "truecolor") || contains(colorterm, "24bit") {
            Depth::True
        } else if contains(term, "256color") {
            Depth::Ansi256
        } else {
            Depth::Ansi16
        }
    }

    /// The pen colour that stands for `rgb` at this depth: itself, an entry of
    /// the 6x6x6 cube, or one of the sixteen basic colours.
    #[must_use]
    pub fn to_color(self, rgb: Rgb) -> (c: Color)
        ensures
            c == color_at(self, rgb),
    {
        match self {
            Depth::True => Color::Rgb { r: rgb.0, g: rgb.1, b: rgb.2 },
            Depth::Ansi256 => Color::AnsiValue(
                16 + 36 * cube(rgb.0) + 6 * cube(rgb.1) + cube(rgb.2),
            ),
            Depth::Ansi16 => {
                let r: u8 = if rgb.0 >= 96 { 1 } else { 0 };
                let g: u8 = if rgb.1 >= 96 { 2 } else { 0 };
                let b: u8 = if rgb.2 >= 96 { 4 } else { 0 };
                let bright: u8 = if rgb.0 >= 192 || rgb.1 >= 192 || rgb.2 >= 192 { 8 } else { 0 };
                Color::AnsiValue(r + g + b + bright)
            },
        }
    }
}

/// Brightness steps on a stock terminal.
pub const DEFAULT_LEVELS: u16 = 24;

/// Brightness steps on a terminal of any size.
pub const MIN_AUTO_LEVELS: u16 = 6;

/// `1500 / sqrt(cells)`, rounded, reaches `n` steps. Squared out, so that no
/// root has to be taken.
pub open spec fn affords(cells: nat, n: nat) -> bool {
    (2 * n - 1) * (2 * n - 1) * cells <= 9_000_000
}

/// The most steps up to `n` that a window of so many cells affords, and the
/// least there are otherwise.
pub open spec fn most_levels(cells: nat, n: nat) -> nat
    decreases n,
{
    if n <= MIN_AUTO_LEVELS {
        MIN_AUTO_LEVELS as nat
    } else if affords(cells, n) {
        n
    } else {
        most_levels(cells, (n - 1) as nat)
    }
}

fn affordable(cells: u64, n: u64) -> (r: bool)
    requires
        1 <= n <= 24,
        cells <= 0xffff_ffff,
    ensures
        r == affords(cells as nat, n as nat),
{
    let side: u64 = 2 * n - 1;
    proof {
        assert(side * side <= 2209) by (nonlinear_arith)
            requires
                1 <= side <= 47,
        ;
        assert(side * side * cells <= 2209 * 0xffff_ffff) by (nonlinear_arith)
            requires
                0 <= side * side <= 2209,
                cells <= 0xffff_ffff,
        ;
    }
    side * side * cells <= 9_000_000
}

/// Brightness steps for a window of this size: `1500 / sqrt(cells)`, rounded to
/// the nearest and kept between [`MIN_AUTO_LEVELS`] and [`DEFAULT_LEVELS`].
#[must_use]
pub fn auto_levels(w: u16, h: u16) -> (n: u16)
    ensures
        n == most_levels((w * h) as nat, DEFAULT_LEVELS as nat),
        MIN_AUTO_LEVELS <= n <= DEFAULT_LEVELS,
{
    proof {
        crate::grid::lemma_grid_size(w as int, h as int);
    }
    let cells: u64 = w as u64 * h as u64;
    let mut n: u64 = 24;
    while n > 6 && !affordable(cells, n)
        invariant
            cells == w * h,
            cells <= 0xffff_ffff,
            6 <= n <= 24,
            most_levels(cells as nat, 24) == most_levels(cells as nat, n as nat),
        decreases n,
    {
        n = n - 1;
    }
    n as u16
}

/// A larger window never gets more brightness steps than a smaller one.
pub proof fn law_a_larger_window_gets_no_more_levels(small: nat, large: nat, n: nat)
    requires
        small <= large,
        n >= MIN_AUTO_LEVELS,
    ensures
        MIN_AUTO_LEVELS <= most_levels(large, n) <= most_levels(small, n) <= n,
    decreases n,
{
    if n > MIN_AUTO_LEVELS {
        law_a_larger_window_gets_no_more_levels(small, large, (n - 1) as nat);
        assert(affords(large, n) ==> affords(small, n)) by {
            assert((2 * n - 1) * (2 * n - 1) * small <= (2 * n - 1) * (2 * n - 1) * large)
                by (nonlinear_arith)
                requires
                    small <= large,
                    n >= 1,
            ;
        }
    }
}

/// How many brightness steps a trail has.
#[derive(Clone, Copy, Debug, PartialEq, Eq, Structural)]
pub enum Levels {
    /// Sized from the window, and picked again when that changes.
    Auto,
    /// As given. Zero switches quantisation off.
    Fixed(u16),
}

/// The value of a run of decimal digits.
pub open spec fn number(s: Seq<char>) -> nat
    decreases s.len(),
{
    if s.len() == 0 {
        0
    } else {
        number(s.drop_last()) * 10 + (s.last() as u32 - 48) as nat
    }
}

/// Digits and nothing else, at least one.
pub open spec fn is_number(s: Seq<char>) -> bool {
    s.len() > 0 && forall|i: int| 0 <= i < s.len() ==> '0' <= #[trigger] s[i] <= '9'
}

/// What a level count on the command line stands for: `auto`, or a number of
/// sixteen bits, with or without a plus sign.
pub open spec fn levels_of(s: Seq<char>) -> Option<Levels> {
    let plain = if s.len() > 0 && s[0] == '+' {
        s.drop_first()
    } else {
        s
    };
    if s == "auto"@ {
        Some(Levels::Auto)
    } else if is_number(plain) && number(plain) <= u16::MAX {
        Some(Levels::Fixed(number(plain) as u16))
    } else {
        None
    }
}

proof fn lemma_number_grows(s: Seq<char>, n: int)
    requires
        is_number(s),
        0 <= n <= s.len(),
    ensures
        number(s.take(n)) <= number(s),
    decreases s.len() - n,
{
    if n < s.len() {
        lemma_number_grows(s, n + 1);
        assert(s.take(n + 1).drop_last() =~= s.take(n));
    } else {
        assert(s.take(n) =~= s);
    }
}

impl Levels {
    /// The level count for a window of this size.
    #[must_use]
    pub fn resolve(self, w: u16, h: u16) -> (n: u16)
        ensures
            n == match self {
                Levels::Auto => most_levels((w * h) as nat, DEFAULT_LEVELS as nat) as u16,
                Levels::Fixed(n) => n,
            },
    {
        match self {
            Levels::Auto => auto_levels(w, h),
            Levels::Fixed(n) => n,
        }
    }

    /// Reads a level count.
    #[must_use]
    pub fn parse(s: &str) -> (r: Option<Levels>)
        ensures
            r == levels_of(s@),
    {
        if same(s, "auto") {
            return Some(Levels::Auto);
        }
        let v: Vec<char> = letters(s);
        let start: usize = if v.len() > 0 && v[0] == '+' {
            1
        } else {
            0
        };
        let ghost plain = if s@.len() > 0 && s@[0] == '+' {
            s@.drop_first()
        } else {
            s@
        };
        assert(plain =~= v@.skip(start as int));
        if v.len() == start {
            return None;
        }
        let mut n: u32 = 0;
        let mut i: usize = start;
        assert(plain.take(0) =~= Seq::empty());
        while i < v.len()
            invariant
                start <= i <= v@.len(),
                plain == v@.skip(start as int),
                start < v@.len(),
                n <= u16::MAX,
                n == number(plain.take(i - start)),
                forall|k: int| 0 <= k < i - start ==> '0' <= #[trigger] plain[k] <= '9',
                levels_of(s@) == (if is_number(plain) && number(plain) <= u16::MAX {
                    Some(Levels::Fixed(number(plain) as u16))
                } else {
                    None
                }),
            decreases v.len() - i,
        {
            let c: char = v[i];
            assert(plain[i - start] == c);
            if !('0' <= c && c <= '9') {
                return None;
            }
            n = n * 10 + (c as u32 - 48);
            i = i + 1;
            proof {
                assert(plain.take(i - start).drop_last() =~= plain.take(i - start - 1));
            }
            if n > 65535 {
                proof {
                    if is_number(plain) {
                        lemma_number_grows(plain, i - start);
                    }
                }
                return None;
            }
        }
        assert(plain.take(i - start) =~= plain);
        Some(Levels::Fixed(n as u16))
    }
}

/// A base colour, and whether the hue rotates.
#[derive(Clone, Copy, Debug, PartialEq, Eq)]
pub struct BaseColor(pub Rgb, pub bool);

/// The value of a hexadecimal digit in either case.
pub open spec fn hex_value(c: char) -> Option<int> {
    if '0' <= c <= '9' {
        Some(c as u32 - 48)
    } else if 'a' <= c <= 'f' {
        Some(c as u32 - 87)
    } else if 'A' <= c <= 'F' {
        Some(c as u32 - 55)
    } else {
        None
    }
}

/// `#RRGGBB`.
pub open spec fn is_hex_color(s: Seq<char>) -> bool {
    &&& s.len() == 7
    &&& s[0] == '#'
    &&& forall|i: int| 1 <= i < 7 ==> hex_value(#[trigger] s[i]) is Some
}

/// The channel whose two digits start at `i`.
pub open spec fn channel(s: Seq<char>, i: int) -> u8 {
    (hex_value(s[i])->0 * 16 + hex_value(s[i + 1])->0) as u8
}

/// The colours that go by a name.
pub open spec fn named_color(s: Seq<char>) -> Option<Rgb> {
    if s == "green"@ {
        Some((0, 255, 65))
    } else if s == "red"@ {
        Some((255, 0, 0))
    } else if s == "blue"@ {
        Some((0, 0, 255))
    } else if s == "cyan"@ {
        Some((0, 255, 255))
    } else if s == "magenta"@ {
        Some((255, 0, 255))
    } else if s == "yellow"@ {
        Some((255, 255, 0))
    } else if s == "white"@ {
        Some((255, 255, 255))
    } else {
        None
    }
}

/// What a colour on the command line stands for: `rainbow`, a name, or
/// `#RRGGBB`.
pub open spec fn base_color_of(s: Seq<char>) -> Option<BaseColor> {
    if s == "rainbow"@ {
        Some(BaseColor((0, 255, 65), true))
    } else if named_color(s) is Some {
        Some(BaseColor(named_color(s)->0, false))
    } else if is_hex_color(s) {
        Some(BaseColor((channel(s, 1), channel(s, 3), channel(s, 5)), false))
    } else {
        None
    }
}

fn hex_digit(c: char) -> (v: Option<u8>)
    ensures
        match v {
            Some(v) => hex_value(c) == Some(v as int) && v < 16,
            None => hex_value(c) is None,
        },
{
    let n: u32 = c as u32;
    if 48 <= n && n <= 57 {
        Some((n - 48) as u8)
    } else if 97 <= n && n <= 102 {
        Some((n - 87) as u8)
    } else if 65 <= n && n <= 70 {
        Some((n - 55) as u8)
    } else {
        None
    }
}

fn hex_pair(v: &Vec<char>, i: usize) -> (r: Option<u8>)
    requires
        v@.len() == 7,
        i < 6,
    ensures
        match r {
            Some(b) => hex_value(v@[i as int]) is Some && hex_value(v@[i + 1]) is Some && b
                == channel(v@, i as int),
            None => hex_value(v@[i as int]) is None || hex_value(v@[i + 1]) is None,
        },
{
    match (hex_digit(v[i]), hex_digit(v[i + 1])) {
        (Some(a), Some(b)) => Some(a * 16 + b),
        _ => None,
    }
}

impl BaseColor {
    /// Reads a colour.
    #[must_use]
    pub fn parse(s: &str) -> (r: Option<BaseColor>)
        ensures
            r == base_color_of(s@),
    {
        if same(s, "rainbow") {
            return Some(BaseColor((0, 255, 65), true));
        }
        if same(s, "green") {
            return Some(BaseColor((0, 255, 65), false));
        }
        if same(s, "red") {
            return Some(BaseColor((255, 0, 0), false));
        }
        if same(s, "blue") {
            return Some(BaseColor((0, 0, 255), false));
        }
        if same(s, "cyan") {
            return Some(BaseColor((0, 255, 255), false));
        }
        if same(s, "magenta") {
            return Some(BaseColor((255, 0, 255), false));
        }
        if same(s, "yellow") {
            return Some(BaseColor((255, 255, 0), false));
        }
        if same(s, "white") {
            return Some(BaseColor((255, 255, 255), false));
        }
        let v: Vec<char> = letters(s);
        if v.len() != 7 || v[0] != '#' {
            return None;
        }
        match (hex_pair(&v, 1), hex_pair(&v, 3), hex_pair(&v, 5)) {
            (Some(r), Some(g), Some(b)) => {
                assert forall|i: int| 1 <= i < 7 implies hex_value(#[trigger] s@[i]) is Some by {
                    assert(i == 1 || i == 2 || i == 3 || i == 4 || i == 5 || i == 6);
                }
                Some(BaseColor((r, g, b), false))
            },
            _ => None,
        }
    }
}

/// How far a step of the cube is from the brightness it stands for. The six
/// steps are evenly spread from none to full.
pub open spec fn miss(v: u8, step: int) -> int {
    if v >= 51 * step {
        v - 51 * step
    } else {
        51 * step - v
    }
}

/// An entry of the 256-colour cube holds for each channel of the colour asked
/// for the step nearest to that same channel. Read back, red is worth 36, green
/// 6 and blue 1.
pub proof fn law_a_cube_entry_is_nearest_in_each_channel(rgb: Rgb, step: int)
    requires
        0 <= step <= 5,
    ensures
        color_at(Depth::Ansi256, rgb) matches Color::AnsiValue(n) && {
            let (red, green, blue) = ((n - 16) / 36, (n - 16) / 6 % 6, (n - 16) % 6);
            &&& 16 <= n <= 231
            &&& miss(rgb.0, red) <= miss(rgb.0, step)
            &&& miss(rgb.1, green) <= miss(rgb.1, step)
            &&& miss(rgb.2, blue) <= miss(rgb.2, step)
            &&& rgb == (255u8, 0u8, 0u8) ==> n == 196
            &&& rgb == (0u8, 255u8, 0u8) ==> n == 46
            &&& rgb == (0u8, 0u8, 255u8) ==> n == 21
        },
{
    let (r, g, b) = (cube_step(rgb.0), cube_step(rgb.1), cube_step(rgb.2));
    assert(0 <= r <= 5 && 0 <= g <= 5 && 0 <= b <= 5);
    let n = 36 * r + 6 * g + b;
    assert(n / 36 == r && n / 6 % 6 == g && n % 6 == b);
}

/// Among sixteen colours an entry's bits tell which channels are lit, red the
/// first, green the second and blue the third, and the fourth tells whether any
/// of them is bright.
pub proof fn law_sixteen_colours_light_their_own_channels(rgb: Rgb)
    ensures
        color_at(Depth::Ansi16, rgb) matches Color::AnsiValue(n) && {
            &&& n < 16
            &&& n % 2 == 1 <==> rgb.0 >= 96
            &&& n / 2 % 2 == 1 <==> rgb.1 >= 96
            &&& n / 4 % 2 == 1 <==> rgb.2 >= 96
            &&& n >= 8 <==> rgb.0 >= 192 || rgb.1 >= 192 || rgb.2 >= 192
        },
{
}

/// Nothing is lost at full depth: each channel is the one asked for, and two
/// colours come out the same only where they are.
pub proof fn law_full_depth_loses_nothing(a: Rgb, b: Rgb)
    ensures
        color_at(Depth::True, a) matches Color::Rgb { r, g, b } && r == a.0 && g == a.1 && b
            == a.2,
        color_at(Depth::True, a) == color_at(Depth::True, b) ==> a == b,
{
}

/// A terminal is taken at its word wherever the word stands: one that claims
/// full depth has it whatever its kind, one whose kind claims 256 colours has
/// those unless it claims more, and any other has sixteen.
pub proof fn law_a_terminal_is_taken_at_its_word(
    before: Seq<char>,
    after: Seq<char>,
    colorterm: Seq<char>,
    term: Seq<char>,
)
    ensures
        detected(before + "truecolor"@ + after, term) == Depth::True,
        detected(before + "24bit"@ + after, term) == Depth::True,
        detected(Seq::empty(), before + "256color"@ + after) == Depth::Ansi256,
        detected(Seq::empty(), Seq::empty()) == Depth::Ansi16,
        detected(colorterm, term) == Depth::True <==> occurs(colorterm, "truecolor"@) || occurs(
            colorterm,
            "24bit"@,
        ),
        detected(colorterm, term) == Depth::Ansi16 ==> !occurs(term, "256color"@),
{
    reveal_strlit("truecolor");
    reveal_strlit("24bit");
    reveal_strlit("256color");
    law_a_part_occurs_inside_the_whole(before, "truecolor"@, after, Seq::empty());
    law_a_part_occurs_inside_the_whole(before, "24bit"@, after, Seq::empty());
    law_a_part_occurs_inside_the_whole(before, "256color"@, after, Seq::empty());
}

proof fn lemma_level_curve(cells: nat, from: nat)
    requires
        from >= MIN_AUTO_LEVELS,
    ensures
        MIN_AUTO_LEVELS <= most_levels(cells, from) <= from,
        most_levels(cells, from) < from ==> !affords(cells, most_levels(cells, from) + 1),
        most_levels(cells, from) > MIN_AUTO_LEVELS ==> affords(cells, most_levels(cells, from)),
    decreases from,
{
    if from > MIN_AUTO_LEVELS && !affords(cells, from) {
        lemma_level_curve(cells, (from - 1) as nat);
    }
}

/// The level count is the whole number nearest to `1500 / sqrt(cells)`, never
/// under 6 and never over 24: half a step more is too many unless it is already
/// the most, and half a step less is not unless it is already the least. Both
/// are squared out.
pub proof fn law_the_level_count_is_the_nearest(cells: nat)
    ensures
        ({
            let n = most_levels(cells, DEFAULT_LEVELS as nat);
            &&& 6 <= n <= 24
            &&& n > 6 ==> (2 * n - 1) * (2 * n - 1) * cells <= 9_000_000
            &&& n < 24 ==> (2 * n + 1) * (2 * n + 1) * cells > 9_000_000
        }),
{
    lemma_level_curve(cells, 24);
    let n = most_levels(cells, 24);
    assert((2 * (n + 1) - 1) * (2 * (n + 1) - 1) * cells == (2 * n + 1) * (2 * n + 1) * cells)
        by (nonlinear_arith);
}

/// Decimal digits read back as the number they were written for, and start with
/// a zero only for zero.
pub proof fn law_decimal_reads_back(n: nat)
    ensures
        number(digits(n)) == n,
        is_number(digits(n)),
        n > 0 ==> digits(n)[0] != '0',
    decreases n,
{
    reveal_with_fuel(number, 2);
    if n < 10 {
        let s = seq![digit(n)];
        assert(s.drop_last() =~= Seq::<char>::empty());
    } else {
        law_decimal_reads_back(n / 10);
        let front = digits(n / 10);
        let s = front.push(digit(n % 10));
        assert(s.drop_last() =~= front);
        assert(s[0] == front[0]);
    }
}

/// A level count reads back as it was written, with or without a plus sign, as
/// far as it fits sixteen bits; `auto` and nothing else sizes it from the window;
/// and nothing that holds anything but digits behind that sign is a count.
pub proof fn law_a_level_count_reads_back(n: nat, s: Seq<char>)
    ensures
        n <= 65535 ==> levels_of(digits(n)) == Some(Levels::Fixed(n as u16)),
        n <= 65535 ==> levels_of(seq!['+'] + digits(n)) == Some(Levels::Fixed(n as u16)),
        n > 65535 ==> levels_of(digits(n)) is None,
        levels_of(s) == Some(Levels::Auto) <==> s == "auto"@,
        levels_of(s) matches Some(Levels::Fixed(_)) ==> s.len() > 0 && (s[0] == '+' || '0' <= s[0]
            <= '9') && forall|i: int| 1 <= i < s.len() ==> '0' <= #[trigger] s[i] <= '9',
{
    reveal_strlit("auto");
    law_decimal_reads_back(n);
    let d = digits(n);
    assert('0' <= d[0] <= '9');
    let plus = seq!['+'] + d;
    assert(plus.drop_first() =~= d);
    assert("auto"@[0] == 'a');
    assert(plus[0] == '+');
    if s.len() > 0 && s[0] == '+' {
        assert forall|i: int| 1 <= i < s.len() && is_number(s.drop_first()) implies '0'
            <= #[trigger] s[i] <= '9' by {
            assert(s.drop_first()[i - 1] == s[i]);
        }
    }
}

/// A colour in hexadecimal reads back as it was written, channel by channel, and
/// does not rotate.
pub proof fn law_a_hexadecimal_colour_reads_back(r: u8, g: u8, b: u8)
    ensures
        base_color_of(seq!['#'] + hex(r as nat, 2) + hex(g as nat, 2) + hex(b as nat, 2)) == Some(
            BaseColor((r, g, b), false),
        ),
{
    reveal_strlit("rainbow");
    reveal_strlit("green");
    reveal_strlit("red");
    reveal_strlit("blue");
    reveal_strlit("cyan");
    reveal_strlit("magenta");
    reveal_strlit("yellow");
    reveal_strlit("white");
    lemma_two_digits(r);
    lemma_two_digits(g);
    lemma_two_digits(b);
    let s = seq!['#'] + hex(r as nat, 2) + hex(g as nat, 2) + hex(b as nat, 2);
    assert(s.len() == 7);
    assert(s[0] == '#');
    assert("rainbow"@[0] == 'r' && "magenta"@[0] == 'm');
}

proof fn lemma_two_digits(v: u8)
    ensures
        hex(v as nat, 2).len() == 2,
        hex_value(hex(v as nat, 2)[0]) == Some(v as int / 16),
        hex_value(hex(v as nat, 2)[1]) == Some(v as int % 16),
{
    reveal_with_fuel(hex, 3);
}

/// Letters stand for the same digits in either case.
pub proof fn law_case_does_not_matter_in_hexadecimal(s: Seq<char>, t: Seq<char>)
    requires
        s.len() == t.len(),
        s.len() > 0,
        s[0] == '#' && t[0] == '#',
        forall|i: int|
            #![trigger s[i]]
            0 <= i < s.len() ==> s[i] == t[i] || ('a' <= s[i] <= 'f' && t[i] == (s[i] as u32
                - 32) as char),
    ensures
        base_color_of(s) == base_color_of(t),
{
    reveal_strlit("rainbow");
    reveal_strlit("green");
    reveal_strlit("red");
    reveal_strlit("blue");
    reveal_strlit("cyan");
    reveal_strlit("magenta");
    reveal_strlit("yellow");
    reveal_strlit("white");
    assert("rainbow"@[0] == 'r' && "green"@[0] == 'g' && "red"@[0] == 'r' && "blue"@[0] == 'b'
        && "cyan"@[0] == 'c' && "magenta"@[0] == 'm' && "yellow"@[0] == 'y' && "white"@[0] == 'w');
    assert forall|i: int| 0 <= i < s.len() implies #[trigger] hex_value(s[i]) == hex_value(t[i]) by {
        let (c, d) = (s[i], t[i]);
        assert(c == d || ('a' <= c <= 'f' && d == (c as u32 - 32) as char));
        if c != d {
            assert(97 <= c as u32 <= 102);
            assert('A' <= d <= 'F');
        }
    }
    if s.len() == 7 {
        assert(hex_value(s[1]) == hex_value(t[1]) && hex_value(s[2]) == hex_value(t[2]));
        assert(hex_value(s[3]) == hex_value(t[3]) && hex_value(s[4]) == hex_value(t[4]));
        assert(hex_value(s[5]) == hex_value(t[5]) && hex_value(s[6]) == hex_value(t[6]));
        if is_hex_color(s) {
            assert forall|i: int| 1 <= i < 7 implies hex_value(#[trigger] t[i]) is Some by {
                assert(hex_value(s[i]) == hex_value(t[i]));
            }
        }
        if is_hex_color(t) {
            assert forall|i: int| 1 <= i < 7 implies hex_value(#[trigger] s[i]) is Some by {
                assert(hex_value(s[i]) == hex_value(t[i]));
            }
        }
    }
}

/// A name is the corner of the colour cube it says, with the channels it mixes
/// full and the others off, but for green, which is the film's; the rainbow
/// starts from that one, and nothing else rotates.
pub proof fn law_names_mix_their_channels(s: Seq<char>)
    ensures
        base_color_of("red"@) == Some(BaseColor((255, 0, 0), false)),
        base_color_of("blue"@) == Some(BaseColor((0, 0, 255), false)),
        base_color_of("cyan"@) == Some(BaseColor((0, 255, 255), false)),
        base_color_of("magenta"@) == Some(BaseColor((255, 0, 255), false)),
        base_color_of("yellow"@) == Some(BaseColor((255, 255, 0), false)),
        base_color_of("white"@) == Some(BaseColor((255, 255, 255), false)),
        base_color_of("green"@) == Some(BaseColor((0, 255, 65), false)),
        base_color_of("rainbow"@) == Some(BaseColor((0, 255, 65), true)),
        base_color_of(s) matches Some(c) ==> (c.1 <==> s == "rainbow"@),
        base_color_of(s) is Some && s.len() > 0 && s[0] == '#' ==> s.len() == 7,
        s.len() > 7 ==> base_color_of(s) is None,
        s.len() < 3 ==> base_color_of(s) is None,
{
    reveal_strlit("rainbow");
    reveal_strlit("green");
    reveal_strlit("red");
    reveal_strlit("blue");
    reveal_strlit("cyan");
    reveal_strlit("magenta");
    reveal_strlit("yellow");
    reveal_strlit("white");
    assert("rainbow"@[0] == 'r' && "green"@[0] == 'g' && "red"@[0] == 'r' && "blue"@[0] == 'b'
        && "cyan"@[0] == 'c' && "magenta"@[0] == 'm' && "yellow"@[0] == 'y' && "white"@[0] == 'w');
}

} // verus!
