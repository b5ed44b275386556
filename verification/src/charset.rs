//! Glyph repertoires for the rain.

use crate::text::letters;
use vstd::prelude::*;

verus! {

/// A character a terminal acts on instead of printing it: the two control
/// ranges of Unicode and the delete character between them.
pub open spec fn is_control(c: char) -> bool {
    (c as u32) < 0x20 || 0x7f <= c as u32 <= 0x9f
}

#[derive(Clone, Copy, Debug, PartialEq, Eq, Structural)]
pub enum Charset {
    /// Halfwidth katakana (U+FF66-FF9D): the movie's glyph set.
    Katakana,
    /// Katakana mixed with digits, as it actually appears on screen in the film.
    Classic,
    /// Printable ASCII, for terminals without CJK glyph coverage.
    Ascii,
    /// Letters and digits only.
    Alnum,
    Binary,
    Hex,
    Greek,
    Symbols,
    /// Whatever the user supplies.
    Custom,
}

/// The characters from `first` to `last`, both included.
pub open spec fn span(first: char, last: char) -> Seq<char> {
    Seq::new((last as int - first as int + 1) as nat, |i: int| (first as int + i) as char)
}

/// The symbols of [`Charset::Symbols`].
pub open spec fn symbols() -> Seq<char> {
    "!@#$%^&*()[]{}<>/\\|=+-_~;:,.?"@
}

/// The glyphs of a repertoire.
pub open spec fn glyphs_of(set: Charset, custom: Seq<char>) -> Seq<char> {
    match set {
        Charset::Katakana => span('\u{FF66}', '\u{FF9D}'),
        // The film's columns are mostly kana with numerals sprinkled in.
        Charset::Classic => span('\u{FF66}', '\u{FF9D}') + span('0', '9'),
        Charset::Ascii => span('!', 'z'),
        Charset::Alnum => span('0', '9') + span('A', 'Z') + span('a', 'z'),
        Charset::Binary => span('0', '1'),
        Charset::Hex => span('0', '9') + span('A', 'F'),
        // U+03A2 is unassigned.
        Charset::Greek => span('\u{0391}', '\u{03A1}') + span('\u{03A3}', '\u{03C9}'),
        Charset::Symbols => symbols(),
        Charset::Custom => if custom.len() == 0 {
            span('\u{FF66}', '\u{FF9D}')
        } else {
            custom
        },
    }
}

/// `char::from_u32`: the character with that number, where there is one. The
/// surrogates and everything past U+10FFFF have none.
pub assume_specification[ char::from_u32 ](i: u32) -> (r: Option<char>)
    ensures
        r == (if i <= 0xD7FF || 0xE000 <= i <= 0x10FFFF {
            Some(i as char)
        } else {
            None
        }),
;

/// Appends the characters from `first` to `last`. No surrogate lies between.
fn push_span(out: &mut Vec<char>, first: char, last: char)
    requires
        first <= last,
        last < '\u{D7FF}' || '\u{E000}' <= first,
        last < '\u{10FFFF}',
    ensures
        final(out)@ == old(out)@ + span(first, last),
{
    let ghost before = out@;
    let mut c: u32 = first as u32;
    let end: u32 = last as u32;
    while c <= end
        invariant
            first <= last,
            last < '\u{D7FF}' || '\u{E000}' <= first,
            last < '\u{10FFFF}',
            end == last as u32,
            first as u32 <= c <= end + 1,
            out@ == before + span(first, last).take(c - first as u32),
        decreases end + 1 - c,
    {
        match char::from_u32(c) {
            Some(ch) => {
                out.push(ch);
                assert(span(first, last).take(c + 1 - first as u32) =~= span(first, last).take(
                    c - first as u32,
                ).push(ch));
            },
            None => {},
        }
        c = c + 1;
    }
    assert(span(first, last).take(end + 1 - first as u32) =~= span(first, last));
}

impl Charset {
    /// The glyphs of this repertoire. `custom` matters to [`Charset::Custom`]
    /// only, where an empty string falls back to katakana rather than to a
    /// blank screen.
    #[must_use]
    pub fn glyphs(self, custom: &str) -> (v: Vec<char>)
        ensures
            v@ == glyphs_of(self, custom@),
    {
        let mut v: Vec<char> = Vec::new();
        match self {
            Charset::Katakana => push_span(&mut v, '\u{FF66}', '\u{FF9D}'),
            Charset::Classic => {
                push_span(&mut v, '\u{FF66}', '\u{FF9D}');
                push_span(&mut v, '0', '9');
            },
            Charset::Ascii => push_span(&mut v, '!', 'z'),
            Charset::Alnum => {
                push_span(&mut v, '0', '9');
                push_span(&mut v, 'A', 'Z');
                push_span(&mut v, 'a', 'z');
            },
            Charset::Binary => push_span(&mut v, '0', '1'),
            Charset::Hex => {
                push_span(&mut v, '0', '9');
                push_span(&mut v, 'A', 'F');
            },
            Charset::Greek => {
                push_span(&mut v, '\u{0391}', '\u{03A1}');
                push_span(&mut v, '\u{03A3}', '\u{03C9}');
            },
            Charset::Symbols => {
                v = letters("!@#$%^&*()[]{}<>/\\|=+-_~;:,.?");
            },
            Charset::Custom => {
                v = letters(custom);
                if v.len() == 0 {
                    push_span(&mut v, '\u{FF66}', '\u{FF9D}');
                }
            },
        }
        assert(v@ =~= glyphs_of(self, custom@));
        v
    }
}

/// A character that takes two columns: the East Asian wide and fullwidth
/// ranges, and the pictographs.
pub open spec fn wide(c: char) -> bool {
    let n = c as u32;
    ||| 0x1100 <= n <= 0x115F
    ||| 0x2E80 <= n <= 0xA4CF
    ||| 0xAC00 <= n <= 0xD7A3
    ||| 0xF900 <= n <= 0xFAFF
    ||| 0xFE30 <= n <= 0xFE6F
    ||| 0xFF00 <= n <= 0xFF60
    ||| 0xFFE0 <= n <= 0xFFE6
    ||| 0x1F300 <= n <= 0x1FAFF
}

/// A character that takes no column of its own: combining marks, joiners and
/// variation selectors.
pub open spec fn zero_width(c: char) -> bool {
    let n = c as u32;
    ||| 0x0300 <= n <= 0x036F
    ||| 0x200B <= n <= 0x200F
    ||| 0x20D0 <= n <= 0x20FF
    ||| 0xFE00 <= n <= 0xFE0F
    ||| n == 0xFEFF
}

/// Whether a character takes two columns.
#[must_use]
pub fn is_wide(c: char) -> (r: bool)
    ensures
        r == wide(c),
{
    let n: u32 = c as u32;
    (0x1100 <= n && n <= 0x115F) || (0x2E80 <= n && n <= 0xA4CF) || (0xAC00 <= n && n <= 0xD7A3)
        || (0xF900 <= n && n <= 0xFAFF) || (0xFE30 <= n && n <= 0xFE6F) || (0xFF00 <= n && n
        <= 0xFF60) || (0xFFE0 <= n && n <= 0xFFE6) || (0x1F300 <= n && n <= 0x1FAFF)
}

/// Whether a character takes no column of its own.
#[must_use]
pub fn is_zero_width(c: char) -> (r: bool)
    ensures
        r == zero_width(c),
{
    let n: u32 = c as u32;
    (0x0300 <= n && n <= 0x036F) || (0x200B <= n && n <= 0x200F) || (0x20D0 <= n && n <= 0x20FF)
        || (0xFE00 <= n && n <= 0xFE0F) || n == 0xFEFF
}

/// Every repertoire but a user's own has glyphs, and each of them is visible
/// and exactly one column wide: no control character, no blank, nothing wide
/// and nothing of no width.
pub proof fn law_every_repertoire_prints(set: Charset, custom: Seq<char>)
    requires
        set != Charset::Custom,
    ensures
        glyphs_of(set, custom).len() > 0,
        forall|i: int|
            0 <= i < glyphs_of(set, custom).len() ==> {
                let c = #[trigger] glyphs_of(set, custom)[i];
                !is_control(c) && c != ' ' && !wide(c) && !zero_width(c)
            },
{
    reveal_strlit("!@#$%^&*()[]{}<>/\\|=+-_~;:,.?");
}

/// No repertoire but a user's own holds a glyph twice.
pub proof fn law_no_repertoire_repeats_a_glyph(set: Charset, custom: Seq<char>, i: int, j: int)
    requires
        set != Charset::Custom,
        0 <= i < j < glyphs_of(set, custom).len(),
    ensures
        glyphs_of(set, custom)[i] != glyphs_of(set, custom)[j],
{
    reveal_strlit("!@#$%^&*()[]{}<>/\\|=+-_~;:,.?");
}

/// A user's own glyphs are used as they are, and an empty choice is katakana
/// rather than a blank screen.
pub proof fn law_a_custom_pool_is_used_verbatim(custom: Seq<char>)
    ensures
        custom.len() > 0 ==> glyphs_of(Charset::Custom, custom) == custom,
        glyphs_of(Charset::Custom, Seq::empty()) == glyphs_of(Charset::Katakana, custom),
        glyphs_of(Charset::Custom, custom).len() > 0,
{
}

proof fn lemma_span(first: char, last: char, c: char)
    requires
        first <= last,
        (last as u32) < 0xD800 || 0xE000 <= first as u32,
    ensures
        span(first, last).contains(c) <==> first <= c <= last,
        span(first, last).len() == last as int - first as int + 1,
{
    let s = span(first, last);
    if first <= c <= last {
        let i = c as int - first as int;
        assert(s[i] == c);
    }
    if s.contains(c) {
        let i = choose|i: int| 0 <= i < s.len() && s[i] == c;
        assert(s[i] == (first as int + i) as char);
    }
}

proof fn lemma_joined(a: Seq<char>, b: Seq<char>, c: char)
    ensures
        (a + b).contains(c) <==> a.contains(c) || b.contains(c),
{
    let s = a + b;
    if a.contains(c) {
        let i = choose|i: int| 0 <= i < a.len() && a[i] == c;
        assert(s[i] == c);
    }
    if b.contains(c) {
        let i = choose|i: int| 0 <= i < b.len() && b[i] == c;
        assert(s[a.len() + i] == c);
    }
    if s.contains(c) {
        let i = choose|i: int| 0 <= i < s.len() && s[i] == c;
        if i < a.len() {
            assert(a[i] == c);
        } else {
            assert(b[i - a.len()] == c);
        }
    }
}

/// A repertoire holds the characters it is named for and no others: halfwidth
/// katakana, those and the digits, printable ASCII up to `z`, letters and digits,
/// the two binary digits, the sixteen of upper-case hexadecimal, and the Greek
/// letters of either case.
pub proof fn law_a_repertoire_holds_what_it_is_named_for(c: char, custom: Seq<char>)
    ensures
        glyphs_of(Charset::Katakana, custom).contains(c) <==> 0xFF66 <= c as u32 <= 0xFF9D,
        glyphs_of(Charset::Classic, custom).contains(c) <==> 0xFF66 <= c as u32 <= 0xFF9D || '0'
            <= c <= '9',
        glyphs_of(Charset::Ascii, custom).contains(c) <==> '!' <= c <= 'z',
        glyphs_of(Charset::Alnum, custom).contains(c) <==> '0' <= c <= '9' || 'A' <= c <= 'Z'
            || 'a' <= c <= 'z',
        glyphs_of(Charset::Binary, custom).contains(c) <==> c == '0' || c == '1',
        glyphs_of(Charset::Hex, custom).contains(c) <==> '0' <= c <= '9' || 'A' <= c <= 'F',
        glyphs_of(Charset::Greek, custom).contains(c) <==> 0x391 <= c as u32 <= 0x3C9 && c as u32
            != 0x3A2,
        // The printable rest of ASCII, but for the three quotation marks.
        glyphs_of(Charset::Symbols, custom).contains(c) <==> '!' <= c <= '~' && !('0' <= c <= '9')
            && !('A' <= c <= 'Z') && !('a' <= c <= 'z') && c != '"' && c != '\'' && c != '`',
{
    lemma_span('\u{FF66}', '\u{FF9D}', c);
    lemma_span('0', '9', c);
    lemma_span('!', 'z', c);
    lemma_span('A', 'Z', c);
    lemma_span('a', 'z', c);
    lemma_span('0', '1', c);
    lemma_span('A', 'F', c);
    lemma_span('\u{0391}', '\u{03A1}', c);
    lemma_span('\u{03A3}', '\u{03C9}', c);
    lemma_joined(span('\u{FF66}', '\u{FF9D}'), span('0', '9'), c);
    lemma_joined(span('0', '9'), span('A', 'Z'), c);
    lemma_joined(span('0', '9') + span('A', 'Z'), span('a', 'z'), c);
    lemma_joined(span('0', '9'), span('A', 'F'), c);
    lemma_joined(span('\u{0391}', '\u{03A1}'), span('\u{03A3}', '\u{03C9}'), c);
    reveal_strlit("!@#$%^&*()[]{}<>/\\|=+-_~;:,.?");
    let s = symbols();
    assert(s[0] == '!' && s[1] == '@' && s[2] == '#' && s[3] == '$');
    assert(s[4] == '%' && s[5] == '^' && s[6] == '&' && s[7] == '*');
    assert(s[8] == '(' && s[9] == ')' && s[10] == '[' && s[11] == ']');
    assert(s[12] == '{' && s[13] == '}' && s[14] == '<' && s[15] == '>');
    assert(s[16] == '/' && s[17] == '\\' && s[18] == '|' && s[19] == '=');
    assert(s[20] == '+' && s[21] == '-' && s[22] == '_' && s[23] == '~');
    assert(s[24] == ';' && s[25] == ':' && s[26] == ',' && s[27] == '.');
    assert(s[28] == '?');
}

/// Every script has its width. Ideographs, kana, Hangul and fullwidth forms take
/// two columns, and so do pictographs; letters and digits of the Latin and Greek
/// alphabets and halfwidth katakana take one; combining marks, joiners and
/// variation selectors take none, and nothing takes both two and none.
pub proof fn law_every_script_has_its_width(c: char)
    ensures
        ({
            let n = c as u32;
            // Hangul, as letters that open a syllable and as whole syllables.
            &&& 0x1100 <= n <= 0x115F || 0xAC00 <= n <= 0xD7A3 ==> wide(c)
            // Radicals, CJK punctuation, kana, ideographs, Yi.
            &&& 0x2E80 <= n <= 0xA4CF || 0xF900 <= n <= 0xFAFF ==> wide(c)
            // Fullwidth forms, of signs too, and vertical and small ones.
            &&& 0xFF00 <= n <= 0xFF60 || 0xFFE0 <= n <= 0xFFE6 || 0xFE30 <= n <= 0xFE6F ==> wide(c)
            // Pictographs.
            &&& 0x1F300 <= n <= 0x1FAFF ==> wide(c)
            // Combining marks, joiners, variation selectors, the byte order mark.
            &&& 0x0300 <= n <= 0x036F || 0x200B <= n <= 0x200F || 0x20D0 <= n <= 0x20FF || 0xFE00
                <= n <= 0xFE0F || n == 0xFEFF ==> zero_width(c)
            // Latin, Greek, Cyrillic, Armenian, Hebrew, Arabic, Indic and Southeast
            // Asian scripts, Ethiopic, Cherokee, Khmer, Mongolian.
            &&& n < 0x0300 || 0x0370 <= n < 0x1100 || 0x1160 <= n < 0x200B ==> !wide(c)
                && !zero_width(c)
            // Lisu, Vai, Arabic presentation forms, private use.
            &&& 0xA4D0 <= n < 0xAC00 || 0xE000 <= n < 0xF900 || 0xFB00 <= n < 0xFE00 || 0xFE70
                <= n < 0xFEFF ==> !wide(c) && !zero_width(c)
            // Ancient scripts and musical signs, and everything past pictographs.
            &&& 0xFFE7 <= n < 0x1F300 || 0x1FB00 <= n ==> !wide(c) && !zero_width(c)
            // Punctuation, arrows, mathematics, boxes, dingbats, Braille.
            &&& 0x2010 <= n <= 0x20CF || 0x2100 <= n < 0x2E80 ==> !wide(c) && !zero_width(c)
            // Halfwidth forms.
            &&& 0xFF61 <= n <= 0xFFDF ==> !wide(c) && !zero_width(c)
            &&& !(wide(c) && zero_width(c))
        }),
{
}

/// The control characters are those below the space, the delete character and the
/// 32 behind it; nothing that prints in ASCII is one.
pub proof fn law_what_controls_a_terminal(c: char)
    ensures
        c as u32 <= 31 ==> is_control(c),
        c as u32 == 127 ==> is_control(c),
        128 <= c as u32 <= 159 ==> is_control(c),
        ' ' <= c <= '~' ==> !is_control(c),
        c as u32 >= 160 ==> !is_control(c),
{
}

} // verus!
