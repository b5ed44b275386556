//! The glyph repertoires.

use rmatrix::charset::{is_wide, is_zero_width};
use rmatrix::Charset;

#[test]
fn katakana_is_the_halfwidth_block() {
    let g = Charset::Katakana.glyphs("");
    assert_eq!(g.len(), 56);
    assert!(g.iter().all(|c| ('\u{FF66}'..='\u{FF9D}').contains(c)));
    // Halfwidth: every glyph must occupy exactly one terminal column, or the
    // damage-tracked renderer's cursor arithmetic goes wrong.
    assert!(g.iter().all(|c| !is_wide(*c)));
}

#[test]
fn classic_is_katakana_plus_digits() {
    let g = Charset::Classic.glyphs("");
    assert_eq!(g.len(), 66);
    assert!(('0'..='9').all(|d| g.contains(&d)));
}

#[test]
fn ascii_matches_the_matrix_code_nfi_coverage() {
    // Matrix Code NFI is Basic Latin only, and cmatrix's own ASCII range is
    // 0x21..=0x7A.
    let g = Charset::Ascii.glyphs("");
    assert_eq!(*g.first().expect("non-empty"), '!');
    assert_eq!(*g.last().expect("non-empty"), 'z');
    assert!(g.iter().all(|c| c.is_ascii_graphic()));
}

#[test]
fn greek_skips_the_unassigned_codepoint() {
    let g = Charset::Greek.glyphs("");
    assert!(
        !g.contains(&'\u{03A2}'),
        "U+03A2 is unassigned and renders as tofu"
    );
    assert!(g.contains(&'\u{03A9}') && g.contains(&'\u{03B1}'));
}

#[test]
fn custom_is_used_verbatim() {
    assert_eq!(Charset::Custom.glyphs("abc"), vec!['a', 'b', 'c']);
    assert_eq!(Charset::Custom.glyphs("ｱ0"), vec!['ｱ', '0']);
}

#[test]
fn empty_custom_falls_back_rather_than_producing_a_blank_screen() {
    assert_eq!(Charset::Custom.glyphs(""), Charset::Katakana.glyphs(""));
}

#[test]
fn no_charset_is_empty_or_contains_control_characters() {
    for cs in [
        Charset::Katakana,
        Charset::Classic,
        Charset::Ascii,
        Charset::Alnum,
        Charset::Binary,
        Charset::Hex,
        Charset::Greek,
        Charset::Symbols,
    ] {
        let g = cs.glyphs("");
        assert!(!g.is_empty(), "{cs:?} is empty");
        assert!(
            !g.iter().any(|c| c.is_control()),
            "{cs:?} has a control char"
        );
        assert!(!g.contains(&' '), "{cs:?} has a space");
    }
}

#[test]
fn the_small_repertoires_hold_exactly_their_glyphs() {
    assert_eq!(Charset::Binary.glyphs(""), vec!['0', '1']);
    let hex: String = Charset::Hex.glyphs("").into_iter().collect();
    assert_eq!(hex, "0123456789ABCDEF");
    let alnum: String = Charset::Alnum.glyphs("").into_iter().collect();
    assert_eq!(
        alnum,
        "0123456789ABCDEFGHIJKLMNOPQRSTUVWXYZabcdefghijklmnopqrstuvwxyz"
    );
    let symbols: String = Charset::Symbols.glyphs("").into_iter().collect();
    assert_eq!(symbols, "!@#$%^&*()[]{}<>/\\|=+-_~;:,.?");
    assert_eq!(Charset::Greek.glyphs("").len(), 56);
}

#[test]
fn widths_are_told_apart() {
    for c in ['日', 'Ａ', '🌧', '가'] {
        assert!(is_wide(c), "{c:?} takes two columns");
        assert!(!is_zero_width(c));
    }
    for c in ['\u{0301}', '\u{200D}', '\u{FE0F}'] {
        assert!(is_zero_width(c), "{c:?} takes no column");
        assert!(!is_wide(c));
    }
    for c in ['a', 'ｱ', 'α', ' '] {
        assert!(!is_wide(c) && !is_zero_width(c));
    }
}

#[test]
fn no_charset_holds_a_glyph_twice() {
    for cs in [
        Charset::Katakana,
        Charset::Classic,
        Charset::Ascii,
        Charset::Alnum,
        Charset::Binary,
        Charset::Hex,
        Charset::Greek,
        Charset::Symbols,
    ] {
        let mut g = cs.glyphs("");
        let n = g.len();
        g.sort_unstable();
        g.dedup();
        assert_eq!(g.len(), n, "{cs:?} repeats a glyph");
    }
}
