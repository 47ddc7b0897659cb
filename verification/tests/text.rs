use yog_modlist::text::{is_space_char, truncate_chars};

#[test]
fn truncate_keeps_text_that_fits() {
    assert_eq!(truncate_chars("hello", 10), "hello");
    assert_eq!(truncate_chars("hello", 5), "hello");
    assert_eq!(truncate_chars("", 0), "");
}

#[test]
fn truncate_cuts_and_adds_ellipsis() {
    assert_eq!(truncate_chars("hello world", 8), "hello...");
    assert_eq!(truncate_chars("hello world", 3), "...");
}

#[test]
fn truncate_below_three_still_gives_ellipsis() {
    assert_eq!(truncate_chars("hello", 2), "...");
    assert_eq!(truncate_chars("hello", 0), "...");
}

#[test]
fn truncate_counts_characters() {
    assert_eq!(truncate_chars("ééééé", 4), "é...");
    assert_eq!(truncate_chars("ééééé", 5), "ééééé");
}

#[test]
fn truncate_fits_the_width() {
    let text = "by Alice, Bob, Carol and the rest of the team";
    for width in 3..60 {
        let out = truncate_chars(text, width);
        assert!(out.chars().count() <= width);
    }
}

#[test]
fn space_chars_are_unicode_white_space() {
    for c in [' ', '\t', '\n', '\r', '\u{b}', '\u{c}', '\u{85}', '\u{a0}', '\u{1680}', '\u{2000}', '\u{200a}', '\u{2028}', '\u{2029}', '\u{202f}', '\u{205f}', '\u{3000}'] {
        assert!(is_space_char(c), "{:?}", c);
    }
    for c in ['a', '.', ':', '\u{200b}', '\u{180e}', '\u{feff}', 'é'] {
        assert!(!is_space_char(c), "{:?}", c);
    }
    for u in 0u32..0x3100 {
        if let Some(c) = char::from_u32(u) {
            assert_eq!(is_space_char(c), c.is_whitespace(), "{:?}", c);
        }
    }
}
