use yog_modlist::wrap::wrap;

fn lines(v: &[&str]) -> Vec<String> {
    v.iter().map(|s| s.to_string()).collect()
}

#[test]
fn wrap_breaks_between_words() {
    assert_eq!(wrap("hello world", 5), lines(&["hello", "world"]));
}

#[test]
fn wrap_keeps_short_text_on_one_line() {
    assert_eq!(wrap("a b c", 10), lines(&["a b c"]));
}

#[test]
fn wrap_fills_lines_greedily() {
    assert_eq!(
        wrap("the quick brown fox jumps", 10),
        lines(&["the quick", "brown fox", "jumps"])
    );
}

#[test]
fn wrap_word_exactly_the_width() {
    assert_eq!(wrap("abc de", 3), lines(&["abc", "de"]));
    assert_eq!(wrap("ab cd", 5), lines(&["ab cd"]));
}

#[test]
fn wrap_empty_text_gives_one_empty_line() {
    assert_eq!(wrap("", 20), lines(&[""]));
}

#[test]
fn wrap_blank_text_gives_one_empty_line() {
    assert_eq!(wrap(" \t\n  ", 20), lines(&[""]));
    assert_eq!(wrap("   ", 0), lines(&[""]));
}

#[test]
fn wrap_collapses_whitespace_runs() {
    assert_eq!(wrap("  a \t\n b\u{3000}c  ", 20), lines(&["a b c"]));
}

#[test]
fn wrap_hard_splits_a_long_word() {
    assert_eq!(wrap("abcdefghij", 4), lines(&["abcd", "efgh", "ij"]));
}

#[test]
fn wrap_hard_split_of_exact_multiple() {
    assert_eq!(wrap("abcdefgh", 4), lines(&["abcd", "efgh"]));
}

#[test]
fn wrap_long_word_finishes_the_current_line_first() {
    assert_eq!(
        wrap("ab abcdefghijkl cd", 5),
        lines(&["ab", "abcde", "fghij", "kl cd"])
    );
}

#[test]
fn wrap_counts_characters_not_bytes() {
    assert_eq!(wrap("ééé ööö", 3), lines(&["ééé", "ööö"]));
    assert_eq!(wrap("日本語テキスト", 3), lines(&["日本語", "テキス", "ト"]));
}

#[test]
fn wrap_lines_fit_and_keep_the_text() {
    let text = "Lists every loaded mod (id, name, version, authors, description) plus platform mods, supercalifragilisticexpialidocious.";
    for width in 1..40 {
        let out = wrap(text, width);
        assert!(!out.is_empty());
        for line in &out {
            assert!(line.chars().count() <= width);
            assert!(!line.is_empty());
        }
        let kept: String = out.concat().chars().filter(|c| !c.is_whitespace()).collect();
        let orig: String = text.chars().filter(|c| !c.is_whitespace()).collect();
        assert_eq!(kept, orig);
    }
}
