use voxtype::filter::{is_hallucination, is_listed, HALLUCINATION_PATTERNS};
use voxtype::text::{
    is_white_space, join_all, join_range, split_words, starts_with, trim_end_matches, trimmed_from,
};

#[test]
fn white_space_is_what_unicode_says() {
    let mut count = 0;
    for c in '\0'..=char::MAX {
        assert_eq!(is_white_space(c), c.is_whitespace(), "{c:?}");
        if is_white_space(c) {
            count += 1;
        }
    }
    assert_eq!(count, 25);
}

#[test]
fn words_are_split_at_white_space() {
    for text in [
        "",
        " ",
        "one",
        "one two",
        "  one\ttwo\n three  ",
        "a\u{a0}b\u{3000}c\u{85}d",
        "naïve Straße 東京",
    ] {
        let expected: Vec<&str> = text.split_whitespace().collect();
        assert_eq!(split_words(text), expected);
    }
}

#[test]
fn splitting_undoes_joining() {
    let words = split_words(" alpha  beta\ngamma ");
    assert_eq!(words, ["alpha", "beta", "gamma"]);
    assert_eq!(join_all(&words), "alpha beta gamma");
    assert_eq!(split_words(&join_all(&words)), words);
    assert_eq!(join_range(&words, 1, 3), "beta gamma");
    assert_eq!(join_range(&words, 1, 1), "");
}

#[test]
fn white_space_separates_words() {
    let mut both = split_words("one two");
    both.extend(split_words("three"));
    assert_eq!(split_words("one two\u{2003}three"), both);
}

#[test]
fn trimming_cleans_both_ends() {
    for text in ["", "  ", " a b ", "\u{a0}x\u{a0}", "x", "\n\n x"] {
        assert_eq!(trimmed_from(text, 0), text.trim());
        assert_eq!(trimmed_from(&trimmed_from(text, 0), 0), text.trim());
    }
    assert_eq!(trimmed_from("äö  ü ", 2), "ü");
}

#[test]
fn trailing_marks_are_trimmed() {
    assert_eq!(trim_end_matches("wait...!?", &['.', '?']), "wait...!");
    assert_eq!(trim_end_matches("wait...", &['.', '?']), "wait");
    assert_eq!(trim_end_matches("...", &['.']), "");
    assert_eq!(trim_end_matches(".a", &['.']), ".a");
}

#[test]
fn prefixes_are_compared_by_character() {
    assert!(starts_with("hello", "hel"));
    assert!(starts_with("hello", ""));
    assert!(starts_with("émile", "é"));
    assert!(!starts_with("hel", "hello"));
    assert!(!starts_with("Hello", "hel"));
}

#[test]
fn is_hallucination_matches_and_strips_punct() {
    assert!(is_hallucination("thank you."));
    assert!(is_hallucination("  YOU  "));
    assert!(!is_hallucination("hello world"));
    assert!(!is_hallucination("the quick brown fox"));
}

#[test]
fn every_listed_phrase_is_a_hallucination() {
    assert_eq!(HALLUCINATION_PATTERNS.len(), 22);
    for phrase in HALLUCINATION_PATTERNS {
        assert!(is_hallucination(phrase));
        assert!(is_hallucination(&phrase.to_uppercase()));
        assert!(is_hallucination(&format!("\n {phrase}!.\t")));
    }
}

#[test]
fn listed_phrases_are_in_lower_case() {
    assert!(is_listed("good night!?"));
    assert!(!is_listed("Good night"));
    assert!(!is_listed(" good night"));
    assert!(!is_listed("good night;"));
}

#[test]
fn hallucinations_are_whole_phrases() {
    assert!(!is_hallucination(""));
    assert!(!is_hallucination("thank you;"));
    assert!(!is_hallucination("thank you ."));
    assert!(!is_hallucination("okay then"));
}
