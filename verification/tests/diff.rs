use voxtype::diff::{
    common_prefix_len, dedupe_against_emitted, extract_new_text, extract_new_text_confident,
    last_n_words, word_eq, words_match, SLIDING_DIFF_LOOKBACK_WORDS,
};

fn owned(list: &[&str]) -> Vec<String> {
    list.iter().map(|s| s.to_string()).collect()
}

#[test]
fn word_eq_ignores_case_and_trailing_punct() {
    assert!(word_eq("Hello,", "hello"));
    assert!(word_eq("WORLD.", "world"));
    assert!(word_eq("you?", "you"));
    assert!(!word_eq("there", "their"));
}

#[test]
fn word_eq_strips_every_mark_it_knows_and_no_other() {
    for mark in ['.', ',', '!', '?', ';', ':'] {
        assert!(word_eq(&format!("word{mark}"), "word"));
        assert!(word_eq(&format!("word{mark}{mark}"), "WORD"));
    }
    assert!(!word_eq("word-", "word"));
    assert!(!word_eq(".word", "word"));
    assert!(!word_eq("wo.rd", "word"));
}

#[test]
fn word_eq_knows_letters_beyond_ascii() {
    assert!(word_eq("ÉTÉ!", "été"));
    assert!(word_eq("ΌΔΟΣ", "όδος"));
    assert!(!word_eq("été", "ete"));
}

#[test]
fn word_eq_is_an_equivalence() {
    let list = ["Stop", "stop.", "STOP!?", "go", ""];
    for a in list {
        assert!(word_eq(a, a));
        for b in list {
            assert_eq!(word_eq(a, b), word_eq(b, a));
            for c in list {
                assert!(!(word_eq(a, b) && word_eq(b, c)) || word_eq(a, c));
            }
        }
    }
}

#[test]
fn words_match_needs_equal_lengths() {
    assert!(words_match(&owned(&["a", "B."]), &owned(&["A", "b"])));
    assert!(!words_match(&owned(&["a"]), &owned(&["a", "b"])));
    assert!(!words_match(&owned(&["a", "c"]), &owned(&["a", "b"])));
    assert!(words_match(&owned(&[]), &owned(&[])));
}

#[test]
fn common_prefix_len_stops_at_first_divergence() {
    let a = owned(&["hello", "world", "foo"]);
    let b = owned(&["hello", "WORLD", "bar"]);
    assert_eq!(common_prefix_len(&a, &b), 2);
    let c = owned(&["hello"]);
    assert_eq!(common_prefix_len(&a, &c), 1);
}

#[test]
fn common_prefix_len_is_symmetric() {
    let a = owned(&["one", "two", "three"]);
    let b = owned(&["One,", "two", "four", "five"]);
    assert_eq!(common_prefix_len(&a, &b), 2);
    assert_eq!(common_prefix_len(&b, &a), 2);
    assert_eq!(common_prefix_len(&b, &b), 4);
    assert_eq!(common_prefix_len(&a, &[]), 0);
}

#[test]
fn extract_new_text_empty_prev_returns_curr() {
    assert_eq!(extract_new_text("", "hello world"), "hello world");
}

#[test]
fn extract_new_text_empty_curr_returns_empty() {
    assert_eq!(extract_new_text("hello", ""), "");
}

#[test]
fn extract_new_text_suffix_prefix_overlap() {
    // One word overlaps: the last of prev is the first of curr.
    assert_eq!(extract_new_text("hello world", "world foo bar"), "foo bar");
    // The longest overlap wins: here it is two words.
    assert_eq!(
        extract_new_text("we should deploy now", "deploy now please"),
        "please"
    );
}

#[test]
fn extract_new_text_verbatim_prefix() {
    assert_eq!(extract_new_text("hello", "hello world foo"), "world foo");
}

#[test]
fn extract_new_text_fuzzy_scan() {
    assert_eq!(extract_new_text("hello, world", "hello world foo"), "foo");
}

#[test]
fn extract_new_text_refining_emits_nothing() {
    assert_eq!(extract_new_text("hello world foo", "hello world"), "");
    assert_eq!(extract_new_text("a b c", "a b"), "");
}

#[test]
fn extract_new_text_safety_tail() {
    assert_eq!(extract_new_text("x y", "a b c d"), "c d");
}

#[test]
fn extract_new_text_confident_declines_the_safety_guess() {
    assert_eq!(extract_new_text_confident("x y", "a b c d"), None);
}

#[test]
fn guess_needs_more_than_one_word() {
    assert_eq!(extract_new_text("x y", "a b c"), "");
    assert_eq!(extract_new_text("x y", "a b c d"), "c d");
}

#[test]
fn white_space_alone_counts_as_nothing_before() {
    assert_eq!(
        extract_new_text_confident("  ", " a  b "),
        Some(" a  b ".to_string())
    );
    assert_eq!(
        extract_new_text_confident("a", " \t"),
        Some(" \t".to_string())
    );
}

#[test]
fn verbatim_prefix_may_end_inside_a_word() {
    assert_eq!(
        extract_new_text_confident("so far hel", "so far hello  world "),
        Some("lo  world".to_string())
    );
}

#[test]
fn walk_needs_half_of_the_words() {
    // Two of four words come up in order.
    assert_eq!(
        extract_new_text_confident("p q r s", "x p y q z"),
        Some("z".to_string())
    );
    // Only one of three does.
    assert_eq!(extract_new_text_confident("p q r", "x p y z"), None);
}

#[test]
fn longest_overlap_beats_a_shorter_one() {
    assert_eq!(
        extract_new_text_confident("a b a b", "a b a b c"),
        Some("c".to_string())
    );
    assert_eq!(
        extract_new_text_confident("x a b a b", "a b a b c"),
        Some("c".to_string())
    );
}

#[test]
fn continuation_comes_out_word_for_word() {
    assert_eq!(
        extract_new_text_confident("The cat sat.", "the  CAT sat, on the mat"),
        Some("on the mat".to_string())
    );
}

#[test]
fn a_text_is_not_news_to_itself() {
    for text in ["hello", "a b c", "It is, it is."] {
        assert_eq!(extract_new_text_confident(text, text), Some(String::new()));
        assert_eq!(extract_new_text(text, text), "");
    }
}

#[test]
fn nothing_after_a_long_committed_text_is_missed() {
    let committed: Vec<String> = (0..30).map(|i| format!("w{i}")).collect();
    let tail = last_n_words(&committed.join(" "), SLIDING_DIFF_LOOKBACK_WORDS);
    let curr = format!("{} and more", committed.join(" "));
    assert_eq!(
        extract_new_text_confident(&tail, &curr),
        Some("and more".to_string())
    );
}

#[test]
fn sliding_mode_duplicate_reproduction_and_fix() {
    let prev = "roses are red violets";
    // No word of `prev` begins `curr`, and too few of them come up in it.
    let curr = "sky is blue sugar is sweet and so are you my friend";
    assert_eq!(extract_new_text_confident(prev, curr), None);

    // The guess cuts as many words off as `prev` has, wherever that is.
    let guessed = extract_new_text(prev, curr);
    assert_eq!(guessed, "is sweet and so are you my friend");
}

#[test]
fn dedupe_strips_overlap_at_growing_to_sliding_transition() {
    let already_emitted = "It takes a little bit, bit, and then it spits it out.";
    let candidate =
        "and then it spits it out. Yeah, that's what we like to see. I think this is nice.";
    assert_eq!(
        dedupe_against_emitted(already_emitted, candidate),
        "Yeah, that's what we like to see. I think this is nice."
    );
}

#[test]
fn dedupe_leaves_genuinely_new_text_untouched() {
    let already_emitted = "hello world";
    let candidate = "completely unrelated new content";
    assert_eq!(
        dedupe_against_emitted(already_emitted, candidate),
        candidate
    );
}

#[test]
fn dedupe_drops_a_restated_tail() {
    assert_eq!(dedupe_against_emitted("one two three", "Two, three."), "");
    assert_eq!(dedupe_against_emitted("one two three", "three four"), "four");
    assert_eq!(dedupe_against_emitted("", "three four"), "three four");
}

#[test]
fn dedupe_strips_nothing_but_a_restated_beginning() {
    // "alpha" comes up again, but not at the beginning.
    assert_eq!(
        dedupe_against_emitted("alpha beta", "gamma alpha delta"),
        "gamma alpha delta"
    );
    // "foo" is no word of the candidate.
    assert_eq!(dedupe_against_emitted("foo", "foobar baz"), "foobar baz");
    assert_eq!(dedupe_against_emitted("foo", "Foo, bar baz"), "bar baz");
    assert_eq!(dedupe_against_emitted("foo", "  new  words "), "  new  words ");
    assert_eq!(dedupe_against_emitted("foo", ""), "");
}

#[test]
fn dedupe_strips_more_restated_words_than_it_looks_back_at() {
    let emitted = "so zulu b c d e f g h i j k l m n o p q r s u so";
    let restated = "zulu b c d e f g h i j k l m n o p q r s u so";
    assert_eq!(
        dedupe_against_emitted(emitted, &format!("{restated} end")),
        "end"
    );
    assert_eq!(dedupe_against_emitted(emitted, restated), "");
    // One word among them that was never committed, and nothing is stripped.
    let other = restated.replace("zulu", "yankee");
    assert_eq!(dedupe_against_emitted(emitted, &other), other);
}

#[test]
fn dedupe_passes_over_words_that_were_committed() {
    assert_eq!(dedupe_against_emitted("a b c d", "b a b c e"), "e");
    assert_eq!(dedupe_against_emitted("a b c d", "x a b c e"), "x a b c e");
}

#[test]
fn dedupe_cuts_at_whole_words() {
    assert_eq!(dedupe_against_emitted("so far hel", "so far hello you"), "hello you");
}

#[test]
fn dedupe_does_not_look_back_further_than_it_may() {
    let words: Vec<String> = (0..25).map(|i| format!("w{i}")).collect();
    let emitted = words.join(" ");
    assert_eq!(dedupe_against_emitted(&emitted, "w4 x"), "w4 x");
    assert_eq!(dedupe_against_emitted(&emitted, "w24 x"), "x");
}

#[test]
fn last_n_words_returns_tail_or_whole_string() {
    assert_eq!(last_n_words("a b c d e", 3), "c d e");
    assert_eq!(last_n_words("a b", 3), "a b");
    assert_eq!(last_n_words("", 3), "");
    assert_eq!(last_n_words("a b c", 0), "");
}

#[test]
fn long_session_stall_reproduction_and_fix() {
    let mut committed_history: Vec<&str> = Vec::new();
    for i in 0..80 {
        committed_history.push(if i % 2 == 0 { "word" } else { "other" });
    }
    let full_emitted = committed_history.join(" "); // 80 words, none of them in curr

    // A fresh window's transcript that shares nothing with the committed text, and is longer
    // than what is looked back at.
    let curr = "brand new content the user just said in this window \
                     that should absolutely without question be committed \
                     as a real delta and not silently dropped on the floor";
    let curr_words: Vec<&str> = curr.split_whitespace().collect();
    assert!(curr_words.len() > SLIDING_DIFF_LOOKBACK_WORDS);

    // Compared with all of the committed text, nothing would ever come out.
    assert_eq!(
        extract_new_text(&full_emitted, curr),
        "",
        "the whole history is longer than any window"
    );

    // Compared with its end, something does.
    let bounded = last_n_words(&full_emitted, SLIDING_DIFF_LOOKBACK_WORDS);
    assert_eq!(
        bounded.split_whitespace().count(),
        SLIDING_DIFF_LOOKBACK_WORDS
    );
    let expected = curr_words[SLIDING_DIFF_LOOKBACK_WORDS..].join(" ");
    assert_eq!(extract_new_text(&bounded, curr), expected);
    assert!(!expected.is_empty());
}
