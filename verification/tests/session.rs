use voxtype::session::{transcribe_buffer, Session, SlidingWindowConfig};

fn config(max_samples: usize, partial_min_words: usize) -> SlidingWindowConfig {
    SlidingWindowConfig {
        max_samples,
        min_samples: 1,
        partial_min_words,
        type_partials: true,
    }
}

fn ok(text: &str) -> Result<String, String> {
    Ok(text.to_string())
}

fn tick(session: &mut Session<f32>, text: &str) -> Vec<String> {
    session.on_tick(ok(text)).unwrap()
}

fn growing(partial_min_words: usize) -> Session<f32> {
    let mut session = Session::new(config(100, partial_min_words));
    session.feed(&[0.5; 10]);
    assert!(!session.is_sliding());
    session
}

fn sliding(partial_min_words: usize) -> Session<f32> {
    let mut session = Session::new(config(4, partial_min_words));
    session.feed(&[0.5; 5]);
    assert!(session.is_sliding());
    session
}

const NOTHING: [&str; 0] = [];

#[test]
fn default_tuning() {
    let config = SlidingWindowConfig::default();
    assert_eq!(config.max_samples, 464_000);
    assert_eq!(config.min_samples, 16_000);
    assert_eq!(config.partial_min_words, 2);
    assert!(config.type_partials);
    assert_eq!(Session::<f32>::new(config).config(), config);
}

#[test]
fn window_keeps_the_latest_samples() {
    let mut session = Session::new(config(4, 1));
    session.feed(&[1, 2, 3]);
    assert_eq!(session.samples(), [1, 2, 3]);
    session.feed(&[4]);
    assert_eq!(session.samples(), [1, 2, 3, 4]);
    assert!(!session.is_sliding());
    session.feed(&[5, 6]);
    assert_eq!(session.samples(), [3, 4, 5, 6]);
    assert!(session.is_sliding());
    session.feed(&[]);
    assert_eq!(session.samples(), [3, 4, 5, 6]);
    assert!(session.is_sliding());
}

#[test]
fn chunking_makes_no_difference() {
    let mut whole = Session::new(config(4, 1));
    whole.feed(&[1, 2, 3, 4, 5, 6, 7]);
    let mut cut = Session::new(config(4, 1));
    cut.feed(&[1, 2]);
    cut.feed(&[3, 4, 5, 6]);
    cut.feed(&[7]);
    assert_eq!(whole.samples(), cut.samples());
    assert_eq!(whole.samples(), [4, 5, 6, 7]);
    assert_eq!(whole.is_sliding(), cut.is_sliding());
}

#[test]
fn short_or_silent_audio_is_not_due() {
    let mut session = Session::new(SlidingWindowConfig {
        min_samples: 3,
        ..config(10, 1)
    });
    session.feed(&[0.1, 0.2]);
    assert!(!session.transcription_due(false));
    session.feed(&[0.3]);
    assert!(session.transcription_due(false));
    assert!(!session.transcription_due(true));
}

#[test]
fn transcripts_are_trimmed_and_sorted_out() {
    assert_eq!(
        transcribe_buffer(ok("  so it goes \n")),
        Ok(Some("so it goes".to_string()))
    );
    assert_eq!(transcribe_buffer(ok("  ")), Ok(None));
    assert_eq!(transcribe_buffer(ok("Thanks for watching!")), Ok(None));
    assert_eq!(
        transcribe_buffer(Err::<String, String>("down".to_string())),
        Err("down".to_string())
    );
}

#[test]
fn two_passes_commit_what_they_agree_on() {
    let mut session = growing(2);
    assert_eq!(tick(&mut session, "we should"), NOTHING);
    assert_eq!(tick(&mut session, "We should deploy"), ["We should"]);
    assert_eq!(session.transcript(), "We should");
    // One more stable word is not enough.
    assert_eq!(tick(&mut session, "we should deploy now"), NOTHING);
    assert_eq!(tick(&mut session, "we should deploy now please"), [" deploy now"]);
    assert_eq!(session.transcript(), "We should deploy now");
}

#[test]
fn divergence_holds_commits_back() {
    let mut session = growing(1);
    assert_eq!(tick(&mut session, "one two three"), NOTHING);
    assert_eq!(tick(&mut session, "one too three"), ["one"]);
    assert_eq!(tick(&mut session, "one tow three"), NOTHING);
    assert_eq!(tick(&mut session, "one tow three"), [" tow three"]);
}

#[test]
fn rejected_transcripts_change_nothing() {
    let mut session = growing(1);
    assert_eq!(tick(&mut session, "one two"), NOTHING);
    assert_eq!(tick(&mut session, "Thank you."), NOTHING);
    assert_eq!(tick(&mut session, "   "), NOTHING);
    // The pass before the rejected ones still counts as the one before.
    assert_eq!(tick(&mut session, "one two"), ["one two"]);
}

#[test]
fn backend_errors_come_back() {
    let mut session = growing(1);
    assert_eq!(tick(&mut session, "one two"), NOTHING);
    assert_eq!(
        session.on_tick(Err("down".to_string())),
        Err("down".to_string())
    );
    assert_eq!(tick(&mut session, "one two"), ["one two"]);
    assert_eq!(session.final_flush(Err("down".to_string())), None);
    assert_eq!(session.transcript(), "one two");
}

#[test]
fn sliding_window_commits_what_is_pending_twice() {
    let mut session = sliding(2);
    assert_eq!(tick(&mut session, "a b c d"), NOTHING);
    assert_eq!(tick(&mut session, "a b c d"), ["a b c d"]);
    assert_eq!(tick(&mut session, "c d e f"), NOTHING);
    assert_eq!(tick(&mut session, "d e f g"), [" e f"]);
    assert_eq!(session.transcript(), "a b c d e f");
}

#[test]
fn sliding_window_without_a_match_commits_nothing() {
    let mut session = sliding(1);
    tick(&mut session, "a b c d");
    tick(&mut session, "a b c d");
    assert_eq!(session.transcript(), "a b c d");
    assert_eq!(tick(&mut session, "p q r s t u v"), NOTHING);
    assert_eq!(tick(&mut session, "p q r s t u v"), NOTHING);
    assert_eq!(session.transcript(), "a b c d");
}

#[test]
fn pending_words_are_found_again_after_a_commit() {
    let mut session = sliding(1);
    assert_eq!(tick(&mut session, "a b x y"), NOTHING);
    assert_eq!(tick(&mut session, "a b p q"), ["a b"]);
    // "p q" is pending since the commit, so one more pass settles it.
    assert_eq!(tick(&mut session, "a b p q"), [" p q"]);
}

#[test]
fn no_duplicate_at_the_transition_to_sliding() {
    let mut session = Session::new(config(6, 2));
    session.feed(&[0.5; 5]);
    assert_eq!(tick(&mut session, "and then it spits it out."), NOTHING);
    assert_eq!(
        tick(&mut session, "and then it spits it out."),
        ["and then it spits it out."]
    );
    session.feed(&[0.5; 5]);
    assert!(session.is_sliding());
    let next = "and then it spits it out. Yeah, that's nice.";
    assert_eq!(tick(&mut session, next), NOTHING);
    assert_eq!(tick(&mut session, next), [" Yeah, that's nice."]);
    assert_eq!(
        session.transcript(),
        "and then it spits it out. Yeah, that's nice."
    );
}

#[test]
fn flush_types_the_tail_only() {
    let mut session = growing(2);
    tick(&mut session, "alpha beta");
    assert_eq!(tick(&mut session, "alpha beta gamma"), ["alpha beta"]);
    assert_eq!(
        session.final_flush(ok("alpha beta gamma delta")),
        Some(" gamma delta".to_string())
    );
    assert_eq!(session.transcript(), "alpha beta gamma delta");
    assert_eq!(session.final_flush(ok("alpha beta gamma delta")), None);
}

#[test]
fn flush_types_everything_where_nothing_is_committed() {
    let mut session = growing(2);
    assert_eq!(
        session.final_flush(ok("  nobody  typed this ")),
        Some("nobody  typed this".to_string())
    );
    assert_eq!(growing(2).final_flush(ok("Bye!")), None);
}

#[test]
fn flush_guesses_where_nothing_matches() {
    let mut session = growing(1);
    tick(&mut session, "x y");
    assert_eq!(tick(&mut session, "x y"), ["x y"]);
    assert_eq!(session.final_flush(ok("p q r s")), Some(" r s".to_string()));
}

#[test]
fn the_guard_strips_what_restates_the_end() {
    let mut session = growing(1);
    tick(&mut session, "a b");
    assert_eq!(tick(&mut session, "a b"), ["a b"]);
    assert_eq!(session.final_flush(ok("a b b c")), Some(" c".to_string()));
}

#[test]
fn deltas_spell_the_transcript() {
    for mut session in [growing(1), sliding(1)] {
        let mut typed = String::new();
        for text in [
            "the first",
            "the first words",
            "the first words are",
            "Okay.",
            "first words are followed by",
            "words are followed by others",
            "are followed by others here",
        ] {
            let deltas = tick(&mut session, text);
            assert!(deltas.len() <= 1);
            typed.push_str(&deltas.concat());
            assert_eq!(typed, session.transcript());
        }
        let tail = session.final_flush(ok("followed by others here at last"));
        typed.push_str(&tail.unwrap_or_default());
        assert_eq!(typed, session.transcript());
    }
}

#[test]
fn a_long_restated_text_is_not_committed_again() {
    let mut session = growing(1);
    let said: Vec<String> = (0..25).map(|i| format!("w{i}")).collect();
    let once = said.join(" ");
    tick(&mut session, &once);
    assert_eq!(tick(&mut session, &once), [once.as_str()]);
    let twice = format!("{once} {once}");
    assert_eq!(tick(&mut session, &twice), NOTHING);
    assert_eq!(tick(&mut session, &twice), NOTHING);
    assert_eq!(session.transcript(), once);
    let more = format!("{twice} then more");
    assert_eq!(tick(&mut session, &more), NOTHING);
    assert_eq!(tick(&mut session, &more), [" then more"]);
}

#[test]
fn flush_types_a_long_transcript_once() {
    let said: Vec<String> = (0..50).map(|i| format!("w{i}")).collect();
    let committed = said[..45].join(" ");
    let mut session = growing(2);
    tick(&mut session, &committed);
    assert_eq!(tick(&mut session, &committed), [committed.as_str()]);
    assert_eq!(
        session.final_flush(ok(&said.join(" "))),
        Some(" w45 w46 w47 w48 w49".to_string())
    );
    assert_eq!(session.transcript(), said.join(" "));
    assert_eq!(session.final_flush(ok(&said.join(" "))), None);
}

#[test]
fn accidental_overlap_does_not_type_committed_words_again() {
    // The first word is also the last one committed.
    let committed = "so zulu b c d e f g h i j k l m n o p q r s u so";
    let mut session = Session::new(SlidingWindowConfig::default());
    session.feed(&[0.05; 16_000]);
    assert_eq!(tick(&mut session, committed), NOTHING);
    assert_eq!(tick(&mut session, committed), [committed]);
    assert_eq!(
        session.final_flush(ok(&format!("{committed} end"))),
        Some(" end".to_string())
    );
    assert_eq!(session.transcript(), format!("{committed} end"));
}

#[test]
fn sliding_tick_does_not_type_committed_words_again() {
    let mut session = sliding(1);
    let committed = "so zulu b c d e f g h i j k l m n o p q r s u so";
    tick(&mut session, committed);
    assert_eq!(tick(&mut session, committed), [committed]);
    let next = format!("{committed} the end");
    assert_eq!(tick(&mut session, &next), NOTHING);
    assert_eq!(tick(&mut session, &next), [" the end"]);

    let mut session = sliding(1);
    let said: Vec<String> = (0..60).map(|i| format!("w{i}")).collect();
    tick(&mut session, &said[..40].join(" "));
    tick(&mut session, &said[..40].join(" "));
    // The window has lost the first words and gained some.
    assert_eq!(tick(&mut session, &said[10..43].join(" ")), NOTHING);
    assert_eq!(tick(&mut session, &said[12..45].join(" ")), [" w40 w41 w42"]);
    assert_eq!(session.transcript(), said[..43].join(" "));
}

#[test]
fn agreeing_transcripts_come_out_whole() {
    let mut session = growing(2);
    let said = "sphinx of black quartz, judge my vow at dawn";
    let words: Vec<&str> = said.split(' ').collect();
    let mut typed = String::new();
    for n in [2, 3, 3, 5, 7] {
        typed.push_str(&tick(&mut session, &words[..n].join(" ")).concat());
    }
    assert_eq!(typed, "sphinx of black quartz, judge");
    typed.push_str(&session.final_flush(ok(said)).unwrap());
    assert_eq!(typed, said);
}

#[test]
fn flush_loses_no_word_of_the_tail() {
    let mut session = Session::new(SlidingWindowConfig::default());
    session.feed(&[0.05; 16_000]);
    assert_eq!(tick(&mut session, "alpha beta"), NOTHING);
    assert_eq!(tick(&mut session, "alpha beta"), ["alpha beta"]);
    assert_eq!(
        session.final_flush(ok("alpha beta gamma alpha delta")),
        Some(" gamma alpha delta".to_string())
    );
    assert_eq!(session.transcript(), "alpha beta gamma alpha delta");
}

#[test]
fn ticks_lose_no_word_that_comes_up_again() {
    let mut session = growing(2);
    tick(&mut session, "alpha beta");
    assert_eq!(tick(&mut session, "alpha beta"), ["alpha beta"]);
    let more = "alpha beta gamma alpha delta";
    assert_eq!(tick(&mut session, more), NOTHING);
    assert_eq!(tick(&mut session, more), [" gamma alpha delta"]);
    assert_eq!(session.final_flush(ok(more)), None);
    assert_eq!(session.transcript(), more);
}
