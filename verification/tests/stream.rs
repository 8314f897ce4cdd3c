use voxtype::openvino::{default_openvino_device, default_openvino_language, OpenVinoConfig};
use voxtype::session::{Session, SlidingWindowConfig};
use voxtype::stream::{Action, Outcome, Pass, SlidingWindowStreamingTranscriber, StreamingEvent};

type Event = StreamingEvent<String>;

/// A backend whose transcript grows with the audio.
fn transcribe(samples: &[f32]) -> Result<String, String> {
    let secs = samples.len() as f32 / 16_000.0;
    let text = if secs < 1.0 {
        ""
    } else if secs < 2.0 {
        "alpha beta"
    } else if secs < 3.0 {
        "alpha beta gamma"
    } else {
        "alpha beta gamma delta"
    };
    Ok(text.to_string())
}

fn loud_samples(secs: f32) -> Vec<f32> {
    let n = (secs * 16_000.0) as usize;
    (0..n)
        .map(|i| if i % 2 == 0 { 0.05 } else { -0.05 })
        .collect()
}

fn streaming_config() -> SlidingWindowConfig {
    SlidingWindowConfig {
        max_samples: 29 * 16_000,
        min_samples: 16_000,
        partial_min_words: 1,
        type_partials: true,
    }
}

/// Carries out what the session asks for; true when the stream is over.
fn happen(session: &mut Session<f32>, outcome: Outcome<f32>, heard: &mut Vec<Event>) -> bool {
    let mut action = session.on_outcome(outcome);
    if let Action::Transcribe(pass) = action {
        let reply = transcribe(session.samples());
        action = session.on_reply(pass, reply);
    }
    match action {
        Action::Wait => false,
        Action::Transcribe(_) => panic!("a reply asks for no other pass"),
        Action::Send(events) => {
            heard.extend(events);
            false
        }
        Action::Close(events) => {
            heard.extend(events);
            true
        }
    }
}

/// Three seconds of audio in chunks of half a second, with ticks between them, then the end.
fn run_session(config: SlidingWindowConfig, ticks: usize, silent: bool) -> Vec<Event> {
    let engine = SlidingWindowStreamingTranscriber::new((), config);
    let mut session = engine.start_session();
    let mut heard = Vec::new();
    for _ in 0..6 {
        assert!(!happen(
            &mut session,
            Outcome::Chunk(loud_samples(0.5)),
            &mut heard
        ));
        for _ in 0..ticks {
            assert!(!happen(&mut session, Outcome::Tick { silent }, &mut heard));
        }
    }
    assert!(happen(&mut session, Outcome::Eof { silent }, &mut heard));
    assert_eq!(emitted_text(&heard).concat(), session.transcript());
    heard
}

fn emitted_text(events: &[Event]) -> Vec<&str> {
    events
        .iter()
        .filter_map(|ev| match ev {
            StreamingEvent::Partial { text, .. } | StreamingEvent::Final { text, .. } => {
                Some(text.as_str())
            }
            _ => None,
        })
        .collect()
}

fn ended(events: &[Event]) -> usize {
    events
        .iter()
        .filter(|ev| matches!(ev, StreamingEvent::Ended))
        .count()
}

#[test]
fn session_emits_stable_deltas_then_final_flush_and_ended() {
    let events = run_session(streaming_config(), 3, false);

    assert!(matches!(events.last(), Some(StreamingEvent::Ended)));
    assert!(events.len() >= 3, "expected partials + final + ended");
    assert_eq!(ended(&events), 1);

    let parts = emitted_text(&events);
    // Each delta carries the space that separates it.
    assert_eq!(parts.concat(), "alpha beta gamma delta");
    assert_eq!(parts, ["alpha beta", " gamma", " delta"]);
    for i in 1..parts.len() {
        let tail = parts[..i].concat();
        assert!(!tail.contains(parts[i].trim()), "repeated text: {parts:?}");
    }
}

#[test]
fn commit_only_mode_emits_final_deltas() {
    let mut cfg = streaming_config();
    cfg.type_partials = false;
    let events = run_session(cfg, 3, false);

    let parts = emitted_text(&events);
    assert_eq!(parts.concat(), "alpha beta gamma delta");
    assert!(events
        .iter()
        .all(|ev| !matches!(ev, StreamingEvent::Partial { .. })));
}

#[test]
fn silence_only_buffer_emits_no_events() {
    let events = run_session(streaming_config(), 3, true);
    assert!(matches!(events.last(), Some(StreamingEvent::Ended)));
    assert_eq!(events.len(), 1);
    assert_eq!(
        emitted_text(&events).len(),
        0,
        "silence should not transcribe"
    );
}

#[test]
fn tail_goes_out_as_final_right_before_the_end() {
    let events = run_session(streaming_config(), 1, false);
    assert_eq!(emitted_text(&events).concat(), "alpha beta gamma delta");
    let n = events.len();
    assert!(matches!(&events[n - 1], StreamingEvent::Ended));
    assert!(matches!(
        &events[n - 2],
        StreamingEvent::Final { text, segment_id: 0 } if text == " delta"
    ));
    assert!(events[..n - 2]
        .iter()
        .all(|ev| matches!(ev, StreamingEvent::Partial { segment_id: 0, .. })));
}

#[test]
fn everything_goes_out_at_the_end_without_ticks() {
    let events = run_session(streaming_config(), 0, false);
    assert_eq!(events.len(), 2);
    assert_eq!(emitted_text(&events), ["alpha beta gamma delta"]);
}

#[test]
fn cancelling_ends_without_a_flush() {
    let mut session: Session<f32> = Session::new(streaming_config());
    let mut heard = Vec::new();
    assert!(!happen(
        &mut session,
        Outcome::Chunk(loud_samples(2.0)),
        &mut heard
    ));
    assert!(happen(&mut session, Outcome::Cancelled, &mut heard));
    assert_eq!(heard.len(), 1);
    assert!(matches!(heard[0], StreamingEvent::Ended));
    assert_eq!(session.transcript(), "");
}

#[test]
fn failing_backend_ends_the_stream() {
    let mut session: Session<f32> = Session::new(streaming_config());
    let reply: Result<String, String> = Err("down".to_string());
    match session.on_reply(Pass::Tick, reply.clone()) {
        Action::Close(events) => {
            assert_eq!(events.len(), 2);
            assert!(matches!(&events[0], StreamingEvent::Error(e) if e == "down"));
            assert!(matches!(&events[1], StreamingEvent::Ended));
        }
        other => panic!("{other:?}"),
    }
    match session.on_reply(Pass::Flush, reply) {
        Action::Close(events) => {
            assert_eq!(events.len(), 1);
            assert!(matches!(&events[0], StreamingEvent::Ended));
        }
        other => panic!("{other:?}"),
    }
}

#[test]
fn little_audio_is_not_transcribed() {
    let mut session: Session<f32> = Session::new(streaming_config());
    session.feed(&loud_samples(0.5));
    let on_tick: Action<String> = session.on_outcome(Outcome::Tick { silent: false });
    assert!(matches!(on_tick, Action::Wait));
    let on_end: Action<String> = session.on_outcome(Outcome::Eof { silent: false });
    assert!(matches!(on_end, Action::Close(events) if events.len() == 1));
    session.feed(&loud_samples(0.5));
    let on_tick: Action<String> = session.on_outcome(Outcome::Tick { silent: false });
    assert!(matches!(on_tick, Action::Transcribe(Pass::Tick)));
    let on_end: Action<String> = session.on_outcome(Outcome::Eof { silent: false });
    assert!(matches!(on_end, Action::Transcribe(Pass::Flush)));
}

#[test]
fn engine_keeps_its_backend_and_tuning() {
    let engine = SlidingWindowStreamingTranscriber::new("backend", streaming_config());
    assert_eq!(engine.base, "backend");
    assert_eq!(engine.config, streaming_config());
    let session: Session<i16> = engine.start_session();
    assert_eq!(session.config(), streaming_config());
    assert!(session.samples().is_empty());
    assert_eq!(session.transcript(), "");
}

#[test]
fn openvino_defaults() {
    let config = OpenVinoConfig::default();
    assert_eq!(config.model, "base.en");
    assert_eq!(config.device, "NPU");
    assert!(config.quantized);
    assert_eq!(config.threads, None);
    assert_eq!(config.language, "en");
    assert!(!config.translate);
    assert!(!config.on_demand_loading);
    assert_eq!(default_openvino_device(), "NPU");
    assert_eq!(default_openvino_language(), "en");
}
