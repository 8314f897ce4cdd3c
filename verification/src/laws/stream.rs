//! Laws of whole streams: what a listener hears, whatever happens and in whatever order.

use crate::diff::last_n;
use crate::laws::session::{
    concat, flush_types_the_difference, no_repeats, passes_keep_sessions_well_formed,
    passes_only_append, tick_types_the_difference, ticks_do_not_repeat,
};
use crate::session::{
    blank, due, fed, flush_delta, flushed, tick_deltas, ticked, well_formed, SessionView,
    SlidingWindowConfig,
};
use crate::stream::{
    answer, delta_events, on_end, on_time, replied, reply_text, said, ActionView, EventView, Pass,
    StreamingEvent,
};
use crate::text::{join, words};
use vstd::prelude::*;

verus! {

/// What happens to a stream, with the reply that the backend gives if it is asked.
pub enum Input<T, E> {
    Chunk(Seq<T>),
    Eof { silent: bool, reply: Result<Seq<char>, E> },
    Tick { silent: bool, reply: Result<Seq<char>, E> },
    Cancelled,
}

/// A stream at some moment: the recording, what the listener has heard, and whether it is over.
pub struct Stream<T, E> {
    pub session: SessionView<T>,
    pub events: Seq<EventView<E>>,
    pub over: bool,
}

/// The stream after an action is done.
pub open spec fn done<T, E>(
    stream: Stream<T, E>,
    session: SessionView<T>,
    action: ActionView<E>,
) -> Stream<T, E> {
    match action {
        ActionView::Send(events) => Stream { session, events: stream.events + events, ..stream },
        ActionView::Close(events) => Stream {
            session,
            events: stream.events + events,
            over: true,
        },
        _ => Stream { session, ..stream },
    }
}

/// The stream after an action is done, the backend being asked where the action says so.
pub open spec fn carried_out<T, E>(
    stream: Stream<T, E>,
    action: ActionView<E>,
    reply: Result<Seq<char>, E>,
) -> Stream<T, E> {
    match action {
        ActionView::Transcribe(pass) => done(
            stream,
            replied(stream.session, pass, reply),
            answer(stream.session, pass, reply),
        ),
        _ => done(stream, stream.session, action),
    }
}

/// The stream after one more thing has happened to it. Nothing happens to one that is over.
pub open spec fn step<T, E>(stream: Stream<T, E>, input: Input<T, E>) -> Stream<T, E> {
    if stream.over {
        stream
    } else {
        match input {
            Input::Chunk(chunk) => done(stream, fed(stream.session, chunk), ActionView::Wait),
            Input::Eof { silent, reply } => carried_out(
                stream,
                on_end(stream.session, silent),
                reply,
            ),
            Input::Tick { silent, reply } => carried_out(
                stream,
                on_time(stream.session, silent),
                reply,
            ),
            Input::Cancelled => done(
                stream,
                stream.session,
                ActionView::Close(seq![EventView::Ended]),
            ),
        }
    }
}

/// The stream after all that has happened to it.
pub open spec fn streamed<T, E>(config: SlidingWindowConfig, inputs: Seq<Input<T, E>>) -> Stream<
    T,
    E,
>
    decreases inputs.len(),
{
    if inputs.len() == 0 {
        Stream { session: blank(config), events: seq![], over: false }
    } else {
        step(streamed(config, inputs.drop_last()), inputs.last())
    }
}

/// The text that an event types.
pub open spec fn event_text<E>(event: EventView<E>) -> Seq<char> {
    match event {
        EventView::Partial { text, .. } => text,
        EventView::Final { text, .. } => text,
        _ => seq![],
    }
}

/// The text that events type, one after another.
pub open spec fn typed_by<E>(events: Seq<EventView<E>>) -> Seq<char>
    decreases events.len(),
{
    if events.len() == 0 {
        seq![]
    } else {
        typed_by(events.drop_last()) + event_text(events.last())
    }
}

/// What events type comes after what the events before them typed.
proof fn lemma_typed_by_concat<E>(a: Seq<EventView<E>>, b: Seq<EventView<E>>)
    ensures
        typed_by(a + b) == typed_by(a) + typed_by(b),
    decreases b.len(),
{
    if b.len() == 0 {
        assert(a + b =~= a);
        assert(typed_by(a) + typed_by(b) =~= typed_by(a));
    } else {
        assert((a + b).drop_last() =~= a + b.drop_last());
        lemma_typed_by_concat(a, b.drop_last());
        assert(typed_by(a + b) =~= typed_by(a) + typed_by(b));
    }
}

/// The events of a tick type its deltas.
proof fn lemma_delta_events_type<E>(config: SlidingWindowConfig, deltas: Seq<Seq<char>>)
    ensures
        typed_by(delta_events::<E>(config, deltas)) == concat(deltas),
    decreases deltas.len(),
{
    if deltas.len() > 0 {
        let events = delta_events::<E>(config, deltas);
        assert(events.drop_last() =~= delta_events::<E>(config, deltas.drop_last()));
        lemma_delta_events_type::<E>(config, deltas.drop_last());
    }
}

/// What the listener types is what is committed, at every moment.
pub open spec fn faithful<T, E>(stream: Stream<T, E>) -> bool {
    typed_by(stream.events) == join(stream.session.parts)
}

/// A step keeps what is typed and what is committed together.
proof fn lemma_step_is_faithful<T, E>(stream: Stream<T, E>, input: Input<T, E>)
    requires
        faithful(stream),
    ensures
        faithful(step(stream, input)),
{
    reveal_with_fuel(typed_by, 3);
    let v = stream.session;
    let ended = seq![EventView::<E>::Ended];
    assert(ended.drop_last() =~= seq![]);
    assert(typed_by(ended) =~= seq![]);
    lemma_typed_by_concat(stream.events, ended);
    assert(typed_by(stream.events) + typed_by(ended) =~= typed_by(stream.events));
    match input {
        Input::Tick { silent, reply } => {
            match reply {
                Ok(raw) => {
                    tick_types_the_difference(v, raw);
                    let events = delta_events::<E>(v.config, tick_deltas(v, raw));
                    lemma_delta_events_type::<E>(v.config, tick_deltas(v, raw));
                    lemma_typed_by_concat(stream.events, events);
                },
                Err(e) => {
                    let events = seq![EventView::Error(e), EventView::Ended];
                    assert(events.drop_last() =~= seq![EventView::Error(e)]);
                    assert(events.drop_last().drop_last() =~= seq![]);
                    assert(typed_by(events) =~= seq![]);
                    lemma_typed_by_concat(stream.events, events);
                    assert(typed_by(stream.events) + typed_by(events) =~= typed_by(stream.events));
                },
            }
        },
        Input::Eof { silent, reply } => {
            if let Ok(raw) = reply {
                flush_types_the_difference(v, raw);
                if let Some(text) = flush_delta(v, raw) {
                    let last = EventView::<E>::Final { text, segment_id: 0 };
                    let events = seq![last, EventView::Ended];
                    assert(events.drop_last() =~= seq![last]);
                    assert(events.drop_last().drop_last() =~= seq![]);
                    assert(typed_by(events) =~= text);
                    lemma_typed_by_concat(stream.events, events);
                }
            }
        },
        _ => {},
    }
}

/// Events are deltas, never the whole transcript again: whatever happens to a stream, the texts
/// that its listener has heard, put one after another as they are, are the committed text.
pub proof fn events_spell_the_transcript<T, E>(
    config: SlidingWindowConfig,
    inputs: Seq<Input<T, E>>,
)
    ensures
        typed_by(streamed(config, inputs).events) == join(streamed(config, inputs).session.parts),
    decreases inputs.len(),
{
    if inputs.len() > 0 {
        events_spell_the_transcript(config, inputs.drop_last());
        lemma_step_is_faithful(streamed(config, inputs.drop_last()), inputs.last());
    }
}

/// Passes leave the window and the tuning as they are; only audio moves the window.
proof fn lemma_step_window<T, E>(stream: Stream<T, E>, input: Input<T, E>)
    ensures
        ({
            let v = stream.session;
            let after = step(stream, input).session;
            if !stream.over && input is Chunk {
                after == fed(v, input->Chunk_0)
            } else {
                after.buffer == v.buffer && after.sliding == v.sliding && after.config == v.config
            }
        }),
{
    let v = stream.session;
    match input {
        Input::Tick { silent, reply } => {
            if let Ok(raw) = reply {
                passes_only_append(v, raw);
            }
        },
        Input::Eof { silent, reply } => {
            if let Ok(raw) = reply {
                passes_only_append(v, raw);
            }
        },
        _ => {},
    }
}

/// The tuning of a stream does not change.
proof fn lemma_config_is_kept<T, E>(config: SlidingWindowConfig, inputs: Seq<Input<T, E>>)
    ensures
        streamed(config, inputs).session.config == config,
    decreases inputs.len(),
{
    if inputs.len() > 0 {
        lemma_config_is_kept(config, inputs.drop_last());
        lemma_step_window(streamed(config, inputs.drop_last()), inputs.last());
    }
}

/// `Ended` is the last event of a stream that is over, and comes up nowhere else.
pub open spec fn ends_once<T, E>(stream: Stream<T, E>) -> bool {
    &&& stream.over ==> stream.events.len() > 0 && stream.events.last() is Ended
    &&& forall|i: int|
        0 <= i < stream.events.len() && (#[trigger] stream.events[i]) is Ended ==> stream.over && i
            == stream.events.len() - 1
}

/// A backend's reply is answered with `Ended` as the last event and nowhere else, if the stream
/// is to stop, and without it otherwise.
proof fn lemma_answer_ends_once<T, E>(
    v: SessionView<T>,
    pass: Pass,
    reply: Result<Seq<char>, E>,
)
    ensures
        match answer(v, pass, reply) {
            ActionView::Send(events) => forall|i: int|
                0 <= i < events.len() ==> !((#[trigger] events[i]) is Ended),
            ActionView::Close(events) => events.len() > 0 && events.last() is Ended && forall|
                i: int,
            |
                0 <= i < events.len() - 1 ==> !((#[trigger] events[i]) is Ended),
            _ => false,
        },
{
}

/// A stream keeps ending once, whatever is done.
proof fn lemma_done_ends_once<T, E>(
    stream: Stream<T, E>,
    session: SessionView<T>,
    action: ActionView<E>,
)
    requires
        ends_once(stream),
        !stream.over,
        match action {
            ActionView::Send(events) => forall|i: int|
                0 <= i < events.len() ==> !((#[trigger] events[i]) is Ended),
            ActionView::Close(events) => events.len() > 0 && events.last() is Ended && forall|
                i: int,
            |
                0 <= i < events.len() - 1 ==> !((#[trigger] events[i]) is Ended),
            _ => true,
        },
    ensures
        ends_once(done(stream, session, action)),
{
    let after = done(stream, session, action);
    let n = stream.events.len();
    assert forall|i: int|
        0 <= i < after.events.len() && (#[trigger] after.events[i]) is Ended implies after.over && i
        == after.events.len() - 1 by {
        if i < n {
            assert(after.events[i] == stream.events[i]);
        } else {
            match action {
                ActionView::Send(events) => {
                    assert(after.events[i] == events[i - n]);
                },
                ActionView::Close(events) => {
                    assert(after.events[i] == events[i - n]);
                },
                _ => {},
            }
        }
    }
}

/// A stream keeps ending once, whatever happens to it.
proof fn lemma_step_ends_once<T, E>(stream: Stream<T, E>, input: Input<T, E>)
    requires
        ends_once(stream),
    ensures
        ends_once(step(stream, input)),
{
    let v = stream.session;
    if !stream.over {
        match input {
            Input::Chunk(chunk) => {
                lemma_done_ends_once(stream, fed(v, chunk), ActionView::Wait);
            },
            Input::Eof { silent, reply } => {
                if due(v, silent) {
                    lemma_answer_ends_once(v, Pass::Flush, reply);
                    lemma_done_ends_once(
                        stream,
                        replied(v, Pass::Flush, reply),
                        answer(v, Pass::Flush, reply),
                    );
                } else {
                    lemma_done_ends_once(stream, v, on_end(v, silent));
                }
            },
            Input::Tick { silent, reply } => {
                if due(v, silent) {
                    lemma_answer_ends_once(v, Pass::Tick, reply);
                    lemma_done_ends_once(
                        stream,
                        replied(v, Pass::Tick, reply),
                        answer(v, Pass::Tick, reply),
                    );
                } else {
                    lemma_done_ends_once(stream, v, on_time(v, silent));
                }
            },
            Input::Cancelled => {
                lemma_done_ends_once(stream, v, ActionView::Close(seq![EventView::Ended]));
            },
        }
    }
}

/// A stream that is over has said so, once, as the last thing; one that is not has not.
pub proof fn ended_comes_once_and_last<T, E>(config: SlidingWindowConfig, inputs: Seq<Input<T, E>>)
    ensures
        ends_once(streamed(config, inputs)),
    decreases inputs.len(),
{
    if inputs.len() > 0 {
        ended_comes_once_and_last(config, inputs.drop_last());
        lemma_step_ends_once(streamed(config, inputs.drop_last()), inputs.last());
    }
}

/// Every delta goes out as the tuning says: with live typing, `Final` is only the tail at the
/// end, right before `Ended`; without it, there is no `Partial` at all. All text belongs to
/// segment 0.
pub open spec fn typed_as_tuned<T, E>(stream: Stream<T, E>) -> bool {
    forall|i: int|
        0 <= i < stream.events.len() ==> match #[trigger] stream.events[i] {
            EventView::Partial { segment_id, .. } => stream.session.config.type_partials
                && segment_id == 0,
            EventView::Final { segment_id, .. } => segment_id == 0 && (
            stream.session.config.type_partials ==> stream.over && i == stream.events.len() - 2),
            _ => true,
        }
}

/// A step that adds `more` to what was heard keeps to the tuning if `more` does.
proof fn lemma_more_as_tuned<T, E>(
    before: Stream<T, E>,
    after: Stream<T, E>,
    more: Seq<EventView<E>>,
)
    requires
        !before.over,
        typed_as_tuned(before),
        after.session.config == before.session.config,
        after.events == before.events + more,
        forall|i: int|
            0 <= i < more.len() ==> match #[trigger] more[i] {
                EventView::Partial { segment_id, .. } => before.session.config.type_partials
                    && segment_id == 0,
                EventView::Final { segment_id, .. } => segment_id == 0 && (
                before.session.config.type_partials ==> after.over && i == more.len() - 2),
                _ => true,
            },
    ensures
        typed_as_tuned(after),
{
    assert forall|i: int| 0 <= i < after.events.len() implies match #[trigger] after.events[i] {
        EventView::Partial { segment_id, .. } => after.session.config.type_partials && segment_id
            == 0,
        EventView::Final { segment_id, .. } => segment_id == 0 && (
        after.session.config.type_partials ==> after.over && i == after.events.len() - 2),
        _ => true,
    } by {
        if i < before.events.len() {
            assert(after.events[i] == before.events[i]);
        } else {
            assert(after.events[i] == more[i - before.events.len()]);
        }
    }
}

/// What an action says.
spec fn action_events<E>(action: ActionView<E>) -> Seq<EventView<E>> {
    match action {
        ActionView::Send(events) => events,
        ActionView::Close(events) => events,
        _ => seq![],
    }
}

/// Carrying out an action keeps to the tuning.
proof fn lemma_done_as_tuned<T, E>(
    stream: Stream<T, E>,
    session: SessionView<T>,
    action: ActionView<E>,
)
    requires
        !stream.over,
        typed_as_tuned(stream),
        session.config == stream.session.config,
        forall|i: int|
            0 <= i < action_events(action).len() ==> match #[trigger] action_events(action)[i] {
                EventView::Partial { segment_id, .. } => stream.session.config.type_partials
                    && segment_id == 0,
                EventView::Final { segment_id, .. } => segment_id == 0 && (
                stream.session.config.type_partials ==> action is Close && i == action_events(
                    action,
                ).len() - 2),
                _ => true,
            },
    ensures
        typed_as_tuned(done(stream, session, action)),
{
    let after = done(stream, session, action);
    assert(after.events =~= stream.events + action_events(action));
    lemma_more_as_tuned(stream, after, action_events(action));
}

/// Deltas are `Partial` with live typing and `Final` without it.
pub proof fn deltas_go_out_as_tuned<T, E>(config: SlidingWindowConfig, inputs: Seq<Input<T, E>>)
    ensures
        streamed(config, inputs).session.config == config,
        typed_as_tuned(streamed(config, inputs)),
    decreases inputs.len(),
{
    lemma_config_is_kept(config, inputs);
    if inputs.len() > 0 {
        let stream = streamed(config, inputs.drop_last());
        deltas_go_out_as_tuned(config, inputs.drop_last());
        if !stream.over {
            let v = stream.session;
            let end = ActionView::<E>::Close(seq![EventView::Ended]);
            lemma_done_as_tuned(stream, v, end);
            match inputs.last() {
                Input::Tick { silent, reply } if due(v, silent) => {
                    lemma_done_as_tuned(
                        stream,
                        replied(v, Pass::Tick, reply),
                        answer(v, Pass::Tick, reply),
                    );
                },
                Input::Eof { silent, reply } if due(v, silent) => {
                    lemma_done_as_tuned(
                        stream,
                        replied(v, Pass::Flush, reply),
                        answer(v, Pass::Flush, reply),
                    );
                },
                _ => {},
            }
        }
    }
}

/// The audio that came in before the stream was over.
pub open spec fn audio<T, E>(config: SlidingWindowConfig, inputs: Seq<Input<T, E>>) -> Seq<T>
    decreases inputs.len(),
{
    if inputs.len() == 0 {
        seq![]
    } else {
        let before = audio(config, inputs.drop_last());
        match inputs.last() {
            Input::Chunk(chunk) => if streamed(config, inputs.drop_last()).over {
                before
            } else {
                before + chunk
            },
            _ => before,
        }
    }
}

/// The window holds the latest audio, as much of it as it may, and slides from the moment on at
/// which there was more.
pub proof fn window_holds_the_latest_audio<T, E>(
    config: SlidingWindowConfig,
    inputs: Seq<Input<T, E>>,
)
    ensures
        streamed(config, inputs).session.buffer == last_n(
            audio(config, inputs),
            config.max_samples as nat,
        ),
        streamed(config, inputs).session.sliding == (audio(config, inputs).len()
            > config.max_samples),
    decreases inputs.len(),
{
    lemma_config_is_kept(config, inputs);
    if inputs.len() > 0 {
        let before = inputs.drop_last();
        window_holds_the_latest_audio(config, before);
        lemma_config_is_kept(config, before);
        lemma_step_window(streamed(config, before), inputs.last());
        let max = config.max_samples as nat;
        if let Input::Chunk(chunk) = inputs.last() {
            let all = audio(config, before);
            assert(last_n(last_n(all, max) + chunk, max) =~= last_n(all + chunk, max));
        }
    }
}

/// Until a stream is over, every text that it has committed says something, and none repeats
/// the one before it.
pub proof fn running_streams_do_not_repeat<T, E>(
    config: SlidingWindowConfig,
    inputs: Seq<Input<T, E>>,
)
    requires
        !streamed(config, inputs).over,
    ensures
        no_repeats(streamed(config, inputs).session.parts),
    decreases inputs.len(),
{
    if inputs.len() > 0 {
        running_streams_do_not_repeat(config, inputs.drop_last());
        if let Input::Tick { silent, reply } = inputs.last() {
            if let Ok(raw) = reply {
                ticks_do_not_repeat(streamed(config, inputs.drop_last()).session, raw);
            }
        }
    }
}

/// What holds of every recording holds at every moment of a stream.
pub proof fn sessions_are_well_formed<T, E>(config: SlidingWindowConfig, inputs: Seq<Input<T, E>>)
    ensures
        well_formed(streamed(config, inputs).session),
    decreases inputs.len(),
{
    if inputs.len() == 0 {
        assert(words(streamed(config, inputs).session.prev_whisper) =~= seq![]);
    } else {
        sessions_are_well_formed(config, inputs.drop_last());
        let v = streamed(config, inputs.drop_last()).session;
        match inputs.last() {
            Input::Tick { silent, reply } => {
                if let Ok(raw) = reply {
                    passes_keep_sessions_well_formed(v, raw);
                }
            },
            Input::Eof { silent, reply } => {
                if let Ok(raw) = reply {
                    passes_keep_sessions_well_formed(v, raw);
                }
            },
            _ => {},
        }
    }
}

/// All audio is silence.
pub open spec fn silence<T, E>(input: Input<T, E>) -> bool {
    match input {
        Input::Tick { silent, .. } => silent,
        Input::Eof { silent, .. } => silent,
        _ => true,
    }
}

/// Silence is not transcribed: a stream that hears nothing else says nothing but that it is
/// over, whatever the backend would have replied.
pub proof fn silence_says_nothing<T, E>(config: SlidingWindowConfig, inputs: Seq<Input<T, E>>)
    requires
        forall|i: int| 0 <= i < inputs.len() ==> silence(#[trigger] inputs[i]),
    ensures
        streamed(config, inputs).session.parts.len() == 0,
        streamed(config, inputs).events == if streamed(config, inputs).over {
            seq![EventView::<E>::Ended]
        } else {
            seq![]
        },
    decreases inputs.len(),
{
    if inputs.len() > 0 {
        let before = inputs.drop_last();
        assert forall|i: int| 0 <= i < before.len() implies silence(#[trigger] before[i]) by {
            assert(silence(inputs[i]));
        }
        silence_says_nothing(config, before);
        assert(silence(inputs[inputs.len() - 1]));
        assert(streamed(config, inputs).events =~= if streamed(config, inputs).over {
            seq![EventView::<E>::Ended]
        } else {
            seq![]
        });
    }
}

/// Cancelling ends a stream at once: `Ended` follows and nothing is flushed.
pub proof fn cancelling_flushes_nothing<T, E>(stream: Stream<T, E>)
    requires
        !stream.over,
    ensures
        step(stream, Input::Cancelled).over,
        step(stream, Input::Cancelled).events == stream.events.push(EventView::Ended),
        step(stream, Input::Cancelled).session == stream.session,
{
    assert(stream.events + seq![EventView::<E>::Ended] =~= stream.events.push(EventView::Ended));
}

/// A backend that fails ends the stream: the error goes out, then `Ended`, and what was
/// committed stays. At the end of the recording its failure costs only the tail.
pub proof fn failure_ends_the_stream<T, E>(stream: Stream<T, E>, silent: bool, e: E)
    requires
        !stream.over,
        due(stream.session, silent),
    ensures
        ({
            let after = step(stream, Input::Tick { silent, reply: Err(e) });
            &&& after.over
            &&& after.events == stream.events.push(EventView::Error(e)).push(EventView::Ended)
            &&& after.session == stream.session
        }),
        ({
            let after = step(stream, Input::Eof { silent, reply: Err(e) });
            &&& after.over
            &&& after.events == stream.events.push(EventView::Ended)
            &&& after.session == stream.session
        }),
{
    assert(stream.events + seq![EventView::Error(e), EventView::Ended] =~= stream.events.push(
        EventView::Error(e),
    ).push(EventView::Ended));
    assert(stream.events + seq![EventView::<E>::Ended] =~= stream.events.push(EventView::Ended));
}

/// The end of the recording ends the stream, whatever the backend replies.
pub proof fn end_of_recording_ends_the_stream<T, E>(
    stream: Stream<T, E>,
    silent: bool,
    reply: Result<Seq<char>, E>,
)
    ensures
        step(stream, Input::Eof { silent, reply }).over,
{
}

/// A tick asks for a pass, and the end of a recording for the last pass, if and only if enough
/// audio is in the window and it is not silent. Nothing else about the recording matters, whether
/// the window slides or not.
pub proof fn passes_are_asked_for<T, E>(v: SessionView<T>, silent: bool)
    ensures
        v.buffer.len() >= v.config.min_samples && !silent ==> on_time::<T, E>(v, silent)
            == ActionView::<E>::Transcribe(Pass::Tick) && on_end::<T, E>(v, silent)
            == ActionView::<E>::Transcribe(Pass::Flush),
        v.buffer.len() < v.config.min_samples || silent ==> on_time::<T, E>(v, silent)
            == ActionView::<E>::Wait && on_end::<T, E>(v, silent) == ActionView::<E>::Close(
            seq![EventView::Ended],
        ),
        due(v, silent) <==> v.buffer.len() >= v.config.min_samples && !silent,
{
}

/// Once a stream has heard enough audio, the backend is asked at every tick and at the end, if
/// the window is not silent, however long the recording has become; before that, or in silence, a
/// tick does nothing and the end only ends the stream.
pub proof fn enough_audio_is_transcribed<T, E>(
    config: SlidingWindowConfig,
    inputs: Seq<Input<T, E>>,
    silent: bool,
    reply: Result<Seq<char>, E>,
)
    requires
        config.min_samples <= config.max_samples,
        !streamed(config, inputs).over,
    ensures
        ({
            let s = streamed(config, inputs);
            let tick = step(s, Input::Tick { silent, reply });
            let end = step(s, Input::Eof { silent, reply });
            if audio(config, inputs).len() >= config.min_samples && !silent {
                &&& tick == done(
                    s,
                    replied(s.session, Pass::Tick, reply),
                    answer(s.session, Pass::Tick, reply),
                )
                &&& end == done(
                    s,
                    replied(s.session, Pass::Flush, reply),
                    answer(s.session, Pass::Flush, reply),
                )
            } else {
                &&& tick == s
                &&& end == (Stream {
                    events: s.events.push(EventView::Ended),
                    over: true,
                    ..s
                })
            }
        }),
{
    let s = streamed(config, inputs);
    window_holds_the_latest_audio(config, inputs);
    lemma_config_is_kept(config, inputs);
    passes_are_asked_for::<T, E>(s.session, silent);
    assert(s.events + seq![EventView::<E>::Ended] =~= s.events.push(EventView::Ended));
}

/// What becomes of a backend's reply: each delta of a tick goes out as one event, in order, and
/// the stream goes on; what the last pass types goes out as final, and then the stream ends. A
/// failing tick is reported before the stream ends; a failing last pass only ends it.
pub proof fn replies_become_events<T, E>(v: SessionView<T>, raw: Seq<char>, e: E)
    ensures
        replied::<T, E>(v, Pass::Tick, Ok(raw)) == ticked(v, raw),
        replied::<T, E>(v, Pass::Flush, Ok(raw)) == flushed(v, raw),
        replied(v, Pass::Tick, Err(e)) == v,
        replied(v, Pass::Flush, Err(e)) == v,
        ({
            let deltas = tick_deltas(v, raw);
            let action = answer::<T, E>(v, Pass::Tick, Ok(raw));
            &&& action is Send
            &&& action->Send_0.len() == deltas.len()
            &&& forall|i: int|
                0 <= i < deltas.len() ==> #[trigger] action->Send_0[i]
                    == if v.config.type_partials {
                    EventView::<E>::Partial { text: deltas[i], segment_id: 0 }
                } else {
                    EventView::<E>::Final { text: deltas[i], segment_id: 0 }
                }
        }),
        answer(v, Pass::Tick, Err(e)) == ActionView::Close(
            seq![EventView::Error(e), EventView::Ended],
        ),
        flush_delta(v, raw) is Some ==> answer::<T, E>(v, Pass::Flush, Ok(raw))
            == ActionView::<E>::Close(
            seq![
                EventView::Final { text: flush_delta(v, raw)->0, segment_id: 0 },
                EventView::Ended,
            ],
        ),
        flush_delta(v, raw) is None ==> answer::<T, E>(v, Pass::Flush, Ok(raw))
            == ActionView::<E>::Close(seq![EventView::Ended]),
        answer(v, Pass::Flush, Err(e)) == ActionView::<E>::Close(seq![EventView::Ended]),
{
}

/// Events and replies say what they hold.
pub proof fn events_say_what_they_hold<E>(
    events: Seq<StreamingEvent<E>>,
    i: int,
    text: String,
    e: E,
)
    requires
        0 <= i < events.len(),
    ensures
        said(events).len() == events.len(),
        events[i] matches StreamingEvent::Partial { text: t, segment_id: id } ==> said(events)[i]
            == (EventView::<E>::Partial { text: t@, segment_id: id }),
        events[i] matches StreamingEvent::Final { text: t, segment_id: id } ==> said(events)[i]
            == (EventView::<E>::Final { text: t@, segment_id: id }),
        events[i] matches StreamingEvent::Error(x) ==> said(events)[i] == EventView::<E>::Error(x),
        events[i] is Ended ==> said(events)[i] == EventView::<E>::Ended,
        reply_text::<E>(Ok(text)) == Ok::<Seq<char>, E>(text@),
        reply_text::<E>(Err(e)) == Err::<Seq<char>, E>(e),
{
}

/// At every moment the window is no longer than it may be, and full once it slides; every
/// committed text says something; and the words of the last transcript are those of that
/// transcript.
pub proof fn recordings_stay_in_shape<T, E>(config: SlidingWindowConfig, inputs: Seq<Input<T, E>>)
    ensures
        ({
            let v = streamed(config, inputs).session;
            &&& v.config == config
            &&& v.buffer.len() <= config.max_samples
            &&& v.sliding ==> v.buffer.len() == config.max_samples
            &&& forall|i: int| 0 <= i < v.parts.len() ==> (#[trigger] v.parts[i]).len() > 0
            &&& v.last_words == words(v.prev_whisper)
            &&& !v.sliding ==> v.last_delta_words.len() == 0
        }),
{
    sessions_are_well_formed(config, inputs);
    lemma_config_is_kept(config, inputs);
}

} // verus!
