//! What a stream does with each thing that happens to it.
//!
//! The engine is told what happened and answers with what is to be done. Waiting, running the
//! speech model and handing out the events are left to its caller.

use crate::session::{
    blank, due, fed, flush_delta, flushed, tick_deltas, ticked, well_formed, Session, SessionView,
    SlidingWindowConfig,
};
use crate::text::texts;
use vstd::prelude::*;

verus! {

/// What a stream tells its listener.
#[derive(Debug)]
pub enum StreamingEvent<E> {
    /// Text to type live at the cursor.
    Partial { text: String, segment_id: u64 },
    /// Text that is only committed.
    Final { text: String, segment_id: u64 },
    /// The backend failed.
    Error(E),
    /// The stream is over. Nothing comes after this.
    Ended,
}

/// What a [`StreamingEvent`] says.
pub enum EventView<E> {
    Partial { text: Seq<char>, segment_id: u64 },
    Final { text: Seq<char>, segment_id: u64 },
    Error(E),
    Ended,
}

impl<E> View for StreamingEvent<E> {
    type V = EventView<E>;

    open spec fn view(&self) -> EventView<E> {
        match *self {
            StreamingEvent::Partial { text, segment_id } => EventView::Partial {
                text: text@,
                segment_id,
            },
            StreamingEvent::Final { text, segment_id } => EventView::Final {
                text: text@,
                segment_id,
            },
            StreamingEvent::Error(e) => EventView::Error(e),
            StreamingEvent::Ended => EventView::Ended,
        }
    }
}

/// What a list of events says.
pub open spec fn said<E>(events: Seq<StreamingEvent<E>>) -> Seq<EventView<E>> {
    Seq::new(events.len(), |i: int| events[i]@)
}

/// What happens to a stream. Where it is said to be `silent`, the energy of the audio in the
/// window is below that of speech.
#[derive(Debug)]
pub enum Outcome<T> {
    /// Audio came in.
    Chunk(Vec<T>),
    /// The recording is over.
    Eof { silent: bool },
    /// It is time for another pass.
    Tick { silent: bool },
    /// The stream is to stop at once.
    Cancelled,
}

/// Why a pass over the buffer is made.
#[derive(Debug, Clone, Copy, PartialEq, Eq, Structural)]
pub enum Pass {
    /// To commit what has become stable.
    Tick,
    /// To commit what remains at the end.
    Flush,
}

/// What is to be done next.
#[derive(Debug)]
pub enum Action<E> {
    /// Wait for the next thing to happen.
    Wait,
    /// Have the buffer transcribed, and report the backend's reply.
    Transcribe(Pass),
    /// Send the events, then wait.
    Send(Vec<StreamingEvent<E>>),
    /// Send the events, then stop.
    Close(Vec<StreamingEvent<E>>),
}

/// What an [`Action`] says.
pub enum ActionView<E> {
    Wait,
    Transcribe(Pass),
    Send(Seq<EventView<E>>),
    Close(Seq<EventView<E>>),
}

impl<E> View for Action<E> {
    type V = ActionView<E>;

    open spec fn view(&self) -> ActionView<E> {
        match *self {
            Action::Wait => ActionView::Wait,
            Action::Transcribe(pass) => ActionView::Transcribe(pass),
            Action::Send(events) => ActionView::Send(said(events@)),
            Action::Close(events) => ActionView::Close(said(events@)),
        }
    }
}

/// The event that a delta goes out as.
pub open spec fn delta_event<E>(config: SlidingWindowConfig, text: Seq<char>) -> EventView<E> {
    if config.type_partials {
        EventView::Partial { text, segment_id: 0 }
    } else {
        EventView::Final { text, segment_id: 0 }
    }
}

/// What is done when the time for a pass has come.
pub open spec fn on_time<T, E>(v: SessionView<T>, silent: bool) -> ActionView<E> {
    if due(v, silent) {
        ActionView::Transcribe(Pass::Tick)
    } else {
        ActionView::Wait
    }
}

/// What is done when the recording is over.
pub open spec fn on_end<T, E>(v: SessionView<T>, silent: bool) -> ActionView<E> {
    if due(v, silent) {
        ActionView::Transcribe(Pass::Flush)
    } else {
        ActionView::Close(seq![EventView::Ended])
    }
}

/// The recording after a backend's reply.
pub open spec fn replied<T, E>(
    v: SessionView<T>,
    pass: Pass,
    reply: Result<Seq<char>, E>,
) -> SessionView<T> {
    match (pass, reply) {
        (Pass::Tick, Ok(raw)) => ticked(v, raw),
        (Pass::Flush, Ok(raw)) => flushed(v, raw),
        _ => v,
    }
}

/// The deltas of a tick as events.
pub open spec fn delta_events<E>(config: SlidingWindowConfig, deltas: Seq<Seq<char>>) -> Seq<
    EventView<E>,
> {
    Seq::new(deltas.len(), |i: int| delta_event(config, deltas[i]))
}

/// What is done after a backend's reply.
pub open spec fn answer<T, E>(
    v: SessionView<T>,
    pass: Pass,
    reply: Result<Seq<char>, E>,
) -> ActionView<E> {
    match (pass, reply) {
        (Pass::Tick, Ok(raw)) => ActionView::Send(delta_events(v.config, tick_deltas(v, raw))),
        (Pass::Tick, Err(e)) => ActionView::Close(seq![EventView::Error(e), EventView::Ended]),
        (Pass::Flush, Ok(raw)) => match flush_delta(v, raw) {
            Some(text) => ActionView::Close(
                seq![EventView::Final { text, segment_id: 0 }, EventView::Ended],
            ),
            None => ActionView::Close(seq![EventView::Ended]),
        },
        (Pass::Flush, Err(_)) => ActionView::Close(seq![EventView::Ended]),
    }
}

/// What a reply says.
pub open spec fn reply_text<E>(reply: Result<String, E>) -> Result<Seq<char>, E> {
    match reply {
        Ok(text) => Ok(text@),
        Err(e) => Err(e),
    }
}

/// The one event that says that the stream is over.
fn ended<E>() -> (res: Vec<StreamingEvent<E>>)
    ensures
        said(res@) == seq![EventView::<E>::Ended],
{
    let mut events: Vec<StreamingEvent<E>> = Vec::new();
    events.push(StreamingEvent::Ended);
    assert(said(events@) =~= seq![EventView::<E>::Ended]);
    events
}

impl<T: Copy> Session<T> {
    /// Takes note of what happened, and says what is to be done.
    pub fn on_outcome<E>(&mut self, outcome: Outcome<T>) -> (res: Action<E>)
        ensures
            match outcome {
                Outcome::Chunk(chunk) => {
                    &&& res@ == ActionView::<E>::Wait
                    &&& final(self)@ == fed(old(self)@, chunk@)
                },
                Outcome::Eof { silent } => {
                    &&& res@ == on_end::<T, E>(old(self)@, silent)
                    &&& final(self)@ == old(self)@
                },
                Outcome::Tick { silent } => {
                    &&& res@ == on_time::<T, E>(old(self)@, silent)
                    &&& final(self)@ == old(self)@
                },
                Outcome::Cancelled => {
                    &&& res@ == ActionView::<E>::Close(seq![EventView::Ended])
                    &&& final(self)@ == old(self)@
                },
            },
            well_formed(old(self)@) ==> well_formed(final(self)@),
    {
        match outcome {
            Outcome::Chunk(chunk) => {
                self.feed(chunk.as_slice());
                Action::Wait
            },
            Outcome::Eof { silent } => {
                if self.transcription_due(silent) {
                    Action::Transcribe(Pass::Flush)
                } else {
                    Action::Close(ended())
                }
            },
            Outcome::Tick { silent } => {
                if self.transcription_due(silent) {
                    Action::Transcribe(Pass::Tick)
                } else {
                    Action::Wait
                }
            },
            Outcome::Cancelled => Action::Close(ended()),
        }
    }
}

impl<T> Session<T> {
    /// Takes note of the backend's reply, and says what is to be done.
    pub fn on_reply<E>(&mut self, pass: Pass, reply: Result<String, E>) -> (res: Action<E>)
        ensures
            res@ == answer(old(self)@, pass, reply_text(reply)),
            final(self)@ == replied(old(self)@, pass, reply_text(reply)),
            well_formed(old(self)@) ==> well_formed(final(self)@),
    {
        match pass {
            Pass::Tick => match self.on_tick(reply) {
                Ok(deltas) => {
                    let type_partials = self.config().type_partials;
                    let ghost config = self@.config;
                    let mut events: Vec<StreamingEvent<E>> = Vec::new();
                    let mut i: usize = 0;
                    while i < deltas.len()
                        invariant
                            i <= deltas@.len(),
                            type_partials == config.type_partials,
                            said(events@) == delta_events::<E>(
                                config,
                                texts(deltas@).take(i as int),
                            ),
                        decreases deltas@.len() - i,
                    {
                        let text = deltas[i].clone();
                        let event = if type_partials {
                            StreamingEvent::Partial { text, segment_id: 0 }
                        } else {
                            StreamingEvent::Final { text, segment_id: 0 }
                        };
                        assert(said(events@.push(event)) =~= said(events@).push(event@));
                        assert(delta_events::<E>(config, texts(deltas@).take(i + 1))
                            =~= delta_events::<E>(config, texts(deltas@).take(i as int)).push(
                            event@,
                        ));
                        events.push(event);
                        i += 1;
                    }
                    assert(texts(deltas@).take(i as int) =~= texts(deltas@));
                    Action::Send(events)
                },
                Err(e) => {
                    let mut events: Vec<StreamingEvent<E>> = Vec::new();
                    events.push(StreamingEvent::Error(e));
                    events.push(StreamingEvent::Ended);
                    assert(said(events@) =~= seq![EventView::Error(e), EventView::Ended]);
                    Action::Close(events)
                },
            },
            Pass::Flush => match self.final_flush(reply) {
                Some(text) => {
                    let mut events: Vec<StreamingEvent<E>> = Vec::new();
                    events.push(StreamingEvent::Final { text, segment_id: 0 });
                    events.push(StreamingEvent::Ended);
                    assert(said(events@) =~= seq![
                        EventView::Final { text: text@, segment_id: 0 },
                        EventView::Ended,
                    ]);
                    Action::Close(events)
                },
                None => Action::Close(ended()),
            },
        }
    }
}

/// The sliding-window engine around a batch backend of type `B`.
pub struct SlidingWindowStreamingTranscriber<B> {
    pub base: B,
    pub config: SlidingWindowConfig,
}

impl<B> SlidingWindowStreamingTranscriber<B> {
    /// Wraps `base` in the sliding-window engine.
    pub fn new(base: B, config: SlidingWindowConfig) -> (res: Self)
        ensures
            res.base == base,
            res.config == config,
    {
        SlidingWindowStreamingTranscriber { base, config }
    }

    /// The state in which a stream begins.
    pub fn start_session<T>(&self) -> (res: Session<T>)
        ensures
            res@ == blank::<T>(self.config),
            well_formed(res@),
    {
        Session::new(self.config)
    }
}

} // verus!
