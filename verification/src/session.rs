//! The state of one recording, and what each pass over it commits.

use crate::diff::{
    certain_news, common_prefix, common_prefix_len, dedupe_against_emitted, extract_new_text,
    extract_new_text_confident, fresh, last_n, last_n_words, lemma_common_prefix_bounds, lookback,
    news, text_of, SLIDING_DIFF_LOOKBACK_WORDS,
};
use crate::filter::{hallucinated, is_hallucination};
use crate::laws::session::passes_keep_sessions_well_formed;
use crate::text::{
    all_solid, join, join_all, join_range, split_words, texts, trim, trimmed_from, words,
};
use vstd::prelude::*;

verus! {

/// Tuning knobs of the sliding-window engine. Lengths of audio are counted in samples.
#[derive(Debug, Clone, Copy, PartialEq, Eq, Structural)]
pub struct SlidingWindowConfig {
    /// How much audio is kept. Once there is more, the window slides: old samples are dropped.
    pub max_samples: usize,
    /// How much audio must be there before it is transcribed.
    pub min_samples: usize,
    /// How many new stable words it takes to commit them.
    pub partial_min_words: usize,
    /// Whether committed text goes out as `Partial`, typed live at the cursor, or as `Final`.
    pub type_partials: bool,
}

impl Default for SlidingWindowConfig {
    /// Twenty-nine seconds of audio at 16 kHz, transcribed from one second on; two words at a
    /// time, typed live.
    fn default() -> (res: Self)
        ensures
            res.max_samples == 29 * 16_000,
            res.min_samples == 16_000,
            res.partial_min_words == 2,
            res.type_partials,
    {
        SlidingWindowConfig {
            max_samples: 464_000,
            min_samples: 16_000,
            partial_min_words: 2,
            type_partials: true,
        }
    }
}

/// What a [`Session`] holds.
pub struct SessionView<T> {
    pub config: SlidingWindowConfig,
    /// The audio in the window.
    pub buffer: Seq<T>,
    /// Audio has been dropped from the window.
    pub sliding: bool,
    /// The committed texts, in the order in which they went out.
    pub parts: Seq<Seq<char>>,
    /// The last transcript.
    pub prev_whisper: Seq<char>,
    /// The words of the last transcript.
    pub last_words: Seq<Seq<char>>,
    /// The words that were committed while the buffer was growing.
    pub confirmed_words: Seq<Seq<char>>,
    /// The words that the last pass in a sliding window found to be new and did not commit.
    pub last_delta_words: Seq<Seq<char>>,
}

/// The state of one recording. `T` is the type of an audio sample.
pub struct Session<T> {
    config: SlidingWindowConfig,
    buffer: Vec<T>,
    sliding: bool,
    full_text_parts: Vec<String>,
    prev_whisper: String,
    last_words: Vec<String>,
    confirmed_words: Vec<String>,
    last_delta_words: Vec<String>,
}

impl<T> View for Session<T> {
    type V = SessionView<T>;

    closed spec fn view(&self) -> SessionView<T> {
        SessionView {
            config: self.config,
            buffer: self.buffer@,
            sliding: self.sliding,
            parts: texts(self.full_text_parts@),
            prev_whisper: self.prev_whisper@,
            last_words: texts(self.last_words@),
            confirmed_words: texts(self.confirmed_words@),
            last_delta_words: texts(self.last_delta_words@),
        }
    }
}

/// What holds of every recording: the window is no longer than it may be, and full once it
/// slides; every committed text says something; the word lists hold words; and nothing is
/// pending before the window slides.
pub open spec fn well_formed<T>(v: SessionView<T>) -> bool {
    &&& v.buffer.len() <= v.config.max_samples
    &&& v.sliding ==> v.buffer.len() == v.config.max_samples
    &&& forall|i: int| 0 <= i < v.parts.len() ==> (#[trigger] v.parts[i]).len() > 0
    &&& v.last_words == words(v.prev_whisper)
    &&& all_solid(v.confirmed_words)
    &&& all_solid(v.last_delta_words)
    &&& !v.sliding ==> v.last_delta_words.len() == 0
}

/// A recording of which nothing has been heard.
pub open spec fn blank<T>(config: SlidingWindowConfig) -> SessionView<T> {
    SessionView {
        config,
        buffer: seq![],
        sliding: false,
        parts: seq![],
        prev_whisper: seq![],
        last_words: seq![],
        confirmed_words: seq![],
        last_delta_words: seq![],
    }
}

/// The recording after more audio has come in.
pub open spec fn fed<T>(v: SessionView<T>, samples: Seq<T>) -> SessionView<T> {
    SessionView {
        buffer: last_n(v.buffer + samples, v.config.max_samples as nat),
        sliding: v.sliding || v.buffer.len() + samples.len() > v.config.max_samples,
        ..v
    }
}

/// There is enough audio to transcribe, and it is not silence.
pub open spec fn due<T>(v: SessionView<T>, silent: bool) -> bool {
    v.buffer.len() >= v.config.min_samples && !silent
}

/// What of a transcript is worth looking at: it without the white space around it, unless
/// nothing is left or silence brought it forth.
pub open spec fn accepted(raw: Seq<char>) -> Option<Seq<char>> {
    let text = trim(raw);
    if text.len() == 0 || hallucinated(text) {
        None
    } else {
        Some(text)
    }
}

/// What is committed of a candidate: what of it does not restate the end of the committed text,
/// unless that is nothing or the very text that was committed last.
pub open spec fn commit(parts: Seq<Seq<char>>, candidate: Seq<char>) -> Option<Seq<char>> {
    let new = fresh(join(parts), candidate);
    if new.len() == 0 || (parts.len() > 0 && parts.last() == new) {
        None
    } else {
        Some(new)
    }
}

/// What is typed for a newly committed text: a space comes first, unless it is the first text.
pub open spec fn typed(parts: Seq<Seq<char>>, new: Seq<char>) -> Seq<char> {
    if parts.len() == 0 {
        new
    } else {
        seq![' '] + new
    }
}

/// The words of a transcript that are certain to come after the committed text.
pub open spec fn pending(parts: Seq<Seq<char>>, curr: Seq<char>) -> Seq<Seq<char>> {
    match certain_news(lookback(join(parts)), curr) {
        Some(text) => words(text),
        None => seq![],
    }
}

/// The words that a pass in a sliding window would commit: those pending words that were
/// pending in the pass before too.
pub open spec fn sliding_candidate<T>(v: SessionView<T>, curr: Seq<char>) -> Option<Seq<
    Seq<char>,
>> {
    let delta = pending(v.parts, curr);
    let stable = common_prefix(v.last_delta_words, delta);
    if v.last_delta_words.len() > 0 && delta.len() > 0 && stable >= v.config.partial_min_words {
        Some(delta.take(stable as int))
    } else {
        None
    }
}

/// The words that a pass over a growing buffer would commit: those that the transcript shares
/// with the one before, after the words that are confirmed already.
pub open spec fn growing_candidate<T>(v: SessionView<T>, curr: Seq<char>) -> Option<Seq<
    Seq<char>,
>> {
    let stable = common_prefix(v.last_words, words(curr));
    let known = v.confirmed_words.len();
    if v.last_words.len() > 0 && stable > known && stable - known >= v.config.partial_min_words {
        Some(words(curr).subrange(known as int, stable as int))
    } else {
        None
    }
}

/// The words that a pass would commit.
pub open spec fn candidate<T>(v: SessionView<T>, curr: Seq<char>) -> Option<Seq<Seq<char>>> {
    if v.sliding {
        sliding_candidate(v, curr)
    } else {
        growing_candidate(v, curr)
    }
}

/// The text that a pass commits.
pub open spec fn committed<T>(v: SessionView<T>, curr: Seq<char>) -> Option<Seq<char>> {
    match candidate(v, curr) {
        Some(ws) => commit(v.parts, join(ws)),
        None => None,
    }
}

/// The recording after a pass that gave the transcript `curr`.
pub open spec fn advanced<T>(v: SessionView<T>, curr: Seq<char>) -> SessionView<T> {
    let parts = match committed(v, curr) {
        Some(new) => v.parts.push(new),
        None => v.parts,
    };
    SessionView {
        parts,
        prev_whisper: curr,
        last_words: words(curr),
        confirmed_words: if !v.sliding && committed(v, curr) is Some {
            v.confirmed_words + candidate(v, curr)->0
        } else {
            v.confirmed_words
        },
        last_delta_words: if v.sliding {
            pending(parts, curr)
        } else {
            v.last_delta_words
        },
        ..v
    }
}

/// The recording after a tick whose pass gave the transcript `raw`.
pub open spec fn ticked<T>(v: SessionView<T>, raw: Seq<char>) -> SessionView<T> {
    match accepted(raw) {
        Some(curr) => advanced(v, curr),
        None => v,
    }
}

/// What is typed after a tick whose pass gave the transcript `raw`: one delta or none.
pub open spec fn tick_deltas<T>(v: SessionView<T>, raw: Seq<char>) -> Seq<Seq<char>> {
    match accepted(raw) {
        Some(curr) => match committed(v, curr) {
            Some(new) => seq![typed(v.parts, new)],
            None => seq![],
        },
        None => seq![],
    }
}

/// The text that the last pass commits, if it gave the transcript `raw`.
pub open spec fn remainder<T>(v: SessionView<T>, raw: Seq<char>) -> Option<Seq<char>> {
    match accepted(raw) {
        Some(text) => {
            let emitted = join(v.parts);
            let new = fresh(emitted, trim(news(lookback(emitted), text)));
            if new.len() == 0 {
                None
            } else {
                Some(new)
            }
        },
        None => None,
    }
}

/// The recording after the last pass.
pub open spec fn flushed<T>(v: SessionView<T>, raw: Seq<char>) -> SessionView<T> {
    match remainder(v, raw) {
        Some(new) => SessionView { parts: v.parts.push(new), ..v },
        None => v,
    }
}

/// What is typed after the last pass.
pub open spec fn flush_delta<T>(v: SessionView<T>, raw: Seq<char>) -> Option<Seq<char>> {
    match remainder(v, raw) {
        Some(new) => Some(typed(v.parts, new)),
        None => None,
    }
}

/// What of a backend's reply is worth looking at. Nothing is, where the transcript is empty or
/// one of the phrases that silence brings forth.
pub fn transcribe_buffer<E>(reply: Result<String, E>) -> (res: Result<Option<String>, E>)
    ensures
        match reply {
            Ok(raw) => res is Ok && text_of(res->Ok_0) == accepted(raw@),
            Err(e) => res == Err::<Option<String>, E>(e),
        },
{
    match reply {
        Ok(raw) => {
            assert(raw@.skip(0) =~= raw@);
            let text = trimmed_from(raw.as_str(), 0);
            if text.as_str().is_empty() || is_hallucination(text.as_str()) {
                Ok(None)
            } else {
                Ok(Some(text))
            }
        },
        Err(e) => Err(e),
    }
}

/// What is committed of `candidate` after the texts in `parts`.
fn committable(parts: &Vec<String>, candidate: &str) -> (res: Option<String>)
    ensures
        text_of(res) == commit(texts(parts@), candidate@),
{
    let new = dedupe_against_emitted(join_all(parts.as_slice()).as_str(), candidate);
    if new.as_str().is_empty() {
        return None;
    }
    if parts.len() > 0 && parts[parts.len() - 1] == new {
        return None;
    }
    Some(new)
}

/// What is typed for the text `new` after the texts in `parts`.
fn typed_text(parts: &Vec<String>, new: &String) -> (res: String)
    ensures
        res@ == typed(texts(parts@), new@),
{
    if parts.is_empty() {
        new.clone()
    } else {
        let mut res = String::new();
        res.push(' ');
        res.append(new.as_str());
        assert(res@ =~= seq![' '] + new@);
        res
    }
}

/// The words of `curr` that are certain to come after the texts in `parts`.
fn pending_words(parts: &Vec<String>, curr: &str) -> (res: Vec<String>)
    ensures
        texts(res@) == pending(texts(parts@), curr@),
{
    let emitted = join_all(parts.as_slice());
    let tail = last_n_words(emitted.as_str(), SLIDING_DIFF_LOOKBACK_WORDS);
    match extract_new_text_confident(tail.as_str(), curr) {
        Some(text) => split_words(text.as_str()),
        None => {
            let none: Vec<String> = Vec::new();
            assert(texts(none@) =~= seq![]);
            none
        },
    }
}

impl<T> Session<T> {
    /// A recording of which nothing has been heard.
    pub fn new(config: SlidingWindowConfig) -> (res: Self)
        ensures
            res@ == blank::<T>(config),
            well_formed(res@),
    {
        let res = Session {
            config,
            buffer: Vec::new(),
            sliding: false,
            full_text_parts: Vec::new(),
            prev_whisper: String::new(),
            last_words: Vec::new(),
            confirmed_words: Vec::new(),
            last_delta_words: Vec::new(),
        };
        assert(texts(res.full_text_parts@) =~= seq![]);
        assert(words(res@.prev_whisper) =~= seq![]);
        res
    }

    /// The tuning of the engine.
    pub fn config(&self) -> (res: SlidingWindowConfig)
        ensures
            res == self@.config,
    {
        self.config
    }

    /// The audio in the window.
    pub fn samples(&self) -> (res: &[T])
        ensures
            res@ == self@.buffer,
    {
        self.buffer.as_slice()
    }

    /// Whether audio has been dropped from the window.
    pub fn is_sliding(&self) -> (res: bool)
        ensures
            res == self@.sliding,
    {
        self.sliding
    }

    /// All committed text, as the cursor shows it.
    pub fn transcript(&self) -> (res: String)
        ensures
            res@ == join(self@.parts),
    {
        join_all(self.full_text_parts.as_slice())
    }

    /// Whether a pass over the buffer is worth making: there is enough audio, and its energy,
    /// which the caller has measured, is not that of silence.
    pub fn transcription_due(&self, silent: bool) -> (res: bool)
        ensures
            res == due(self@, silent),
    {
        self.buffer.len() >= self.config.min_samples && !silent
    }
}

impl<T> Session<T> {
    /// Records `new` as committed, and gives what is typed for it.
    fn push_part(&mut self, new: String) -> (res: String)
        ensures
            res@ == typed(old(self)@.parts, new@),
            final(self)@ == (SessionView { parts: old(self)@.parts.push(new@), ..old(self)@ }),
    {
        let res = typed_text(&self.full_text_parts, &new);
        assert(texts(self.full_text_parts@.push(new)) =~= texts(self.full_text_parts@).push(new@));
        self.full_text_parts.push(new);
        res
    }

    /// One pass in a sliding window: commits the words that are pending now and were pending in
    /// the pass before.
    fn advance_sliding(&mut self, curr: &str) -> (res: Option<String>)
        requires
            old(self)@.sliding,
        ensures
            text_of(res) == (match committed(old(self)@, curr@) {
                Some(new) => Some(typed(old(self)@.parts, new)),
                None => None,
            }),
            final(self)@ == (SessionView {
                prev_whisper: old(self)@.prev_whisper,
                last_words: old(self)@.last_words,
                ..advanced(old(self)@, curr@)
            }),
    {
        let mut delta_words = pending_words(&self.full_text_parts, curr);
        let mut delta: Option<String> = None;
        if !self.last_delta_words.is_empty() && !delta_words.is_empty() {
            let stable = common_prefix_len(
                self.last_delta_words.as_slice(),
                delta_words.as_slice(),
            );
            proof {
                lemma_common_prefix_bounds(self@.last_delta_words, texts(delta_words@));
                assert(texts(delta_words@).subrange(0, stable as int) =~= texts(delta_words@).take(
                    stable as int,
                ));
            }
            if stable >= self.config.partial_min_words {
                let joined = join_range(delta_words.as_slice(), 0, stable);
                if let Some(new) = committable(&self.full_text_parts, joined.as_str()) {
                    delta = Some(self.push_part(new));
                    delta_words = pending_words(&self.full_text_parts, curr);
                }
            }
        }
        self.last_delta_words = delta_words;
        delta
    }

    /// One pass over a growing buffer: commits the words that the transcript shares with the
    /// one before, after those that are confirmed already.
    fn advance_growing(&mut self, curr_words: &Vec<String>, Ghost(curr): Ghost<Seq<char>>) -> (res:
        Option<String>)
        requires
            !old(self)@.sliding,
            texts(curr_words@) == words(curr),
        ensures
            text_of(res) == (match committed(old(self)@, curr) {
                Some(new) => Some(typed(old(self)@.parts, new)),
                None => None,
            }),
            final(self)@ == (SessionView {
                prev_whisper: old(self)@.prev_whisper,
                last_words: old(self)@.last_words,
                ..advanced(old(self)@, curr)
            }),
    {
        if self.last_words.is_empty() {
            return None;
        }
        let stable = common_prefix_len(self.last_words.as_slice(), curr_words.as_slice());
        proof {
            lemma_common_prefix_bounds(self@.last_words, words(curr));
        }
        let known = self.confirmed_words.len();
        if stable <= known || stable - known < self.config.partial_min_words {
            return None;
        }
        let joined = join_range(curr_words.as_slice(), known, stable);
        match committable(&self.full_text_parts, joined.as_str()) {
            Some(new) => {
                let delta = self.push_part(new);
                let ghost before = self.confirmed_words@;
                let ghost after = self@;
                let mut i: usize = known;
                while i < stable
                    invariant
                        known <= i <= stable <= curr_words@.len(),
                        self.confirmed_words@ == before + curr_words@.subrange(
                            known as int,
                            i as int,
                        ),
                        self@ == (SessionView {
                            confirmed_words: texts(self.confirmed_words@),
                            ..after
                        }),
                    decreases stable - i,
                {
                    let word = curr_words[i].clone();
                    self.confirmed_words.push(word);
                    assert((before + curr_words@.subrange(known as int, i as int)).push(
                        curr_words@[i as int],
                    ) =~= before + curr_words@.subrange(known as int, i + 1));
                    i += 1;
                }
                assert(texts(self.confirmed_words@) =~= texts(before) + words(curr).subrange(
                    known as int,
                    stable as int,
                ));
                Some(delta)
            },
            None => None,
        }
    }

    /// One tick, after the backend has transcribed the buffer: commits what has become stable,
    /// and gives the texts to type, at most one. Where the backend failed, its error comes back
    /// and nothing changes.
    pub fn on_tick<E>(&mut self, reply: Result<String, E>) -> (res: Result<Vec<String>, E>)
        ensures
            match reply {
                Ok(raw) => {
                    &&& res is Ok
                    &&& texts(res->Ok_0@) == tick_deltas(old(self)@, raw@)
                    &&& final(self)@ == ticked(old(self)@, raw@)
                },
                Err(e) => res == Err::<Vec<String>, E>(e) && final(self)@ == old(self)@,
            },
            well_formed(old(self)@) ==> well_formed(final(self)@),
    {
        proof {
            if reply is Ok && well_formed(self@) {
                passes_keep_sessions_well_formed(self@, reply->Ok_0@);
            }
        }
        let mut deltas: Vec<String> = Vec::new();
        assert(texts(deltas@) =~= seq![]);
        match transcribe_buffer(reply) {
            Ok(Some(curr)) => {
                let curr_words = split_words(curr.as_str());
                let delta = if self.sliding {
                    self.advance_sliding(curr.as_str())
                } else {
                    self.advance_growing(&curr_words, Ghost(curr@))
                };
                if let Some(text) = delta {
                    assert(texts(deltas@.push(text)) =~= seq![text@]);
                    deltas.push(text);
                }
                self.prev_whisper = curr;
                self.last_words = curr_words;
                Ok(deltas)
            },
            Ok(None) => Ok(deltas),
            Err(e) => Err(e),
        }
    }

    /// The last pass, at the end of the recording: commits what remains, and gives the text to
    /// type for it. Only what comes after the committed text is typed, never the whole. Where
    /// the backend failed, nothing is.
    pub fn final_flush<E>(&mut self, reply: Result<String, E>) -> (res: Option<String>)
        ensures
            match reply {
                Ok(raw) => {
                    &&& text_of(res) == flush_delta(old(self)@, raw@)
                    &&& final(self)@ == flushed(old(self)@, raw@)
                },
                Err(_) => res is None && final(self)@ == old(self)@,
            },
            well_formed(old(self)@) ==> well_formed(final(self)@),
    {
        proof {
            if reply is Ok && well_formed(self@) {
                passes_keep_sessions_well_formed(self@, reply->Ok_0@);
            }
        }
        match transcribe_buffer(reply) {
            Ok(Some(text)) => {
                let emitted = join_all(self.full_text_parts.as_slice());
                let tail = last_n_words(emitted.as_str(), SLIDING_DIFF_LOOKBACK_WORDS);
                let found = extract_new_text(tail.as_str(), text.as_str());
                assert(found@.skip(0) =~= found@);
                let found = trimmed_from(found.as_str(), 0);
                let new = dedupe_against_emitted(emitted.as_str(), found.as_str());
                if new.as_str().is_empty() {
                    None
                } else {
                    Some(self.push_part(new))
                }
            },
            _ => None,
        }
    }
}

impl<T: Copy> Session<T> {
    /// Takes in more audio. What the window cannot hold is dropped, the oldest first, and from
    /// then on the window slides.
    pub fn feed(&mut self, samples: &[T])
        ensures
            final(self)@ == fed(old(self)@, samples@),
            well_formed(old(self)@) ==> well_formed(final(self)@),
    {
        let ghost before = self.buffer@;
        let mut i: usize = 0;
        while i < samples.len()
            invariant
                i <= samples@.len(),
                self.buffer@ == before + samples@.take(i as int),
                self@ == (SessionView { buffer: self.buffer@, ..old(self)@ }),
            decreases samples@.len() - i,
        {
            self.buffer.push(samples[i]);
            assert((before + samples@.take(i as int)).push(samples@[i as int])
                =~= before + samples@.take(i + 1));
            i += 1;
        }
        assert(samples@.take(i as int) =~= samples@);
        let ghost whole = before + samples@;
        if self.buffer.len() > self.config.max_samples {
            let dropped: usize = self.buffer.len() - self.config.max_samples;
            self.buffer = self.buffer.split_off(dropped);
            self.sliding = true;
            assert(self.buffer@ =~= last_n(whole, self.config.max_samples as nat));
        }
    }
}

} // verus!
