//! Laws of a recording: what ticks and the last pass commit, and what they leave alone.

use crate::diff::{
    among, certain_news, common_prefix, fresh, last_n, lemma_common_prefix_bounds, longest_overlap,
    lookback, news, overlaps, restated, same_word, same_words, SLIDING_DIFF_LOOKBACK_WORDS,
};
use crate::filter::hallucinated;
use crate::laws::diff::{
    all_different, begins_with_last, different_words_match_to_the_end, first_text_is_fresh,
    full_match_leaves_what_follows, last_words_are_kept, longest_overlap_is_longest,
    matches_to_the_end, new_beginning_is_fresh, news_keeps_the_rest, nothing_after_is_missed,
    only_committed_words_are_dropped, restated_tail_is_dropped,
};
use crate::laws::filter::{
    only_phrases_of_silence_are_hallucinated, phrase_mark, silence_phrase,
};
use crate::laws::text::{
    all_white, lemma_join_is_trimmed, lemma_solid_subrange, trim_cleans_both_ends,
    trim_takes_white_space_off, words_of_join, words_of_parts,
};
use crate::session::{
    accepted, advanced, blank, candidate, committed, fed, flush_delta, flushed, pending, remainder,
    tick_deltas, ticked, typed, well_formed, SessionView, SlidingWindowConfig,
};
use crate::text::{
    all_solid, join, lemma_words_solid, lowercase, solid, trim, white_space, words,
};
use vstd::prelude::*;

verus! {

/// A list of texts one after another, with nothing between them.
pub open spec fn concat(list: Seq<Seq<char>>) -> Seq<char>
    decreases list.len(),
{
    if list.len() == 0 {
        seq![]
    } else {
        concat(list.drop_last()) + list.last()
    }
}

/// What is typed for a text is what it adds to the committed text.
pub proof fn typing_extends_the_transcript(parts: Seq<Seq<char>>, new: Seq<char>)
    ensures
        join(parts.push(new)) == join(parts) + typed(parts, new),
{
    let more = parts.push(new);
    assert(more.drop_last() =~= parts);
    if parts.len() == 0 {
        assert(join(parts) + new =~= new);
    } else {
        assert(join(parts).push(' ') + new =~= join(parts) + (seq![' '] + new));
    }
}

/// Events are deltas: what a tick types, put after the committed text, is the text that is
/// committed then.
pub proof fn tick_types_the_difference<T>(v: SessionView<T>, raw: Seq<char>)
    ensures
        join(ticked(v, raw).parts) == join(v.parts) + concat(tick_deltas(v, raw)),
        tick_deltas(v, raw).len() <= 1,
{
    reveal_with_fuel(concat, 2);
    if tick_deltas(v, raw).len() == 0 {
        assert(join(v.parts) + concat(tick_deltas(v, raw)) =~= join(v.parts));
    } else {
        let new = committed(v, accepted(raw)->0)->0;
        typing_extends_the_transcript(v.parts, new);
        assert(tick_deltas(v, raw).drop_last() =~= seq![]);
        assert(concat(tick_deltas(v, raw)) =~= typed(v.parts, new));
    }
}

/// What the last pass types, put after the committed text, is the text that is committed then.
pub proof fn flush_types_the_difference<T>(v: SessionView<T>, raw: Seq<char>)
    ensures
        match flush_delta(v, raw) {
            Some(text) => join(flushed(v, raw).parts) == join(v.parts) + text,
            None => flushed(v, raw).parts == v.parts,
        },
{
    if let Some(new) = remainder(v, raw) {
        typing_extends_the_transcript(v.parts, new);
    }
}

/// Committed text is never taken back, and a pass touches neither the audio nor the tuning.
pub proof fn passes_only_append<T>(v: SessionView<T>, raw: Seq<char>)
    ensures
        v.parts.is_prefix_of(ticked(v, raw).parts),
        v.parts.is_prefix_of(flushed(v, raw).parts),
        v.confirmed_words.is_prefix_of(ticked(v, raw).confirmed_words),
        ticked(v, raw).buffer == v.buffer && flushed(v, raw).buffer == v.buffer,
        ticked(v, raw).sliding == v.sliding && flushed(v, raw).sliding == v.sliding,
        ticked(v, raw).config == v.config && flushed(v, raw).config == v.config,
{
    assert(v.parts =~= v.parts.subrange(0, v.parts.len() as int));
    assert(v.confirmed_words =~= v.confirmed_words.subrange(0, v.confirmed_words.len() as int));
    let a = ticked(v, raw);
    assert(v.parts =~= a.parts.subrange(0, v.parts.len() as int));
    assert(v.confirmed_words =~= a.confirmed_words.subrange(0, v.confirmed_words.len() as int));
    let b = flushed(v, raw);
    assert(v.parts =~= b.parts.subrange(0, v.parts.len() as int));
}

/// While the buffer grows, a tick commits only words that the last two transcripts agree on,
/// from their beginnings on; only words after those that are confirmed; and no fewer than the
/// tuning asks for.
pub proof fn growing_commits_are_stable<T>(v: SessionView<T>, curr: Seq<char>)
    requires
        !v.sliding,
        committed(v, curr) is Some,
    ensures
        ({
            let known = v.confirmed_words.len();
            let ws = candidate(v, curr)->0;
            &&& ws.len() > 0
            &&& ws.len() >= v.config.partial_min_words
            &&& known + ws.len() <= words(curr).len()
            &&& known + ws.len() <= v.last_words.len()
            &&& ws == words(curr).subrange(known as int, (known + ws.len()) as int)
            &&& forall|i: int|
                0 <= i < known + ws.len() ==> same_word(v.last_words[i], #[trigger] words(curr)[i])
            &&& committed(v, curr) == Some(fresh(join(v.parts), join(ws)))
            &&& advanced(v, curr).confirmed_words == v.confirmed_words + ws
        }),
{
    lemma_common_prefix_bounds(v.last_words, words(curr));
    let known = v.confirmed_words.len();
    let stable = common_prefix(v.last_words, words(curr));
    let ws = candidate(v, curr)->0;
    assert(ws =~= words(curr).subrange(known as int, stable as int));
}

/// Once the window slides, a tick commits only words that were pending in this pass and in the
/// pass before, and no fewer than the tuning asks for.
pub proof fn sliding_commits_are_stable<T>(v: SessionView<T>, curr: Seq<char>)
    requires
        v.sliding,
        committed(v, curr) is Some,
    ensures
        ({
            let delta = pending(v.parts, curr);
            let ws = candidate(v, curr)->0;
            &&& ws.len() >= v.config.partial_min_words
            &&& ws.len() <= delta.len()
            &&& ws.len() <= v.last_delta_words.len()
            &&& ws == delta.take(ws.len() as int)
            &&& forall|i: int|
                0 <= i < ws.len() ==> same_word(v.last_delta_words[i], #[trigger] delta[i])
            &&& committed(v, curr) == Some(fresh(join(v.parts), join(ws)))
        }),
{
    lemma_common_prefix_bounds(v.last_delta_words, pending(v.parts, curr));
}

/// It takes two passes to commit: the first pass over a growing buffer, and the first pass in a
/// window that slides, type nothing.
pub proof fn first_pass_commits_nothing<T>(v: SessionView<T>, raw: Seq<char>)
    requires
        if v.sliding {
            v.last_delta_words.len() == 0
        } else {
            v.last_words.len() == 0
        },
    ensures
        tick_deltas(v, raw).len() == 0,
        ticked(v, raw).parts == v.parts,
{
}

/// Two passes suffice: words that a pass and the one before it agree on, enough of them, are
/// what the pass would commit, all of them.
pub proof fn agreed_words_are_candidates<T>(v: SessionView<T>, curr: Seq<char>)
    ensures
        ({
            let known = v.confirmed_words.len();
            let c = words(curr);
            !v.sliding && same_words(v.last_words, c) && c.len() > known && c.len() - known
                >= v.config.partial_min_words ==> candidate(v, curr) == Some(c.skip(known as int))
        }),
        ({
            let delta = pending(v.parts, curr);
            v.sliding && same_words(v.last_delta_words, delta) && delta.len() > 0 && delta.len()
                >= v.config.partial_min_words ==> candidate(v, curr) == Some(delta)
        }),
{
    let c = words(curr);
    let delta = pending(v.parts, curr);
    lemma_common_prefix_bounds(v.last_words, c);
    lemma_common_prefix_bounds(v.last_delta_words, delta);
    assert(delta.take(delta.len() as int) =~= delta);
    if v.confirmed_words.len() <= c.len() {
        assert(c.subrange(v.confirmed_words.len() as int, c.len() as int) =~= c.skip(
            v.confirmed_words.len() as int,
        ));
    }
}

/// The first words of a recording go out as they are once two passes agree on them.
pub proof fn agreed_first_words_are_typed<T>(v: SessionView<T>, raw: Seq<char>)
    requires
        !v.sliding,
        v.parts.len() == 0,
        v.confirmed_words.len() == 0,
        accepted(raw) is Some,
        same_words(v.last_words, words(raw)),
        words(raw).len() >= v.config.partial_min_words,
    ensures
        tick_deltas(v, raw) == seq![join(words(raw))],
        join(ticked(v, raw).parts) == join(words(raw)),
{
    let text = accepted(raw)->0;
    let c = words(text);
    accepted_is_clean(raw);
    agreed_words_are_candidates(v, text);
    assert(c.skip(0) =~= c);
    assert(join(v.parts) =~= seq![]);
    first_text_is_fresh(join(c));
    lemma_words_solid(text);
    words_of_join(c);
    assert(join(c).len() > 0) by {
        if join(c).len() == 0 {
            assert(words(join(c)) =~= seq![]);
        }
    }
    typing_extends_the_transcript(v.parts, join(c));
    assert(join(v.parts) + join(c) =~= join(c));
}

/// In a sliding window, a transcript without a certain match with the committed text commits
/// nothing.
pub proof fn no_match_commits_nothing<T>(v: SessionView<T>, curr: Seq<char>)
    requires
        v.sliding,
        certain_news(lookback(join(v.parts)), curr) is None,
    ensures
        committed(v, curr) is None,
        advanced(v, curr).parts == v.parts,
        advanced(v, curr).last_delta_words.len() == 0,
{
}

/// Every committed text says something, and none repeats the one before it.
pub open spec fn no_repeats(parts: Seq<Seq<char>>) -> bool {
    &&& forall|i: int| 0 <= i < parts.len() ==> (#[trigger] parts[i]).len() > 0
    &&& forall|i: int| 0 < i < parts.len() ==> #[trigger] parts[i] != parts[i - 1]
}

/// A tick never commits nothing, and never commits the same text twice in a row.
pub proof fn ticks_do_not_repeat<T>(v: SessionView<T>, raw: Seq<char>)
    requires
        no_repeats(v.parts),
    ensures
        no_repeats(ticked(v, raw).parts),
{
}

/// A transcript that is accepted has words, no white space around it, is none of the phrases
/// that silence brings forth, and would be accepted again as it is.
pub proof fn accepted_is_clean(raw: Seq<char>)
    ensures
        accepted(raw) matches Some(text) ==> {
            &&& text == trim(raw)
            &&& text.len() > 0
            &&& words(text).len() > 0
            &&& words(text) == words(raw)
            &&& !hallucinated(text)
            &&& accepted(text) == Some(text)
        },
{
    trim_cleans_both_ends(raw);
}

/// How the audio is cut into chunks makes no difference.
pub proof fn chunks_add_up<T>(v: SessionView<T>, a: Seq<T>, b: Seq<T>)
    ensures
        fed(fed(v, a), b) == fed(v, a + b),
{
    let max = v.config.max_samples as nat;
    let once = v.buffer + a;
    assert(v.buffer + (a + b) =~= once + b);
    assert(last_n(last_n(once, max) + b, max) =~= last_n(once + b, max));
}

/// The window never holds more than it may, and once it slides it goes on sliding; audio that
/// comes in commits nothing.
pub proof fn window_is_bounded<T>(v: SessionView<T>, samples: Seq<T>)
    ensures
        fed(v, samples).buffer.len() <= v.config.max_samples,
        v.sliding ==> fed(v, samples).sliding,
        fed(v, samples).parts == v.parts,
        well_formed(v) ==> well_formed(fed(v, samples)),
{
}

/// What was never committed is not lost: where nothing is committed, the last pass types the
/// whole transcript.
pub proof fn flush_of_a_blank_transcript<T>(v: SessionView<T>, raw: Seq<char>)
    requires
        v.parts.len() == 0,
    ensures
        flush_delta(v, raw) == accepted(raw),
{
    if let Some(text) = accepted(raw) {
        accepted_is_clean(raw);
        trim_cleans_both_ends(raw);
        assert(join(v.parts) =~= seq![]);
        first_text_is_fresh(text);
    }
}

/// What the last pass finds to be new, before the guard against repetition.
pub open spec fn found<T>(v: SessionView<T>, raw: Seq<char>) -> Seq<char> {
    trim(news(lookback(join(v.parts)), trim(raw)))
}

/// Of what the last pass finds, nothing is dropped but words at its beginning that were
/// committed: the words of the committed text are then those before it and the others found.
pub proof fn flush_drops_only_committed_words<T>(v: SessionView<T>, raw: Seq<char>)
    requires
        accepted(raw) is Some,
    ensures
        ({
            let p = words(join(v.parts));
            let f = words(found(v, raw));
            let n = restated(join(v.parts), found(v, raw));
            &&& n <= f.len()
            &&& words(join(flushed(v, raw).parts)) == p + f.skip(n as int)
            &&& forall|i: int| 0 <= i < n ==> among(#[trigger] f[i], p)
        }),
{
    let emitted = join(v.parts);
    let new = fresh(emitted, found(v, raw));
    only_committed_words_are_dropped(emitted, found(v, raw));
    if new.len() == 0 {
        assert(words(new) =~= seq![]);
        assert(words(emitted) + words(new) =~= words(emitted));
    } else {
        lemma_words_of_more_parts(v.parts, new);
    }
}

/// A committed text adds its words to those before it.
proof fn lemma_words_of_more_parts(parts: Seq<Seq<char>>, new: Seq<char>)
    ensures
        words(join(parts.push(new))) == words(join(parts)) + words(new),
{
    typing_extends_the_transcript(parts, new);
    if parts.len() == 0 {
        assert(words(join(parts)) =~= seq![]);
        assert(words(join(parts)) + words(new) =~= words(new));
        assert(join(parts) + new =~= new);
    } else {
        assert(join(parts) + (seq![' '] + new) =~= join(parts).push(' ') + new);
        words_of_parts(join(parts), ' ', new);
    }
}

/// Of the words that a tick would commit, nothing is dropped but words at the beginning that
/// were committed.
pub proof fn ticks_drop_only_committed_words<T>(v: SessionView<T>, curr: Seq<char>)
    requires
        committed(v, curr) is Some,
    ensures
        ({
            let p = words(join(v.parts));
            let ws = candidate(v, curr)->0;
            let n = restated(join(v.parts), join(ws));
            &&& n <= ws.len()
            &&& words(join(advanced(v, curr).parts)) == p + ws.skip(n as int)
            &&& forall|i: int| 0 <= i < n ==> among(#[trigger] ws[i], p)
        }),
{
    let ws = candidate(v, curr)->0;
    lemma_candidate_is_solid(v, curr);
    words_of_join(ws);
    only_committed_words_are_dropped(join(v.parts), join(ws));
    lemma_words_of_more_parts(v.parts, committed(v, curr)->0);
}

/// A transcript that goes on from the committed text begins with its last words, which are all
/// of them, and no overlap goes beyond them. All that follows is found, and not all of the
/// transcript is.
proof fn lemma_found<T>(v: SessionView<T>, raw: Seq<char>)
    requires
        accepted(raw) is Some,
        words(join(v.parts)).len() > 0,
        extends(words(join(v.parts)), words(raw)),
    ensures
        ({
            let p = words(join(v.parts));
            let tail = last_n(p, SLIDING_DIFF_LOOKBACK_WORDS as nat);
            let c = words(raw);
            let f = words(found(v, raw));
            let text = trim(raw);
            &&& accepted(raw) == Some(text)
            &&& words(text) == c
            &&& words(lookback(join(v.parts))) == tail
            &&& begins_with_last(join(v.parts), text, p.len())
            &&& c.skip(p.len() as int).is_suffix_of(f)
            &&& f.len() < c.len()
            &&& certain_news(lookback(join(v.parts)), text) == Some(
                news(lookback(join(v.parts)), text),
            )
            &&& f == words(news(lookback(join(v.parts)), text))
            &&& longest_overlap(tail, c) == 0 && lookback(join(v.parts)).is_prefix_of(text)
                ==> f.len() + p.len() > c.len()
        }),
{
    let emitted = join(v.parts);
    let p = words(emitted);
    let c = words(raw);
    let text = trim(raw);
    let n = SLIDING_DIFF_LOOKBACK_WORDS as nat;
    accepted_is_clean(raw);
    last_words_are_kept(emitted, n);
    let tail = last_n(p, n);
    longest_overlap_is_longest(tail, c, p.len());
    nothing_after_is_missed(emitted, text, p.len());
    trim_cleans_both_ends(news(lookback(emitted), text));
    news_keeps_the_rest(lookback(emitted), text);
    if p.len() <= n {
        assert(tail.skip(0) =~= tail);
        assert(overlaps(tail, c, p.len()));
    }
}

/// The last pass types the tail and never the whole: where the final transcript begins with the
/// words of the committed text, what is typed has fewer words than it.
pub proof fn flush_never_types_the_whole<T>(v: SessionView<T>, raw: Seq<char>)
    requires
        accepted(raw) is Some,
        words(join(v.parts)).len() > 0,
        extends(words(join(v.parts)), words(raw)),
    ensures
        remainder(v, raw) matches Some(new) ==> words(new).len() < words(raw).len(),
{
    lemma_found(v, raw);
    only_committed_words_are_dropped(join(v.parts), found(v, raw));
}

/// The last pass loses nothing: where the final transcript begins with the words of the
/// committed text, however long that is, and none of the words that follow is dropped as
/// restated, the committed text ends in all of those that follow.
pub proof fn flush_loses_nothing<T>(v: SessionView<T>, raw: Seq<char>)
    requires
        accepted(raw) is Some,
        ({
            let p = words(join(v.parts));
            let c = words(raw);
            let f = words(found(v, raw));
            &&& 0 < p.len()
            &&& extends(p, c)
            &&& restated(join(v.parts), found(v, raw)) + (c.len() - p.len()) <= f.len()
        }),
    ensures
        words(raw).skip(words(join(v.parts)).len() as int).is_suffix_of(
            words(join(flushed(v, raw).parts)),
        ),
{
    let p = words(join(v.parts));
    let c = words(raw);
    let f = words(found(v, raw));
    let rest = c.skip(p.len() as int);
    lemma_found(v, raw);
    assert(rest =~= f.subrange(f.len() - rest.len(), f.len() as int));
    flush_drops_only_committed_words(v, raw);
    let kept = f.skip(restated(join(v.parts), found(v, raw)) as int);
    let all = words(join(flushed(v, raw).parts));
    assert(rest =~= all.subrange(all.len() - rest.len(), all.len() as int)) by {
        assert forall|i: int| 0 <= i < rest.len() implies #[trigger] rest[i] == all[all.len()
            - rest.len() + i] by {
            assert(rest[i] == f[f.len() - rest.len() + i]);
            assert(kept[kept.len() - rest.len() + i] == rest[i]);
        }
    }
}

/// The last pass completes the transcript: where the final transcript begins with the words of
/// the committed text, however long that is, and just the found words before those that follow
/// are dropped as restated, just those that follow are typed, and the committed text then has
/// the words of the final transcript, once.
pub proof fn flush_completes_the_transcript<T>(v: SessionView<T>, raw: Seq<char>)
    requires
        accepted(raw) is Some,
        ({
            let p = words(join(v.parts));
            let c = words(raw);
            let f = words(found(v, raw));
            &&& 0 < p.len()
            &&& extends(p, c)
            &&& f.len() == restated(join(v.parts), found(v, raw)) + (c.len() - p.len())
        }),
    ensures
        types_just(v, raw, words(raw).skip(words(join(v.parts)).len() as int)),
        same_words(words(join(flushed(v, raw).parts)), words(raw)),
{
    let emitted = join(v.parts);
    let p = words(emitted);
    let c = words(raw);
    let f = words(found(v, raw));
    let n = restated(emitted, found(v, raw));
    let rest = c.skip(p.len() as int);
    lemma_found(v, raw);
    assert(rest =~= f.subrange(f.len() - rest.len(), f.len() as int));
    flush_drops_only_committed_words(v, raw);
    assert(f.skip(n as int) =~= rest);
    lemma_words_solid(raw);
    lemma_solid_subrange(c, p.len() as int, c.len() as int);
    assert(rest =~= c.subrange(p.len() as int, c.len() as int));
    words_of_join(rest);
    lemma_join_is_trimmed(rest);
    assert(fresh(emitted, found(v, raw)) == join(rest)) by {
        if n == 0 {
            assert(f =~= rest);
            lemma_certain_news_is_joined(lookback(emitted), trim(raw));
        }
    }
    assert(join(rest).len() == 0 <==> rest.len() == 0) by {
        if join(rest).len() == 0 {
            assert(words(join(rest)) =~= seq![]);
        }
    }
    if v.parts.len() == 0 {
        assert(p =~= seq![]);
    }
    assert forall|i: int| 0 <= i < c.len() implies same_word(#[trigger] (p + rest)[i], c[i]) by {
        if i < p.len() {
            assert(same_word(p[i], c.take(p.len() as int)[i]));
        }
    }
}

/// The last pass types the words `rest`, after a space, and nothing where there are none.
pub open spec fn types_just<T>(v: SessionView<T>, raw: Seq<char>, rest: Seq<Seq<char>>) -> bool {
    flush_delta(v, raw) == if rest.len() > 0 {
        Some(seq![' '] + join(rest))
    } else {
        None
    }
}

/// News that is not cut out of a word is joined words.
proof fn lemma_certain_news_is_joined(prev: Seq<char>, curr: Seq<char>)
    requires
        words(prev).len() > 0,
        words(curr).len() > 0,
        longest_overlap(words(prev), words(curr)) > 0 || !prev.is_prefix_of(curr),
    ensures
        certain_news(prev, curr) matches Some(text) ==> text == join(words(text)),
{
    if let Some(text) = certain_news(prev, curr) {
        news_keeps_the_rest(prev, curr);
    }
}

/// One match completes the transcript, however much is committed: where the match of the final
/// transcript with the committed text ends where the committed text does, and what follows does
/// not begin by restating it, just what follows is typed.
pub proof fn one_match_completes_the_transcript<T>(v: SessionView<T>, raw: Seq<char>)
    requires
        accepted(raw) is Some,
        ({
            let p = words(join(v.parts));
            &&& matches_to_the_end(join(v.parts), trim(raw), p.len())
            &&& restated(join(v.parts), join(words(raw).skip(p.len() as int))) == 0
        }),
    ensures
        types_just(v, raw, words(raw).skip(words(join(v.parts)).len() as int)),
        same_words(words(join(flushed(v, raw).parts)), words(raw)),
{
    let p = words(join(v.parts));
    let c = words(raw);
    let rest = c.skip(p.len() as int);
    accepted_is_clean(raw);
    full_match_leaves_what_follows(join(v.parts), trim(raw), p.len());
    lemma_words_solid(raw);
    lemma_solid_subrange(c, p.len() as int, c.len() as int);
    assert(rest =~= c.subrange(p.len() as int, c.len() as int));
    words_of_join(rest);
    lemma_join_is_trimmed(rest);
    flush_completes_the_transcript(v, raw);
}

/// An accidental overlap does no harm: where the final transcript happens to begin with words
/// that the committed text ends in, and the match of what is found after those ends where the
/// committed text does, the guard strips it up to there and just what follows is typed.
pub proof fn guard_mends_a_short_overlap<T>(v: SessionView<T>, raw: Seq<char>)
    requires
        accepted(raw) is Some,
        ({
            let p = words(join(v.parts));
            let c = words(raw);
            let m = longest_overlap(last_n(p, SLIDING_DIFF_LOOKBACK_WORDS as nat), c);
            &&& extends(p, c)
            &&& 0 < m < p.len()
            &&& matches_to_the_end(join(v.parts), join(c.skip(m as int)), (p.len() - m) as nat)
        }),
    ensures
        types_just(v, raw, words(raw).skip(words(join(v.parts)).len() as int)),
        same_words(words(join(flushed(v, raw).parts)), words(raw)),
{
    let emitted = join(v.parts);
    let p = words(emitted);
    let c = words(raw);
    let m = longest_overlap(last_n(p, SLIDING_DIFF_LOOKBACK_WORDS as nat), c);
    lemma_found(v, raw);
    let after = c.skip(m as int);
    assert(news(lookback(emitted), trim(raw)) == join(after));
    lemma_words_solid(raw);
    lemma_solid_subrange(c, m as int, c.len() as int);
    assert(after =~= c.subrange(m as int, c.len() as int));
    words_of_join(after);
    lemma_join_is_trimmed(after);
    full_match_leaves_what_follows(emitted, join(after), (p.len() - m) as nat);
    flush_completes_the_transcript(v, raw);
}

/// Where no word of the committed text comes up twice in it, and the first word that follows is
/// none of them, just what follows is typed, however much is committed.
pub proof fn different_words_are_typed_once<T>(v: SessionView<T>, raw: Seq<char>)
    requires
        accepted(raw) is Some,
        ({
            let p = words(join(v.parts));
            let c = words(raw);
            &&& 0 < p.len()
            &&& extends(p, c)
            &&& all_different(p)
            &&& p.len() < c.len() ==> !among(c[p.len() as int], p)
        }),
    ensures
        types_just(v, raw, words(raw).skip(words(join(v.parts)).len() as int)),
        same_words(words(join(flushed(v, raw).parts)), words(raw)),
{
    let emitted = join(v.parts);
    let p = words(emitted);
    let c = words(raw);
    let rest = c.skip(p.len() as int);
    lemma_found(v, raw);
    different_words_match_to_the_end(emitted, trim(raw), p.len());
    lemma_words_solid(raw);
    lemma_solid_subrange(c, p.len() as int, c.len() as int);
    assert(rest =~= c.subrange(p.len() as int, c.len() as int));
    words_of_join(rest);
    new_beginning_is_fresh(emitted, join(rest));
    one_match_completes_the_transcript(v, raw);
}

/// In a sliding window a tick types nothing again: where the transcript begins with the last
/// words of the committed text, no overlap goes beyond them, and just the pending words before
/// those that follow are dropped as restated, what is committed are the next words that follow.
pub proof fn sliding_commits_come_after_the_transcript<T>(
    v: SessionView<T>,
    curr: Seq<char>,
    q: nat,
)
    requires
        v.sliding,
        committed(v, curr) is Some,
        begins_with_last(join(v.parts), curr, q),
        ({
            let tail = last_n(words(join(v.parts)), SLIDING_DIFF_LOOKBACK_WORDS as nat);
            let n = restated(join(v.parts), join(candidate(v, curr)->0));
            &&& longest_overlap(tail, words(curr)) <= q
            &&& pending(v.parts, curr).len() == n + (words(curr).len() - q)
        }),
    ensures
        ({
            let ws = candidate(v, curr)->0;
            let n = restated(join(v.parts), join(ws));
            &&& n <= ws.len()
            &&& q + ws.len() - n <= words(curr).len()
            &&& words(join(advanced(v, curr).parts)) == words(join(v.parts)) + words(
                curr,
            ).subrange(q as int, q + ws.len() - n)
        }),
{
    let c = words(curr);
    let delta = pending(v.parts, curr);
    let ws = candidate(v, curr)->0;
    let n = restated(join(v.parts), join(ws));
    sliding_commits_are_stable(v, curr);
    ticks_drop_only_committed_words(v, curr);
    nothing_after_is_missed(join(v.parts), curr, q);
    assert(c.skip(q as int).is_suffix_of(delta));
    lemma_next_of_suffix(c, q as int, delta, ws.len() as int, n as int);
}

/// Where `delta` is some items and then those of `c` from `q` on, so are the items of a beginning
/// of it.
proof fn lemma_next_of_suffix(
    c: Seq<Seq<char>>,
    q: int,
    delta: Seq<Seq<char>>,
    len: int,
    n: int,
)
    requires
        0 <= q <= c.len(),
        c.skip(q).is_suffix_of(delta),
        delta.len() == n + (c.len() - q),
        0 <= n <= len <= delta.len(),
    ensures
        delta.take(len).skip(n) == c.subrange(q, q + len - n),
{
    let rest = c.skip(q);
    assert(rest =~= delta.subrange(n, delta.len() as int));
    assert forall|i: int| 0 <= i < len - n implies #[trigger] delta.take(len).skip(n)[i] == c[q
        + i] by {
        assert(delta[n + i] == rest[i]);
    }
    assert(delta.take(len).skip(n) =~= c.subrange(q, q + len - n));
}

/// In a sliding window, the words that follow the committed text are pending, and no others,
/// where the match ends where the committed text does. Of them a tick commits the first ones,
/// as they are, where they do not begin by restating it.
pub proof fn one_match_finds_what_is_pending<T>(v: SessionView<T>, curr: Seq<char>, q: nat)
    requires
        v.sliding,
        matches_to_the_end(join(v.parts), curr, q),
    ensures
        pending(v.parts, curr) == words(curr).skip(q as int),
        ({
            let ws = candidate(v, curr)->0;
            committed(v, curr) is Some && restated(join(v.parts), join(ws)) == 0 ==> words(
                join(advanced(v, curr).parts),
            ) == words(join(v.parts)) + words(curr).subrange(q as int, (q + ws.len()) as int)
        }),
{
    let emitted = join(v.parts);
    let c = words(curr);
    let rest = c.skip(q as int);
    full_match_leaves_what_follows(emitted, curr, q);
    lemma_words_solid(curr);
    lemma_solid_subrange(c, q as int, c.len() as int);
    assert(rest =~= c.subrange(q as int, c.len() as int));
    words_of_join(rest);
    if committed(v, curr) is Some && restated(emitted, join(candidate(v, curr)->0)) == 0 {
        sliding_commits_come_after_the_transcript(v, curr, q);
    }
}

/// In a sliding window, where no word of the committed text comes up twice in it, and the first
/// word that follows is none of them, a tick commits the first words that follow, as they are.
pub proof fn different_words_are_committed_once<T>(v: SessionView<T>, curr: Seq<char>, q: nat)
    requires
        v.sliding,
        committed(v, curr) is Some,
        ({
            let p = words(join(v.parts));
            &&& begins_with_last(join(v.parts), curr, q)
            &&& all_different(p)
            &&& q < words(curr).len() ==> !among(words(curr)[q as int], p)
        }),
    ensures
        words(join(advanced(v, curr).parts)) == words(join(v.parts)) + words(curr).subrange(
            q as int,
            (q + candidate(v, curr)->0.len()) as int,
        ),
{
    let ws = candidate(v, curr)->0;
    different_words_match_to_the_end(join(v.parts), curr, q);
    one_match_finds_what_is_pending(v, curr, q);
    sliding_commits_are_stable(v, curr);
    lemma_candidate_is_solid(v, curr);
    words_of_join(ws);
    if ws.len() > 0 {
        assert(ws[0] == words(curr).skip(q as int)[0]);
    }
    new_beginning_is_fresh(join(v.parts), join(ws));
}

/// A candidate that restates the last words of the committed text is not committed, however
/// many they are; where they are more than are looked back at, their match must end with the
/// candidate.
pub proof fn restated_words_are_not_committed<T>(v: SessionView<T>, curr: Seq<char>)
    requires
        candidate(v, curr) is Some,
        ({
            let ws = candidate(v, curr)->0;
            &&& begins_with_last(join(v.parts), join(ws), ws.len())
            &&& ws.len() > SLIDING_DIFF_LOOKBACK_WORDS ==> matches_to_the_end(
                join(v.parts),
                join(ws),
                ws.len(),
            )
        }),
    ensures
        committed(v, curr) is None,
        advanced(v, curr).parts == v.parts,
{
    let ws = candidate(v, curr)->0;
    lemma_candidate_is_solid(v, curr);
    words_of_join(ws);
    restated_tail_is_dropped(join(v.parts), join(ws));
}

/// What a pass would commit are words.
proof fn lemma_candidate_is_solid<T>(v: SessionView<T>, curr: Seq<char>)
    requires
        candidate(v, curr) is Some,
    ensures
        all_solid(candidate(v, curr)->0),
{
    if v.sliding {
        let delta = pending(v.parts, curr);
        lemma_common_prefix_bounds(v.last_delta_words, delta);
        if let Some(text) = certain_news(lookback(join(v.parts)), curr) {
            lemma_words_solid(text);
        }
        let n = common_prefix(v.last_delta_words, delta) as int;
        lemma_solid_subrange(delta, 0, n);
        assert(delta.take(n) =~= delta.subrange(0, n));
    } else {
        lemma_common_prefix_bounds(v.last_words, words(curr));
        lemma_words_solid(curr);
        lemma_solid_subrange(
            words(curr),
            v.confirmed_words.len() as int,
            common_prefix(v.last_words, words(curr)) as int,
        );
    }
}

/// What holds of every recording goes on holding after a pass.
pub proof fn passes_keep_sessions_well_formed<T>(v: SessionView<T>, raw: Seq<char>)
    requires
        well_formed(v),
    ensures
        well_formed(ticked(v, raw)),
        well_formed(flushed(v, raw)),
{
    if let Some(curr) = accepted(raw) {
        let after = advanced(v, curr);
        if v.sliding {
            if let Some(text) = certain_news(lookback(join(after.parts)), curr) {
                lemma_words_solid(text);
            }
        } else if candidate(v, curr) is Some {
            lemma_candidate_is_solid(v, curr);
        }
        assert(all_solid(after.confirmed_words)) by {
            assert forall|i: int| 0 <= i < after.confirmed_words.len() implies solid(
                #[trigger] after.confirmed_words[i],
            ) by {
                if i < v.confirmed_words.len() {
                    assert(after.confirmed_words[i] == v.confirmed_words[i]);
                } else {
                    assert(after.confirmed_words[i] == candidate(v, curr)->0[i
                        - v.confirmed_words.len()]);
                }
            }
        }
    }
}

/// While the buffer grows, the confirmed words are the words of the committed text, as long as
/// what is committed does not begin by restating its end.
pub proof fn confirmed_words_are_the_transcript<T>(v: SessionView<T>, curr: Seq<char>)
    requires
        !v.sliding,
        words(join(v.parts)) == v.confirmed_words,
        committed(v, curr) is Some ==> restated(join(v.parts), join(candidate(v, curr)->0)) == 0,
    ensures
        words(join(advanced(v, curr).parts)) == advanced(v, curr).confirmed_words,
{
    if committed(v, curr) is Some {
        let ws = candidate(v, curr)->0;
        ticks_drop_only_committed_words(v, curr);
        assert(ws.skip(0) =~= ws);
    }
}

/// The words of `after` begin with those of `before`.
pub open spec fn extends(before: Seq<Seq<char>>, after: Seq<Seq<char>>) -> bool {
    &&& before.len() <= after.len()
    &&& same_words(before, after.take(before.len() as int))
}

/// Going on from words and going on from there is going on from those words.
proof fn lemma_extends_transitive(a: Seq<Seq<char>>, b: Seq<Seq<char>>, c: Seq<Seq<char>>)
    requires
        extends(a, b),
        extends(b, c),
    ensures
        extends(a, c),
{
    assert forall|i: int| 0 <= i < a.len() implies same_word(
        #[trigger] a[i],
        c.take(a.len() as int)[i],
    ) by {
        assert(same_word(a[i], b.take(a.len() as int)[i]));
        assert(same_word(b[i], c.take(b.len() as int)[i]));
    }
}

/// While the buffer grows and each transcript goes on from the one before it, the last
/// transcript goes on from the confirmed words.
pub proof fn transcripts_go_on_from_confirmed_words<T>(v: SessionView<T>, curr: Seq<char>)
    requires
        !v.sliding,
        extends(v.confirmed_words, v.last_words),
        extends(v.last_words, words(curr)),
    ensures
        extends(advanced(v, curr).confirmed_words, words(curr)),
{
    let c = words(curr);
    lemma_extends_transitive(v.confirmed_words, v.last_words, c);
    if committed(v, curr) is Some {
        growing_commits_are_stable(v, curr);
        let known = v.confirmed_words.len();
        let ws = candidate(v, curr)->0;
        let all = v.confirmed_words + ws;
        assert forall|i: int| 0 <= i < all.len() implies same_word(
            #[trigger] all[i],
            c.take(all.len() as int)[i],
        ) by {
            if i < known {
                assert(same_word(v.confirmed_words[i], c.take(known as int)[i]));
            } else {
                assert(all[i] == c[i]);
            }
        }
    }
}

/// The recording after several ticks.
pub open spec fn ticked_all<T>(v: SessionView<T>, raws: Seq<Seq<char>>) -> SessionView<T>
    decreases raws.len(),
{
    if raws.len() == 0 {
        v
    } else {
        ticked(ticked_all(v, raws.drop_last()), raws.last())
    }
}

/// Every transcript is accepted and goes on from the one before it, and nothing that is
/// committed begins by restating the end of the committed text.
pub open spec fn undisturbed<T>(v: SessionView<T>, raws: Seq<Seq<char>>) -> bool
    decreases raws.len(),
{
    if raws.len() == 0 {
        true
    } else {
        let u = ticked_all(v, raws.drop_last());
        &&& undisturbed(v, raws.drop_last())
        &&& accepted(raws.last()) is Some
        &&& extends(u.last_words, words(raws.last()))
        &&& committed(u, trim(raws.last())) is Some ==> restated(
            join(u.parts),
            join(candidate(u, trim(raws.last()))->0),
        ) == 0
    }
}

/// Undisturbed ticks commit the confirmed words, and the last transcript goes on from them.
proof fn lemma_undisturbed<T>(v: SessionView<T>, raws: Seq<Seq<char>>)
    requires
        !v.sliding,
        v.parts.len() == 0,
        v.confirmed_words.len() == 0,
        undisturbed(v, raws),
    ensures
        ({
            let u = ticked_all(v, raws);
            &&& !u.sliding
            &&& words(join(u.parts)) == u.confirmed_words
            &&& extends(u.confirmed_words, u.last_words)
        }),
    decreases raws.len(),
{
    if raws.len() == 0 {
        assert(words(join(v.parts)) =~= v.confirmed_words);
    } else {
        let u = ticked_all(v, raws.drop_last());
        let raw = raws.last();
        lemma_undisturbed(v, raws.drop_last());
        accepted_is_clean(raw);
        confirmed_words_are_the_transcript(u, trim(raw));
        transcripts_go_on_from_confirmed_words(u, trim(raw));
    }
}

/// Ticks commit nothing that has no words.
proof fn lemma_parts_have_words<T>(v: SessionView<T>, raws: Seq<Seq<char>>)
    requires
        !v.sliding,
        v.parts.len() == 0,
        v.confirmed_words.len() == 0,
        undisturbed(v, raws),
        ticked_all(v, raws).parts.len() > 0,
    ensures
        words(join(ticked_all(v, raws).parts)).len() > 0,
    decreases raws.len(),
{
    let u = ticked_all(v, raws.drop_last());
    let raw = raws.last();
    lemma_undisturbed(v, raws.drop_last());
    lemma_undisturbed(v, raws);
    accepted_is_clean(raw);
    if committed(u, trim(raw)) is Some {
        growing_commits_are_stable(u, trim(raw));
    } else {
        lemma_parts_have_words(v, raws.drop_last());
    }
}

/// What was said is typed once and whole, however much it is: where each transcript goes on from
/// the one before it, and just what restates the committed text is dropped, then after any number
/// of ticks and the last pass the committed text has the words of the final transcript.
pub proof fn agreeing_transcripts_are_typed_whole<T>(
    v: SessionView<T>,
    raws: Seq<Seq<char>>,
    last: Seq<char>,
)
    requires
        !v.sliding,
        v.parts.len() == 0,
        v.confirmed_words.len() == 0,
        undisturbed(v, raws),
        accepted(last) is Some,
        ({
            let u = ticked_all(v, raws);
            let p = words(join(u.parts));
            let c = words(last);
            &&& extends(u.last_words, c)
            &&& p.len() > 0 ==> words(found(u, last)).len() == restated(
                join(u.parts),
                found(u, last),
            ) + (c.len() - p.len())
        }),
    ensures
        same_words(words(join(flushed(ticked_all(v, raws), last).parts)), words(last)),
{
    let u = ticked_all(v, raws);
    let p = words(join(u.parts));
    let c = words(last);
    lemma_undisturbed(v, raws);
    lemma_extends_transitive(p, u.last_words, c);
    if p.len() > 0 {
        flush_completes_the_transcript(u, last);
    } else if u.parts.len() == 0 {
        flush_of_a_blank_transcript(u, last);
        accepted_is_clean(last);
        let new = remainder(u, last)->0;
        typing_extends_the_transcript(u.parts, new);
        assert(join(u.parts) + new =~= new);
    } else {
        lemma_parts_have_words(v, raws);
    }
}

/// A transcript that says something, and that is none of the phrases of silence, is accepted
/// without the white space around it, however short it is; any other is not.
pub proof fn what_is_said_is_accepted(
    before: Seq<char>,
    text: Seq<char>,
    after: Seq<char>,
    phrase: Seq<char>,
    marks: Seq<char>,
)
    requires
        all_white(before),
        all_white(after),
        text.len() > 0 ==> !white_space(text[0]) && !white_space(text.last()),
        lowercase(text) == phrase + marks,
        phrase.len() > 0 ==> !phrase_mark(phrase.last()),
        forall|i: int| 0 <= i < marks.len() ==> phrase_mark(#[trigger] marks[i]),
    ensures
        text.len() > 0 && !silence_phrase(phrase) ==> accepted(before + text + after) == Some(text),
        text.len() == 0 || silence_phrase(phrase) ==> accepted(before + text + after) == None::<
            Seq<char>,
        >,
{
    trim_takes_white_space_off(before, text, after);
    let none = Seq::<char>::empty();
    assert(none + text + none =~= text);
    only_phrases_of_silence_are_hallucinated(none, text, none, phrase, marks);
}

/// A transcript that is not accepted changes nothing and types nothing.
pub proof fn rejected_transcripts_change_nothing<T>(v: SessionView<T>, raw: Seq<char>)
    requires
        accepted(raw) is None,
    ensures
        ticked(v, raw) == v,
        tick_deltas(v, raw) == Seq::<Seq<char>>::empty(),
        flushed(v, raw) == v,
        flush_delta(v, raw) == None::<Seq<char>>,
{
}

/// Audio that comes in is put at the end of the window, and what is more than the window may
/// hold is taken off its beginning; the window slides once that has happened. Nothing else
/// changes.
pub proof fn feeding_only_moves_the_window<T>(v: SessionView<T>, samples: Seq<T>)
    ensures
        ({
            let all = v.buffer + samples;
            let max = v.config.max_samples;
            let after = fed(v, samples);
            &&& after.buffer.len() == if all.len() > max {
                max as nat
            } else {
                all.len()
            }
            &&& forall|i: int|
                0 <= i < after.buffer.len() ==> #[trigger] after.buffer[i] == all[all.len()
                    - after.buffer.len() + i]
            &&& after.sliding <==> v.sliding || all.len() > max
            &&& after.config == v.config
            &&& after.parts == v.parts
            &&& after.prev_whisper == v.prev_whisper
            &&& after.last_words == v.last_words
            &&& after.confirmed_words == v.confirmed_words
            &&& after.last_delta_words == v.last_delta_words
        }),
{
}

/// A recording begins with nothing heard and nothing committed.
pub proof fn recordings_begin_empty<T>(config: SlidingWindowConfig)
    ensures
        blank::<T>(config).config == config,
        blank::<T>(config).buffer.len() == 0,
        !blank::<T>(config).sliding,
        blank::<T>(config).parts.len() == 0,
        blank::<T>(config).prev_whisper.len() == 0,
        blank::<T>(config).last_words.len() == 0,
        blank::<T>(config).confirmed_words.len() == 0,
        blank::<T>(config).last_delta_words.len() == 0,
{
}

/// The first `n` words of two lists agree, and no more do.
pub open spec fn agree_up_to(a: Seq<Seq<char>>, b: Seq<Seq<char>>, n: nat) -> bool {
    &&& n <= a.len()
    &&& n <= b.len()
    &&& forall|j: int| 0 <= j < n ==> same_word(#[trigger] a[j], b[j])
    &&& n < a.len() && n < b.len() ==> !same_word(a[n as int], b[n as int])
}

/// The common beginning of two lists is as long as their words agree.
pub proof fn common_prefix_is_the_agreement(a: Seq<Seq<char>>, b: Seq<Seq<char>>, n: nat)
    requires
        agree_up_to(a, b, n),
    ensures
        common_prefix(a, b) == n,
{
    lemma_common_prefix_bounds(a, b);
    let m = common_prefix(a, b);
    if m < n {
        assert(same_word(a[m as int], b[m as int]));
    }
    if n < m {
        assert(same_word(a[n as int], b[n as int]));
    }
}

/// Text that can be committed: it says something, and is not the very text that was committed
/// last.
pub open spec fn committable_after(parts: Seq<Seq<char>>, new: Seq<char>) -> bool {
    new.len() > 0 && !(parts.len() > 0 && new == parts[parts.len() - 1])
}

/// A tick over a growing buffer commits exactly the words in which the transcript agrees with
/// the one before and that come after the confirmed ones, as far as they are fresh, if they are
/// enough; otherwise it only takes note of the transcript.
pub proof fn growing_ticks_commit_what_agrees<T>(
    v: SessionView<T>,
    raw: Seq<char>,
    text: Seq<char>,
    n: nat,
)
    requires
        !v.sliding,
        accepted(raw) == Some(text),
        agree_up_to(v.last_words, words(text), n),
    ensures
        ({
            let known = v.confirmed_words.len();
            let enough = n > known && n - known >= v.config.partial_min_words;
            let agreed = words(text).subrange(known as int, n as int);
            let new = fresh(join(v.parts), join(agreed));
            let noted = SessionView { prev_whisper: text, last_words: words(text), ..v };
            if enough && committable_after(v.parts, new) {
                &&& join(v.parts.push(new)) == join(v.parts) + concat(tick_deltas(v, raw))
                &&& tick_deltas(v, raw).len() == 1
                &&& ticked(v, raw) == (SessionView {
                    parts: v.parts.push(new),
                    confirmed_words: v.confirmed_words + agreed,
                    ..noted
                })
            } else {
                tick_deltas(v, raw).len() == 0 && ticked(v, raw) == noted
            }
        }),
{
    common_prefix_is_the_agreement(v.last_words, words(text), n);
    tick_types_the_difference(v, raw);
}

/// The words of a transcript that certainly come after the texts in `parts`, by the last twenty
/// words of those.
pub open spec fn certain_words(parts: Seq<Seq<char>>, text: Seq<char>) -> Seq<Seq<char>> {
    let tail = join(last_n(words(join(parts)), 20));
    if certain_news(tail, text) is Some {
        words(certain_news(tail, text)->0)
    } else {
        seq![]
    }
}

/// A tick in a sliding window commits exactly the words that certainly come after the committed
/// text and that did so in the pass before too, as far as they are fresh, if they are enough;
/// what is left of the transcript after that is what is pending for the next pass.
pub proof fn sliding_ticks_commit_what_agrees<T>(
    v: SessionView<T>,
    raw: Seq<char>,
    text: Seq<char>,
    n: nat,
)
    requires
        v.sliding,
        accepted(raw) == Some(text),
        agree_up_to(v.last_delta_words, certain_words(v.parts, text), n),
    ensures
        ({
            let delta = certain_words(v.parts, text);
            let enough = v.last_delta_words.len() > 0 && delta.len() > 0 && n
                >= v.config.partial_min_words;
            let new = fresh(join(v.parts), join(delta.take(n as int)));
            let noted = SessionView { prev_whisper: text, last_words: words(text), ..v };
            if enough && committable_after(v.parts, new) {
                &&& join(v.parts.push(new)) == join(v.parts) + concat(tick_deltas(v, raw))
                &&& tick_deltas(v, raw).len() == 1
                &&& ticked(v, raw) == (SessionView {
                    parts: v.parts.push(new),
                    last_delta_words: certain_words(v.parts.push(new), text),
                    ..noted
                })
            } else {
                &&& tick_deltas(v, raw).len() == 0
                &&& ticked(v, raw) == (SessionView { last_delta_words: delta, ..noted })
            }
        }),
{
    common_prefix_is_the_agreement(v.last_delta_words, certain_words(v.parts, text), n);
    tick_types_the_difference(v, raw);
}

/// The last pass commits exactly what is new after the last twenty committed words, guessed
/// where it has to be, as far as it is fresh.
pub proof fn flush_commits_the_news<T>(v: SessionView<T>, raw: Seq<char>, text: Seq<char>)
    requires
        accepted(raw) == Some(text),
    ensures
        ({
            let emitted = join(v.parts);
            let rest = trim(news(join(last_n(words(emitted), 20)), text));
            let new = fresh(emitted, rest);
            if new.len() > 0 {
                &&& flushed(v, raw) == (SessionView { parts: v.parts.push(new), ..v })
                &&& flush_delta(v, raw) is Some
                &&& join(v.parts.push(new)) == emitted + flush_delta(v, raw)->0
            } else {
                flushed(v, raw) == v && flush_delta(v, raw) is None
            }
        }),
{
    flush_types_the_difference(v, raw);
}

} // verus!
