//! Laws of comparing a transcript with the text before it.

use crate::diff::{
    among, bare, certain_news, common_prefix, fresh, last_n, lemma_common_prefix_bounds,
    lemma_walk_bounds, lemma_walk_done, lemma_words_of_prefix, longest_overlap, lookback, news,
    overlap_within, overlaps, restated, same_word, same_words, settled, walk,
    SLIDING_DIFF_LOOKBACK_WORDS, WORD_PUNCTUATION,
};
use crate::laws::text::{
    lemma_solid_subrange, lemma_trim_end_of_lowercase, lemma_trim_end_of_prefix,
    trim_cleans_both_ends, trim_end_of_takes_the_set_off, words_of_cut, words_of_join,
};
use crate::text::{
    ascii_lower, ascii_lowercase, join, lemma_words_solid, lowercase, trim, trim_end_of, words,
};
use vstd::prelude::*;
use vstd::utf8::is_ascii_chars;

verus! {

/// Being the same word is an equivalence.
pub proof fn same_word_is_an_equivalence(a: Seq<char>, b: Seq<char>, c: Seq<char>)
    ensures
        same_word(a, a),
        same_word(a, b) == same_word(b, a),
        same_word(a, b) && same_word(b, c) ==> same_word(a, c),
{
}

/// Punctuation at its end does not make a word another word.
pub proof fn same_word_ignores_punctuation(w: Seq<char>, mark: char)
    requires
        WORD_PUNCTUATION@.contains(mark),
    ensures
        same_word(w, w.push(mark)),
{
    assert(w.push(mark).drop_last() =~= w);
}

/// None of the punctuation marks is a letter.
proof fn lemma_word_punctuation_is_not_letters()
    ensures
        forall|c: char| #[trigger] WORD_PUNCTUATION@.contains(c) ==> !('A' <= c <= 'Z') && !('a'
            <= c <= 'z'),
{
    assert(WORD_PUNCTUATION@ =~= seq!['.', ',', '!', '?', ';', ':']);
}

/// The case of its letters does not make an ASCII word another word.
pub proof fn same_word_ignores_ascii_case(a: Seq<char>, b: Seq<char>)
    requires
        is_ascii_chars(a),
        is_ascii_chars(b),
        ascii_lowercase(a) == ascii_lowercase(b),
    ensures
        same_word(a, b),
{
    lemma_word_punctuation_is_not_letters();
    lemma_ascii_bare(a);
    lemma_ascii_bare(b);
}

/// What is compared of an ASCII word is its lower-case form without the punctuation.
proof fn lemma_ascii_bare(w: Seq<char>)
    requires
        is_ascii_chars(w),
    ensures
        bare(w) == trim_end_of(ascii_lowercase(w), WORD_PUNCTUATION@),
{
    lemma_word_punctuation_is_not_letters();
    lemma_trim_end_of_lowercase(w, WORD_PUNCTUATION@);
    lemma_trim_end_of_prefix(w, WORD_PUNCTUATION@);
    let t = trim_end_of(w, WORD_PUNCTUATION@);
    assert(is_ascii_chars(t)) by {
        assert forall|i: int| 0 <= i < t.len() implies 0 <= #[trigger] t[i] < 128 by {
            assert(t[i] == w.subrange(0, t.len() as int)[i]);
        }
    }
}

/// The common prefix does not depend on which list comes first, and a list has all of itself in
/// common with itself.
pub proof fn common_prefix_is_symmetric(a: Seq<Seq<char>>, b: Seq<Seq<char>>)
    ensures
        common_prefix(a, b) == common_prefix(b, a),
        common_prefix(a, a) == a.len(),
{
    lemma_common_prefix_bounds(a, b);
    lemma_common_prefix_bounds(b, a);
    lemma_common_prefix_bounds(a, a);
    let m = common_prefix(a, b);
    let n = common_prefix(b, a);
    if m < n {
        assert(same_word(b[m as int], a[m as int]));
    }
    if n < m {
        assert(same_word(a[n as int], b[n as int]));
    }
}

/// The last words of a text, joined, have just those words: asking for `n` gives `n`, or all
/// where there are fewer.
pub proof fn last_words_are_kept(text: Seq<char>, n: nat)
    ensures
        words(join(last_n(words(text), n))) == last_n(words(text), n),
        last_n(words(text), n).len() == if words(text).len() < n {
            words(text).len()
        } else {
            n
        },
{
    let ws = words(text);
    lemma_words_solid(text);
    if ws.len() > n {
        lemma_solid_subrange(ws, ws.len() - n, ws.len() as int);
        assert(ws.skip(ws.len() - n) =~= ws.subrange(ws.len() - n, ws.len() as int));
    }
    words_of_join(last_n(ws, n));
}

/// What [`overlap_within`] finds is an overlap, and there is no longer one within the limit.
proof fn lemma_overlap_within(prev: Seq<Seq<char>>, curr: Seq<Seq<char>>, limit: nat, n: nat)
    ensures
        overlap_within(prev, curr, limit) <= limit,
        overlap_within(prev, curr, limit) > 0 ==> overlaps(
            prev,
            curr,
            overlap_within(prev, curr, limit),
        ),
        n <= limit && overlaps(prev, curr, n) ==> n <= overlap_within(prev, curr, limit),
    decreases limit,
{
    if limit > 0 && !overlaps(prev, curr, limit) {
        lemma_overlap_within(prev, curr, (limit - 1) as nat, n);
    }
}

/// The longest overlap is an overlap, and there is no longer one.
pub proof fn longest_overlap_is_longest(prev: Seq<Seq<char>>, curr: Seq<Seq<char>>, n: nat)
    ensures
        overlaps(prev, curr, longest_overlap(prev, curr)),
        overlaps(prev, curr, n) ==> n <= longest_overlap(prev, curr),
{
    let limit = if prev.len() <= curr.len() {
        prev.len()
    } else {
        curr.len()
    };
    lemma_overlap_within(prev, curr, limit, n);
}

/// The words of `a` come up in `b` in their order, with others between them.
pub open spec fn embeds(a: Seq<Seq<char>>, b: Seq<Seq<char>>) -> bool
    decreases b.len(),
{
    if a.len() == 0 {
        true
    } else if b.len() == 0 {
        false
    } else {
        ||| embeds(a, b.drop_last())
        ||| same_word(a.last(), b.last()) && embeds(a.drop_last(), b.drop_last())
    }
}

/// A walk finds as many words of `prev` as any way of finding them in order, and in as few words
/// of `curr` as any.
pub proof fn walk_goes_furthest(prev: Seq<Seq<char>>, curr: Seq<Seq<char>>, k: nat)
    requires
        k <= prev.len(),
    ensures
        walk(prev, curr).0 <= prev.len(),
        walk(prev, curr).1 <= curr.len(),
        embeds(prev.take(walk(prev, curr).0 as int), curr.take(walk(prev, curr).1 as int)),
        embeds(prev.take(k as int), curr) <==> k <= walk(prev, curr).0,
        walk(prev, curr).1 > 0 ==> !embeds(
            prev.take(walk(prev, curr).0 as int),
            curr.take(walk(prev, curr).1 - 1),
        ),
    decreases curr.len(),
{
    lemma_walk_bounds(prev, curr);
    let (met, end) = walk(prev, curr);
    if curr.len() > 0 {
        let shorter = curr.drop_last();
        let (met0, end0) = walk(prev, shorter);
        lemma_walk_bounds(prev, shorter);
        walk_goes_furthest(prev, shorter, k);
        assert(shorter.take(end0 as int) =~= curr.take(end0 as int));
        if end0 > 0 {
            assert(shorter.take(end0 - 1) =~= curr.take(end0 - 1));
        }
        if met < prev.len() || met > met0 {
            if met0 < prev.len() && same_word(prev[met0 as int], curr.last()) {
                assert(prev.take(met as int).drop_last() =~= prev.take(met0 as int));
                assert(curr.take(end as int) =~= curr);
                walk_goes_furthest(prev, shorter, met0);
                walk_goes_furthest(prev, shorter, met);
                assert(curr.take(end - 1) =~= shorter);
            }
        }
        if k > 0 {
            walk_goes_furthest(prev, shorter, (k - 1) as nat);
            assert(prev.take(k as int).drop_last() =~= prev.take(k - 1));
            assert(prev.take(k as int).last() == prev[k - 1]);
        }
    }
}

/// What comes after the text before it is what is new: a transcript that begins with the words
/// of `prev` and goes on gives the words it goes on with, and nothing where it does not go on.
pub proof fn continuation_is_news(prev: Seq<char>, curr: Seq<char>)
    requires
        words(prev).len() > 0,
        words(prev).len() <= words(curr).len(),
        same_words(words(prev), words(curr).take(words(prev).len() as int)),
    ensures
        certain_news(prev, curr) == Some(join(words(curr).skip(words(prev).len() as int))),
        news(prev, curr) == join(words(curr).skip(words(prev).len() as int)),
        words(news(prev, curr)) == words(curr).skip(words(prev).len() as int),
{
    let p = words(prev);
    let c = words(curr);
    assert(p.skip(p.len() - p.len()) =~= p);
    assert(overlaps(p, c, p.len()));
    longest_overlap_is_longest(p, c, p.len());
    lemma_words_solid(curr);
    lemma_solid_subrange(c, p.len() as int, c.len() as int);
    assert(c.skip(p.len() as int) =~= c.subrange(p.len() as int, c.len() as int));
    words_of_join(c.skip(p.len() as int));
}

/// A text is not news to itself.
pub proof fn restatement_is_no_news(text: Seq<char>)
    requires
        words(text).len() > 0,
    ensures
        certain_news(text, text) == Some(Seq::<char>::empty()),
        news(text, text) == Seq::<char>::empty(),
{
    let ws = words(text);
    assert(ws.take(ws.len() as int) =~= ws);
    continuation_is_news(text, text);
    assert(ws.skip(ws.len() as int) =~= seq![]);
}

/// Where a match is found, the guess by length is not asked.
pub proof fn certainty_wins(prev: Seq<char>, curr: Seq<char>)
    ensures
        certain_news(prev, curr) matches Some(text) ==> news(prev, curr) == text,
{
}

/// `text` is an end of `curr`: its last words, or what follows one of its characters.
pub open spec fn ends(curr: Seq<char>, text: Seq<char>) -> bool {
    ||| exists|k: int| 0 <= k <= words(curr).len() && words(text) == #[trigger] words(curr).skip(k)
    ||| exists|k: int| 0 <= k <= curr.len() && text == trim(#[trigger] curr.skip(k))
}

/// Only what `curr` ends in is ever taken for news.
pub proof fn news_is_an_end(prev: Seq<char>, curr: Seq<char>)
    ensures
        ends(curr, news(prev, curr)),
        certain_news(prev, curr) matches Some(text) ==> ends(curr, text),
{
    let p = words(prev);
    let c = words(curr);
    lemma_words_solid(curr);
    lemma_walk_bounds(p, c);
    longest_overlap_is_longest(p, c, 0);
    assert forall|k: int| 0 <= k <= c.len() implies words(join(#[trigger] c.skip(k))) == c.skip(
        k,
    ) by {
        lemma_solid_subrange(c, k, c.len() as int);
        assert(c.skip(k) =~= c.subrange(k, c.len() as int));
        words_of_join(c.skip(k));
    }
    if p.len() == 0 || c.len() == 0 {
        assert(c.skip(0) =~= c);
    } else if longest_overlap(p, c) > 0 {
        assert(c.skip(longest_overlap(p, c) as int).len() >= 0);
    } else if prev.is_prefix_of(curr) {
        assert(curr.skip(prev.len() as int).len() >= 0);
    } else if 2 * walk(p, c).0 >= p.len() {
        assert(c.skip(walk(p, c).1 as int).len() >= 0);
    } else if c.len() <= p.len() + 1 {
        assert(c.skip(c.len() as int) =~= seq![]);
    } else {
        assert(c.skip(p.len() as int).len() >= 0);
    }
}

/// The guard drops whole words at the beginning, none that was never committed, and leaves the
/// rest word for word.
pub proof fn only_committed_words_are_dropped(emitted: Seq<char>, candidate: Seq<char>)
    ensures
        ({
            let c = words(candidate);
            let n = restated(emitted, candidate);
            &&& n <= c.len()
            &&& words(fresh(emitted, candidate)) == c.skip(n as int)
            &&& n == 0 ==> fresh(emitted, candidate) == candidate
            &&& forall|i: int| 0 <= i < n ==> among(#[trigger] c[i], words(emitted))
        }),
{
    let c = words(candidate);
    let p = words(lookback(emitted));
    longest_overlap_is_longest(p, c, 0);
    lemma_walk_bounds(p, c);
    if p.len() > 0 && lookback(emitted).is_prefix_of(candidate) {
        lemma_words_of_prefix(lookback(emitted), candidate);
    }
    let n = restated(emitted, candidate);
    assert forall|i: int| 0 <= i < n implies among(#[trigger] c[i], words(emitted)) by {
        assert(among(c.take(n as int)[i], words(emitted)));
    }
    lemma_words_solid(candidate);
    lemma_solid_subrange(c, n as int, c.len() as int);
    assert(c.skip(n as int) =~= c.subrange(n as int, c.len() as int));
    words_of_join(c.skip(n as int));
    assert(c.skip(0) =~= c);
}

/// Where a candidate begins with words that the committed text ends in, the longest such
/// beginning is stripped.
pub proof fn restated_beginning_is_stripped(emitted: Seq<char>, candidate: Seq<char>, n: nat)
    requires
        n > 0,
        overlaps(last_n(words(emitted), SLIDING_DIFF_LOOKBACK_WORDS as nat), words(candidate), n),
    ensures
        restated(emitted, candidate) == longest_overlap(
            last_n(words(emitted), SLIDING_DIFF_LOOKBACK_WORDS as nat),
            words(candidate),
        ),
        n <= restated(emitted, candidate),
{
    let all = words(emitted);
    let c = words(candidate);
    last_words_are_kept(emitted, SLIDING_DIFF_LOOKBACK_WORDS as nat);
    let p = words(lookback(emitted));
    longest_overlap_is_longest(p, c, n);
    let m = longest_overlap(p, c);
    assert forall|i: int| 0 <= i < m implies among(#[trigger] c.take(m as int)[i], all) by {
        assert(same_word(p.skip(p.len() - m)[i], c.take(m as int)[i]));
        assert(all[all.len() - m + i] == p.skip(p.len() - m)[i]);
    }
}

/// `curr` begins with the last `q` words of the committed text.
pub open spec fn begins_with_last(emitted: Seq<char>, curr: Seq<char>, q: nat) -> bool {
    &&& 0 < q <= words(emitted).len()
    &&& q <= words(curr).len()
    &&& same_words(last_n(words(emitted), q), words(curr).take(q as int))
}

/// The match of `curr` with the end of the committed text ends where the committed text does,
/// `q` words into `curr`. If those are no more than are looked back at, no longer overlap
/// disturbs the match. If they are more, no short overlap comes before it, `curr` does not begin
/// with what is looked back at, and the walk meets the last word there and no earlier.
pub open spec fn matches_to_the_end(emitted: Seq<char>, curr: Seq<char>, q: nat) -> bool {
    let tail = last_n(words(emitted), SLIDING_DIFF_LOOKBACK_WORDS as nat);
    let c = words(curr);
    &&& begins_with_last(emitted, curr, q)
    &&& if q <= SLIDING_DIFF_LOOKBACK_WORDS {
        longest_overlap(tail, c) == q
    } else {
        &&& longest_overlap(tail, c) == 0
        &&& !lookback(emitted).is_prefix_of(curr)
        &&& walk(tail, c).1 == q
    }
}

/// The last of the words that a walk meets is the last one that it says it met.
proof fn lemma_walk_meets_last(prev: Seq<Seq<char>>, curr: Seq<Seq<char>>)
    ensures
        walk(prev, curr).0 > 0 ==> walk(prev, curr).1 > 0 && same_word(
            prev[walk(prev, curr).0 - 1],
            curr[walk(prev, curr).1 - 1],
        ),
    decreases curr.len(),
{
    if curr.len() > 0 {
        lemma_walk_meets_last(prev, curr.drop_last());
        lemma_walk_bounds(prev, curr.drop_last());
    }
}

/// In a transcript that begins with more of the committed text than is looked back at, a walk
/// meets all words that are looked back at, before the committed text ends.
proof fn lemma_walk_meets_all(emitted: Seq<char>, curr: Seq<char>, q: nat)
    requires
        begins_with_last(emitted, curr, q),
        last_n(words(emitted), SLIDING_DIFF_LOOKBACK_WORDS as nat).len() <= q,
    ensures
        ({
            let tail = last_n(words(emitted), SLIDING_DIFF_LOOKBACK_WORDS as nat);
            &&& walk(tail, words(curr)).0 == tail.len()
            &&& walk(tail, words(curr)).1 <= q
        }),
{
    let all = words(emitted);
    let c = words(curr);
    let p = last_n(all, SLIDING_DIFF_LOOKBACK_WORDS as nat);
    let first = c.take(q as int);
    let start = q - p.len();
    assert(first =~= first.take(start) + first.skip(start));
    assert(same_words(p, first.skip(start))) by {
        assert forall|i: int| 0 <= i < p.len() implies same_word(
            #[trigger] p[i],
            first.skip(start)[i],
        ) by {
            assert(p[i] == last_n(all, q)[start + i]);
            assert(same_word(last_n(all, q)[start + i], first[start + i]));
        }
    }
    lemma_embeds_at_end(p, first.take(start), first.skip(start));
    walk_goes_furthest(p, first, p.len());
    assert(p.take(p.len() as int) =~= p);
    lemma_walk_bounds(p, first);
    lemma_walk_done(p, c, q as int);
}

/// A match that ends where the committed text does leaves what follows, word for word, as the
/// news, and lets the guard strip just the words before.
#[verifier::rlimit(60)]
pub proof fn full_match_leaves_what_follows(emitted: Seq<char>, curr: Seq<char>, q: nat)
    requires
        matches_to_the_end(emitted, curr, q),
    ensures
        certain_news(lookback(emitted), curr) == Some(join(words(curr).skip(q as int))),
        settled(lookback(emitted), curr) == q,
        restated(emitted, curr) == q,
        fresh(emitted, curr) == join(words(curr).skip(q as int)),
{
    let all = words(emitted);
    let c = words(curr);
    last_words_are_kept(emitted, SLIDING_DIFF_LOOKBACK_WORDS as nat);
    if q > SLIDING_DIFF_LOOKBACK_WORDS {
        lemma_walk_meets_all(emitted, curr, q);
    }
    assert forall|i: int| 0 <= i < q implies among(#[trigger] c.take(q as int)[i], all) by {
        assert(same_word(last_n(all, q)[i], c.take(q as int)[i]));
        assert(all[all.len() - q + i] == last_n(all, q)[i]);
    }
}

/// A candidate that restates the last words of the committed text has nothing fresh in it,
/// however many they are; where they are more than are looked back at, their match must end with
/// the candidate.
pub proof fn restated_tail_is_dropped(emitted: Seq<char>, candidate: Seq<char>)
    requires
        begins_with_last(emitted, candidate, words(candidate).len()),
        words(candidate).len() > SLIDING_DIFF_LOOKBACK_WORDS ==> matches_to_the_end(
            emitted,
            candidate,
            words(candidate).len(),
        ),
    ensures
        fresh(emitted, candidate) == Seq::<char>::empty(),
{
    let c = words(candidate);
    let ws = words(emitted);
    let p = last_n(ws, SLIDING_DIFF_LOOKBACK_WORDS as nat);
    if c.len() <= SLIDING_DIFF_LOOKBACK_WORDS {
        assert(p.skip(p.len() - c.len()) =~= last_n(ws, c.len()));
        assert(overlaps(p, c, c.len()));
        longest_overlap_is_longest(p, c, c.len());
    }
    full_match_leaves_what_follows(emitted, candidate, c.len());
    assert(c.skip(c.len() as int) =~= seq![]);
}

/// No two of the words are the same.
pub open spec fn all_different(ws: Seq<Seq<char>>) -> bool {
    forall|i: int, j: int|
        0 <= i < j < ws.len() ==> !same_word(#[trigger] ws[i], #[trigger] ws[j])
}

/// Where no word of the committed text comes up twice in it, a match ends where the committed
/// text does.
#[verifier::rlimit(60)]
pub proof fn different_words_match_to_the_end(emitted: Seq<char>, curr: Seq<char>, q: nat)
    requires
        all_different(words(emitted)),
        begins_with_last(emitted, curr, q),
    ensures
        matches_to_the_end(emitted, curr, q),
{
    let all = words(emitted);
    let c = words(curr);
    let n = SLIDING_DIFF_LOOKBACK_WORDS as nat;
    let p = last_n(all, n);
    last_words_are_kept(emitted, n);
    assert forall|i: int| 0 <= i < q implies same_word(#[trigger] c[i], all[all.len() - q + i]) by {
        assert(same_word(last_n(all, q)[i], c.take(q as int)[i]));
        assert(all[all.len() - q + i] == last_n(all, q)[i]);
    }
    let m = longest_overlap(p, c);
    longest_overlap_is_longest(p, c, q);
    assert(m > 0 ==> m == q) by {
        if m > 0 {
            assert(same_word(p.skip(p.len() - m)[0], c.take(m as int)[0]));
            assert(p.skip(p.len() - m)[0] == all[all.len() - m]);
            assert(same_word(c[0], all[all.len() - q]));
            assert(same_word(all[all.len() - m], all[all.len() - q]));
        }
    }
    if q <= n {
        assert(p.skip(p.len() - q) =~= last_n(all, q));
        assert(overlaps(p, c, q));
    } else {
        lemma_walk_meets_all(emitted, curr, q);
        lemma_walk_meets_last(p, c);
        let end = walk(p, c).1;
        assert(p[p.len() - 1] == all[all.len() - 1]);
        assert(same_word(c[end - 1], all[all.len() - q + end - 1]));
        assert(same_word(all[all.len() - q + end - 1], all[all.len() - 1]));
        if lookback(emitted).is_prefix_of(curr) {
            lemma_words_of_prefix(lookback(emitted), curr);
            assert(c.take(p.len() - 1)[0] == p.drop_last()[0]);
            assert(p[0] == all[all.len() - n]);
            assert(same_word(c[0], all[all.len() - q]));
            assert(same_word(all[all.len() - n], all[all.len() - q]));
        }
    }
}

/// A candidate that begins with a word that was never committed is left as it is.
pub proof fn new_beginning_is_fresh(emitted: Seq<char>, candidate: Seq<char>)
    requires
        words(candidate).len() > 0 ==> !among(words(candidate)[0], words(emitted)),
    ensures
        restated(emitted, candidate) == 0,
        fresh(emitted, candidate) == candidate,
{
    only_committed_words_are_dropped(emitted, candidate);
    if restated(emitted, candidate) > 0 {
        assert(among(words(candidate)[0], words(emitted)));
    }
}

/// Where no text is committed, all of a candidate is fresh.
pub proof fn first_text_is_fresh(candidate: Seq<char>)
    ensures
        lookback(seq![]) == Seq::<char>::empty(),
        fresh(seq![], candidate) == candidate,
        news(seq![], candidate) == candidate,
{
    assert(words(seq![]) =~= seq![]);
}

/// A run of words comes up in a list that has it at its end.
proof fn lemma_embeds_at_end(a: Seq<Seq<char>>, before: Seq<Seq<char>>, b: Seq<Seq<char>>)
    requires
        same_words(a, b),
    ensures
        embeds(a, before + b),
    decreases b.len(),
{
    if b.len() > 0 {
        let whole = before + b;
        assert(whole.drop_last() =~= before + b.drop_last());
        assert(same_word(a[a.len() - 1], b[b.len() - 1]));
        assert forall|i: int| 0 <= i < a.len() - 1 implies same_word(
            #[trigger] a.drop_last()[i],
            b.drop_last()[i],
        ) by {
            assert(same_word(a[i], b[i]));
        }
        lemma_embeds_at_end(a.drop_last(), before, b.drop_last());
    }
}

/// How many words at the beginning of `curr` are not news, or not whole, where the news is
/// certain.
pub open spec fn stripped(prev: Seq<char>, curr: Seq<char>) -> nat {
    let p = words(prev);
    let c = words(curr);
    if p.len() == 0 || c.len() == 0 {
        0
    } else if longest_overlap(p, c) > 0 {
        longest_overlap(p, c)
    } else if prev.is_prefix_of(curr) {
        p.len()
    } else if 2 * walk(p, c).0 >= p.len() {
        walk(p, c).1
    } else {
        0
    }
}

/// The words after those that are stripped are all in the news, at its end.
pub proof fn news_keeps_the_rest(prev: Seq<char>, curr: Seq<char>)
    ensures
        stripped(prev, curr) <= words(curr).len(),
        certain_news(prev, curr) matches Some(text) ==> words(curr).skip(
            stripped(prev, curr) as int,
        ).is_suffix_of(words(text)),
        certain_news(prev, curr) matches Some(text) ==> {
            &&& words(text).len() + stripped(prev, curr) <= words(curr).len() + 1
            &&& longest_overlap(words(prev), words(curr)) > 0 || !prev.is_prefix_of(curr)
                ==> words(text) == words(curr).skip(stripped(prev, curr) as int)
        },
{
    let p = words(prev);
    let c = words(curr);
    let k = stripped(prev, curr);
    lemma_words_solid(curr);
    lemma_walk_bounds(p, c);
    longest_overlap_is_longest(p, c, 0);
    if p.len() > 0 && c.len() > 0 && longest_overlap(p, c) == 0 && prev.is_prefix_of(curr) {
        let rest = curr.skip(prev.len() as int);
        assert(prev + rest =~= curr);
        words_of_cut(prev, rest);
        trim_cleans_both_ends(rest);
        let w = words(trim(rest));
        let tail = c.skip(k as int);
        if tail.len() == w.len() {
            assert(tail =~= w);
        } else {
            assert(tail =~= w.drop_first());
        }
        assert(tail =~= w.subrange(w.len() - tail.len(), w.len() as int));
    } else {
        lemma_solid_subrange(c, k as int, c.len() as int);
        let tail = c.skip(k as int);
        assert(tail =~= c.subrange(k as int, c.len() as int));
        words_of_join(tail);
        assert(tail =~= tail.subrange(0, tail.len() as int));
        assert(c =~= c.skip(0));
    }
}

/// Nothing that follows the committed text is missed: where a transcript begins with the last
/// words of the committed text, however many, and no overlap goes beyond them, all words after
/// them are in what is found to be new, at its end.
pub proof fn nothing_after_is_missed(emitted: Seq<char>, curr: Seq<char>, q: nat)
    requires
        begins_with_last(emitted, curr, q),
        longest_overlap(
            last_n(words(emitted), SLIDING_DIFF_LOOKBACK_WORDS as nat),
            words(curr),
        ) <= q,
    ensures
        certain_news(lookback(emitted), curr) is Some,
        0 < stripped(lookback(emitted), curr) <= q,
        words(curr).skip(q as int).is_suffix_of(words(news(lookback(emitted), curr))),
{
    let all = words(emitted);
    let c = words(curr);
    let n = SLIDING_DIFF_LOOKBACK_WORDS as nat;
    last_words_are_kept(emitted, n);
    let p = last_n(all, n);
    longest_overlap_is_longest(p, c, q);
    if q < p.len() {
        assert(p.skip(p.len() - q) =~= last_n(all, q));
        assert(overlaps(p, c, q));
    } else {
        lemma_walk_meets_all(emitted, curr, q);
        lemma_walk_meets_last(p, c);
    }
    news_keeps_the_rest(lookback(emitted), curr);
    let k = stripped(lookback(emitted), curr);
    let w = words(news(lookback(emitted), curr));
    let tail = c.skip(q as int);
    assert(tail =~= w.subrange(w.len() - tail.len(), w.len() as int)) by {
        let longer = c.skip(k as int);
        assert(longer =~= w.subrange(w.len() - longer.len(), w.len() as int));
        assert forall|i: int| 0 <= i < tail.len() implies #[trigger] tail[i] == w[w.len()
            - tail.len() + i] by {
            assert(longer[q - k + i] == tail[i]);
        }
    }
}

/// One of the marks that a word may end in without becoming another word.
pub open spec fn word_mark(c: char) -> bool {
    c == '.' || c == ',' || c == '!' || c == '?' || c == ';' || c == ':'
}

/// Those are the marks that are trimmed off a word.
proof fn lemma_word_marks(c: char)
    ensures
        WORD_PUNCTUATION@.contains(c) == word_mark(c),
{
    assert(WORD_PUNCTUATION@ =~= seq!['.', ',', '!', '?', ';', ':']);
    if word_mark(c) {
        assert(WORD_PUNCTUATION@[0] == '.' && WORD_PUNCTUATION@[1] == ',' && WORD_PUNCTUATION@[2]
            == '!' && WORD_PUNCTUATION@[3] == '?' && WORD_PUNCTUATION@[4] == ';'
            && WORD_PUNCTUATION@[5] == ':');
    }
}

/// What is compared of a word with marks at its end is all of what is before them.
proof fn lemma_bare_of_marked(x: Seq<char>, m: Seq<char>)
    requires
        x.len() > 0 ==> !word_mark(x.last()),
        forall|i: int| 0 <= i < m.len() ==> word_mark(#[trigger] m[i]),
    ensures
        bare(x + m) == lowercase(x),
{
    if x.len() > 0 {
        lemma_word_marks(x.last());
    }
    assert forall|i: int| 0 <= i < m.len() implies WORD_PUNCTUATION@.contains(#[trigger] m[i]) by {
        lemma_word_marks(m[i]);
    }
    trim_end_of_takes_the_set_off(x, m, WORD_PUNCTUATION@);
}

/// Two words are the same if and only if, without the marks at their ends, they have the same
/// lower-case form, all of it.
pub proof fn same_word_compares_whole_words(
    x: Seq<char>,
    m: Seq<char>,
    y: Seq<char>,
    n: Seq<char>,
)
    requires
        x.len() > 0 ==> !word_mark(x.last()),
        y.len() > 0 ==> !word_mark(y.last()),
        forall|i: int| 0 <= i < m.len() ==> word_mark(#[trigger] m[i]),
        forall|i: int| 0 <= i < n.len() ==> word_mark(#[trigger] n[i]),
    ensures
        same_word(x + m, y + n) <==> lowercase(x) == lowercase(y),
{
    lemma_bare_of_marked(x, m);
    lemma_bare_of_marked(y, n);
}

/// Two ASCII words are the same if and only if, without the marks at their ends, they are of the
/// same length and agree letter by letter up to case.
pub proof fn ascii_words_agree_letter_by_letter(
    x: Seq<char>,
    m: Seq<char>,
    y: Seq<char>,
    n: Seq<char>,
)
    requires
        is_ascii_chars(x),
        is_ascii_chars(y),
        x.len() > 0 ==> !word_mark(x.last()),
        y.len() > 0 ==> !word_mark(y.last()),
        forall|i: int| 0 <= i < m.len() ==> word_mark(#[trigger] m[i]),
        forall|i: int| 0 <= i < n.len() ==> word_mark(#[trigger] n[i]),
    ensures
        same_word(x + m, y + n) <==> x.len() == y.len() && (forall|i: int|
            0 <= i < x.len() ==> ascii_lower(#[trigger] x[i]) == ascii_lower(y[i])),
{
    same_word_compares_whole_words(x, m, y, n);
    let a = ascii_lowercase(x);
    let b = ascii_lowercase(y);
    assert(a.len() == x.len() && b.len() == y.len());
    if a == b {
        assert forall|i: int| 0 <= i < x.len() implies ascii_lower(#[trigger] x[i]) == ascii_lower(
            y[i],
        ) by {
            assert(a[i] == b[i]);
        }
    }
    if x.len() == y.len() && (forall|i: int|
        0 <= i < x.len() ==> ascii_lower(#[trigger] x[i]) == ascii_lower(y[i])) {
        assert(a =~= b);
    }
}

/// Lists hold the same words if and only if their pieces do; single words are compared as words;
/// lists of different lengths never hold the same words.
pub proof fn same_words_go_by_pieces(
    a: Seq<Seq<char>>,
    b: Seq<Seq<char>>,
    x: Seq<char>,
    y: Seq<char>,
)
    ensures
        same_words(seq![], seq![]),
        a.len() != b.len() ==> !same_words(a, b),
        a.len() == b.len() ==> (same_words(a.push(x), b.push(y)) <==> same_words(a, b)
            && same_word(x, y)),
{
    if a.len() == b.len() {
        let c = a.push(x);
        let d = b.push(y);
        assert(c[a.len() as int] == x && d[a.len() as int] == y);
        if same_words(c, d) {
            assert forall|i: int| 0 <= i < a.len() implies same_word(#[trigger] a[i], b[i]) by {
                assert(c[i] == a[i] && d[i] == b[i]);
                assert(same_word(c[i], d[i]));
            }
            assert(same_word(c[a.len() as int], d[a.len() as int]));
        }
    }
}

/// The last items are what the list ends in: `n` of them, or all where there are fewer.
pub proof fn last_n_is_the_end<A>(before: Seq<A>, last: Seq<A>, n: nat)
    requires
        last.len() == n || before.len() == 0 && last.len() <= n,
    ensures
        last_n(before + last, n) == last,
{
    assert(last_n(before + last, n) =~= last);
}

/// An overlap is what the one list ends in and the other begins with.
pub proof fn overlaps_are_shared_ends(
    before: Seq<Seq<char>>,
    end: Seq<Seq<char>>,
    start: Seq<Seq<char>>,
    after: Seq<Seq<char>>,
    n: nat,
)
    requires
        end.len() == start.len(),
    ensures
        overlaps(before + end, start + after, end.len()) <==> same_words(end, start),
        n > (before + end).len() || n > (start + after).len() ==> !overlaps(
            before + end,
            start + after,
            n,
        ),
{
    assert((before + end).skip((before + end).len() - end.len()) =~= end);
    assert((start + after).take(end.len() as int) =~= start);
}

/// The places `at` in `b` hold the words of `a`, in their order.
pub open spec fn in_order(a: Seq<Seq<char>>, b: Seq<Seq<char>>, at: Seq<int>) -> bool {
    &&& at.len() == a.len()
    &&& forall|i: int|
        0 <= i < a.len() ==> 0 <= #[trigger] at[i] < b.len() && same_word(a[i], b[at[i]])
    &&& forall|i: int, j: int| 0 <= i < j < a.len() ==> #[trigger] at[i] < #[trigger] at[j]
}

/// The places where the words of `a` come up in `b`.
proof fn lemma_embeds_has_places(a: Seq<Seq<char>>, b: Seq<Seq<char>>) -> (at: Seq<int>)
    requires
        embeds(a, b),
    ensures
        in_order(a, b, at),
    decreases b.len(),
{
    if a.len() == 0 {
        seq![]
    } else if embeds(a, b.drop_last()) {
        let at = lemma_embeds_has_places(a, b.drop_last());
        assert forall|i: int| 0 <= i < a.len() implies 0 <= #[trigger] at[i] < b.len() && same_word(
            a[i],
            b[at[i]],
        ) by {
            assert(b.drop_last()[at[i]] == b[at[i]]);
        }
        at
    } else {
        let before = lemma_embeds_has_places(a.drop_last(), b.drop_last());
        let at = before.push(b.len() - 1);
        assert forall|i: int| 0 <= i < a.len() implies 0 <= #[trigger] at[i] < b.len() && same_word(
            a[i],
            b[at[i]],
        ) by {
            if i < a.len() - 1 {
                assert(at[i] == before[i]);
                assert(a.drop_last()[i] == a[i]);
                assert(b.drop_last()[before[i]] == b[before[i]]);
            }
        }
        assert forall|i: int, j: int| 0 <= i < j < a.len() implies #[trigger] at[i]
            < #[trigger] at[j] by {
            assert(at[i] == before[i]);
            if j < a.len() - 1 {
                assert(at[j] == before[j]);
            }
        }
        at
    }
}

/// Words come up in a list in their order if and only if there are places in it, one after
/// another, that hold them.
pub proof fn embedding_is_by_places(a: Seq<Seq<char>>, b: Seq<Seq<char>>)
    ensures
        embeds(a, b) <==> exists|at: Seq<int>| in_order(a, b, at),
    decreases b.len(),
{
    if embeds(a, b) {
        let at = lemma_embeds_has_places(a, b);
        assert(in_order(a, b, at));
    }
    if exists|at: Seq<int>| in_order(a, b, at) {
        let at = choose|at: Seq<int>| in_order(a, b, at);
        lemma_places_embed(a, b, at);
    }
}

/// Words that have places in a list, one after another, come up in it in their order.
proof fn lemma_places_embed(a: Seq<Seq<char>>, b: Seq<Seq<char>>, at: Seq<int>)
    requires
        in_order(a, b, at),
    ensures
        embeds(a, b),
    decreases b.len(),
{
    if a.len() > 0 {
        let l = a.len() - 1;
        assert(0 <= at[l] < b.len());
        let s = b.drop_last();
        if at[l] < b.len() - 1 {
            assert forall|i: int| 0 <= i < a.len() implies 0 <= #[trigger] at[i] < s.len()
                && same_word(a[i], s[at[i]]) by {
                if i < l {
                    assert(at[i] < at[l]);
                }
                assert(s[at[i]] == b[at[i]]);
            }
            lemma_places_embed(a, s, at);
        } else {
            let before = at.drop_last();
            let x = a.drop_last();
            assert forall|i: int| 0 <= i < x.len() implies 0 <= #[trigger] before[i] < s.len()
                && same_word(x[i], s[before[i]]) by {
                assert(before[i] == at[i]);
                assert(at[i] < at[l]);
                assert(s[at[i]] == b[at[i]]);
            }
            assert forall|i: int, j: int| 0 <= i < j < x.len() implies #[trigger] before[i]
                < #[trigger] before[j] by {
                assert(at[i] < at[j]);
            }
            lemma_places_embed(x, s, before);
        }
    }
}

/// What comes up in a beginning of a list comes up in a longer one.
proof fn lemma_embeds_in_longer(a: Seq<Seq<char>>, b: Seq<Seq<char>>, m: int, n: int)
    requires
        0 <= m <= n <= b.len(),
        embeds(a, b.take(m)),
    ensures
        embeds(a, b.take(n)),
    decreases n - m,
{
    if m < n {
        assert(b.take(m + 1).drop_last() =~= b.take(m));
        assert(embeds(a, b.take(m + 1)));
        lemma_embeds_in_longer(a, b, m + 1, n);
    }
}

/// No end of `prev` is a beginning of `curr`, and `curr` does not begin with `prev`, character
/// for character.
pub open spec fn unmatched(prev: Seq<char>, curr: Seq<char>) -> bool {
    &&& words(prev).len() > 0
    &&& words(curr).len() > 0
    &&& forall|n: nat| n > 0 ==> !#[trigger] overlaps(words(prev), words(curr), n)
    &&& !prev.is_prefix_of(curr)
}

/// Of the words of `prev` the first `k` come up in `curr` in their order, and no more do; and
/// they do so within the first `end` words of `curr`, and not within fewer.
pub open spec fn reaches(prev: Seq<char>, curr: Seq<char>, k: nat, end: nat) -> bool {
    let p = words(prev);
    let c = words(curr);
    &&& k <= p.len()
    &&& end <= c.len()
    &&& embeds(p.take(k as int), c.take(end as int))
    &&& k < p.len() ==> !embeds(p.take((k + 1) as int), c)
    &&& end > 0 ==> !embeds(p.take(k as int), c.take(end - 1))
}

/// The walk is what reaches furthest.
proof fn lemma_reach_is_the_walk(prev: Seq<char>, curr: Seq<char>, k: nat, end: nat)
    requires
        reaches(prev, curr, k, end),
    ensures
        walk(words(prev), words(curr)) == (k, end),
{
    let p = words(prev);
    let c = words(curr);
    let (met, last) = walk(p, c);
    assert(c.take(c.len() as int) =~= c);
    lemma_embeds_in_longer(p.take(k as int), c, end as int, c.len() as int);
    walk_goes_furthest(p, c, k);
    if k < p.len() {
        walk_goes_furthest(p, c, k + 1);
    }
    assert(met == k);
    if end < last {
        lemma_embeds_in_longer(p.take(k as int), c, end as int, last - 1);
    }
    if last < end {
        lemma_embeds_in_longer(p.take(k as int), c, last as int, end - 1);
    }
}

/// Where nothing else matches, the position in `curr` is trusted if and only if at least half of
/// the words of `prev` come up in it in their order, all of them or not: what follows the last
/// of them there is the news, and otherwise no match is found.
pub proof fn half_of_the_words_make_a_match(prev: Seq<char>, curr: Seq<char>, k: nat, end: nat)
    requires
        unmatched(prev, curr),
        reaches(prev, curr, k, end),
    ensures
        2 * k >= words(prev).len() ==> certain_news(prev, curr) == Some(
            join(words(curr).skip(end as int)),
        ),
        2 * k < words(prev).len() ==> certain_news(prev, curr) == None::<Seq<char>>,
{
    lemma_reach_is_the_walk(prev, curr, k, end);
    longest_overlap_is_longest(words(prev), words(curr), 0);
    let m = longest_overlap(words(prev), words(curr));
    assert(m > 0 ==> !overlaps(words(prev), words(curr), m));
}

/// Where the words of `prev` end in those that `curr` begins with, `n` at the most, what follows
/// those `n` words is the news.
pub proof fn longest_overlap_makes_a_match(prev: Seq<char>, curr: Seq<char>, n: nat)
    requires
        n > 0,
        overlaps(words(prev), words(curr), n),
        forall|m: nat| m > n ==> !#[trigger] overlaps(words(prev), words(curr), m),
    ensures
        certain_news(prev, curr) == Some(join(words(curr).skip(n as int))),
{
    longest_overlap_is_longest(words(prev), words(curr), n);
    let m = longest_overlap(words(prev), words(curr));
    assert(m > n ==> !overlaps(words(prev), words(curr), m));
}

/// Where no end of `prev` is a beginning of `curr`, and `curr` is `prev` with something added,
/// what was added is the news, without the white space around it.
pub proof fn verbatim_prefix_makes_a_match(prev: Seq<char>, added: Seq<char>)
    requires
        words(prev).len() > 0,
        forall|n: nat| n > 0 ==> !#[trigger] overlaps(words(prev), words(prev + added), n),
    ensures
        certain_news(prev, prev + added) == Some(trim(added)),
{
    let curr = prev + added;
    longest_overlap_is_longest(words(prev), words(curr), 0);
    let m = longest_overlap(words(prev), words(curr));
    assert(m > 0 ==> !overlaps(words(prev), words(curr), m));
    assert(prev =~= curr.subrange(0, prev.len() as int));
    assert(curr.skip(prev.len() as int) =~= added);
    lemma_words_of_prefix(prev, curr);
}

/// Where there are no words before, or none now, all of `curr` is the news, as it is.
pub proof fn without_words_all_is_news(prev: Seq<char>, curr: Seq<char>)
    requires
        words(prev).len() == 0 || words(curr).len() == 0,
    ensures
        certain_news(prev, curr) == Some(curr),
{
}

/// Where no match is found, the guess is by length: nothing where there is at most one word more
/// than before, else all words beyond the number of those before.
pub proof fn guess_goes_by_length(prev: Seq<char>, curr: Seq<char>)
    requires
        certain_news(prev, curr) is None,
    ensures
        words(curr).len() <= words(prev).len() + 1 ==> news(prev, curr) == Seq::<char>::empty(),
        words(curr).len() > words(prev).len() + 1 ==> news(prev, curr) == join(
            words(curr).skip(words(prev).len() as int),
        ),
{
}

/// Twenty words are looked back at, the last ones, or all where there are fewer.
pub proof fn twenty_words_are_looked_back_at(emitted: Seq<char>)
    ensures
        words(lookback(emitted)) == last_n(words(emitted), 20),
        lookback(emitted) == join(last_n(words(emitted), 20)),
{
    last_words_are_kept(emitted, 20);
}

/// Where the end of the committed text does not match a candidate, the guard leaves the candidate
/// as it is, also where its first words were committed before. It is no match where nothing is
/// shared and the first `h` words looked back at, half of them or fewer, do not come up in the
/// candidate in their order.
pub proof fn unmatched_candidate_is_left_alone(emitted: Seq<char>, candidate: Seq<char>, h: nat)
    requires
        unmatched(lookback(emitted), candidate),
        h <= last_n(words(emitted), 20).len(),
        2 * h <= last_n(words(emitted), 20).len() + 1,
        !embeds(last_n(words(emitted), 20).take(h as int), words(candidate)),
    ensures
        fresh(emitted, candidate) == candidate,
{
    let prev = lookback(emitted);
    let p = words(prev);
    let c = words(candidate);
    twenty_words_are_looked_back_at(emitted);
    walk_goes_furthest(p, c, h);
    longest_overlap_is_longest(p, c, 0);
    let m = longest_overlap(p, c);
    assert(m > 0 ==> !overlaps(p, c, m));
}

/// Where at least half of the words looked back at come up in a candidate in their order, and
/// nothing else matches, the guard drops all up to the last of them if each word that it drops
/// was committed, and otherwise leaves the candidate as it is.
pub proof fn guard_passes_over_committed_words_only(
    emitted: Seq<char>,
    candidate: Seq<char>,
    k: nat,
    end: nat,
)
    requires
        unmatched(lookback(emitted), candidate),
        reaches(lookback(emitted), candidate, k, end),
        2 * k >= last_n(words(emitted), 20).len(),
    ensures
        ({
            let c = words(candidate);
            let all = words(emitted);
            let known = forall|i: int|
                0 <= i < end ==> exists|j: int|
                    0 <= j < all.len() && same_word(#[trigger] all[j], #[trigger] c[i]);
            fresh(emitted, candidate) == if known {
                join(c.skip(end as int))
            } else {
                candidate
            }
        }),
{
    let prev = lookback(emitted);
    let c = words(candidate);
    let all = words(emitted);
    twenty_words_are_looked_back_at(emitted);
    lemma_reach_is_the_walk(prev, candidate, k, end);
    longest_overlap_is_longest(words(prev), c, 0);
    let m = longest_overlap(words(prev), c);
    assert(m > 0 ==> !overlaps(words(prev), c, m));
    assert(end > 0) by {
        if end == 0 {
            embedding_is_by_places(words(prev).take(k as int), c.take(0));
            lemma_walk_meets_last(words(prev), c);
        }
    }
    let known = forall|i: int|
        0 <= i < end ==> exists|j: int|
            0 <= j < all.len() && same_word(#[trigger] all[j], #[trigger] c[i]);
    let first = c.take(end as int);
    if known {
        assert forall|i: int| 0 <= i < first.len() implies among(#[trigger] first[i], all) by {
            assert(first[i] == c[i]);
            let j = choose|j: int| 0 <= j < all.len() && same_word(#[trigger] all[j], c[i]);
            assert(same_word(all[j], first[i]));
        }
    } else {
        let i = choose|i: int|
            0 <= i < end && !(exists|j: int|
                0 <= j < all.len() && same_word(#[trigger] all[j], #[trigger] c[i]));
        assert(first[i] == c[i]);
        assert(!among(first[i], all));
    }
}

/// Where the committed text ends in words that a candidate begins with, `n` of those that are
/// looked back at and no more, the guard strips those.
pub proof fn guard_strips_the_longest_overlap(emitted: Seq<char>, candidate: Seq<char>, n: nat)
    requires
        n > 0,
        overlaps(last_n(words(emitted), 20), words(candidate), n),
        forall|m: nat|
            m > n ==> !#[trigger] overlaps(last_n(words(emitted), 20), words(candidate), m),
    ensures
        fresh(emitted, candidate) == join(words(candidate).skip(n as int)),
{
    restated_beginning_is_stripped(emitted, candidate, n);
    longest_overlap_is_longest(last_n(words(emitted), 20), words(candidate), n);
    let m = longest_overlap(last_n(words(emitted), 20), words(candidate));
    assert(m > n ==> !overlaps(last_n(words(emitted), 20), words(candidate), m));
}

/// Where no end of the committed text is a beginning of a candidate, but the candidate is what is
/// looked back at with something added to its last word, the words before that one are stripped.
pub proof fn guard_cuts_between_words(emitted: Seq<char>, added: Seq<char>)
    requires
        words(emitted).len() > 0,
        forall|n: nat|
            n > 0 ==> !#[trigger] overlaps(
                last_n(words(emitted), 20),
                words(lookback(emitted) + added),
                n,
            ),
    ensures
        ({
            let candidate = lookback(emitted) + added;
            let n = last_n(words(emitted), 20).len();
            fresh(emitted, candidate) == if n > 1 {
                join(words(candidate).skip(n - 1))
            } else {
                candidate
            }
        }),
{
    let prev = lookback(emitted);
    let candidate = prev + added;
    let all = words(emitted);
    let c = words(candidate);
    twenty_words_are_looked_back_at(emitted);
    let p = words(prev);
    longest_overlap_is_longest(p, c, 0);
    let m = longest_overlap(p, c);
    assert(m > 0 ==> !overlaps(p, c, m));
    assert(prev =~= candidate.subrange(0, prev.len() as int));
    lemma_words_of_prefix(prev, candidate);
    let first = c.take(p.len() - 1);
    assert forall|i: int| 0 <= i < first.len() implies among(#[trigger] first[i], all) by {
        assert(first[i] == p.drop_last()[i]);
        assert(all[all.len() - p.len() + i] == p[i]);
        assert(same_word(all[all.len() - p.len() + i], first[i]));
    }
}

/// Where no word was committed, or a candidate has none, the guard leaves it as it is.
pub proof fn guard_needs_words(emitted: Seq<char>, candidate: Seq<char>)
    requires
        words(emitted).len() == 0 || words(candidate).len() == 0,
    ensures
        fresh(emitted, candidate) == candidate,
{
    twenty_words_are_looked_back_at(emitted);
}

} // verus!
