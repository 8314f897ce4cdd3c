//! Finding what a transcript adds to the text that came before it.

use crate::laws::text::words_of_cut;
use crate::text::{
    join, join_range, lowercase, split_words, starts_with, texts, to_lowercase, trim,
    trim_end_matches, trim_end_of, trimmed_from, words,
};
use vstd::prelude::*;
use vstd::slice::slice_subrange;

verus! {

/// The punctuation that a word may end in without becoming another word.
pub const WORD_PUNCTUATION: [char; 6] = ['.', ',', '!', '?', ';', ':'];

/// How many words at the end of the committed text a transcript is compared with.
///
/// It is enough to find where the two overlap, and it is a bound: a transcript covers one
/// window, while the committed text grows for as long as the recording runs.
pub const SLIDING_DIFF_LOOKBACK_WORDS: usize = 20;

/// What is compared of a word: it in lower case, without the punctuation at its end.
pub open spec fn bare(w: Seq<char>) -> Seq<char> {
    lowercase(trim_end_of(w, WORD_PUNCTUATION@))
}

/// Two words are the same up to letter case and the punctuation at their ends.
pub open spec fn same_word(a: Seq<char>, b: Seq<char>) -> bool {
    bare(a) == bare(b)
}

/// `word` in lower case, without the punctuation at its end.
fn bare_word(word: &str) -> (res: String)
    ensures
        res@ == bare(word@),
{
    to_lowercase(trim_end_matches(word, &WORD_PUNCTUATION).as_str())
}

/// Word equality that tolerates what changes between two transcripts of the same speech:
/// letter case and the punctuation at the end of a word.
pub fn word_eq(a: &str, b: &str) -> (res: bool)
    ensures
        res == same_word(a@, b@),
{
    bare_word(a) == bare_word(b)
}

/// Two lists hold the same words, one by one.
pub open spec fn same_words(a: Seq<Seq<char>>, b: Seq<Seq<char>>) -> bool {
    &&& a.len() == b.len()
    &&& forall|i: int| 0 <= i < a.len() ==> same_word(#[trigger] a[i], b[i])
}

/// Tells whether two lists hold the same words, one by one.
pub fn words_match(a: &[String], b: &[String]) -> (res: bool)
    ensures
        res == same_words(texts(a@), texts(b@)),
{
    if a.len() != b.len() {
        return false;
    }
    let mut i: usize = 0;
    while i < a.len()
        invariant
            i <= a@.len() == b@.len(),
            forall|j: int| 0 <= j < i ==> same_word(#[trigger] texts(a@)[j], texts(b@)[j]),
        decreases a@.len() - i,
    {
        if !word_eq(a[i].as_str(), b[i].as_str()) {
            assert(!same_word(texts(a@)[i as int], texts(b@)[i as int]));
            return false;
        }
        i += 1;
    }
    true
}

/// The first index, from `i` on, at which the lists hold different words or one of them ends.
pub open spec fn divergence(a: Seq<Seq<char>>, b: Seq<Seq<char>>, i: nat) -> nat
    decreases a.len() - i,
{
    if i < a.len() && i < b.len() && same_word(a[i as int], b[i as int]) {
        divergence(a, b, i + 1)
    } else {
        i
    }
}

/// How many words the two lists have in common from their beginnings.
pub open spec fn common_prefix(a: Seq<Seq<char>>, b: Seq<Seq<char>>) -> nat {
    divergence(a, b, 0)
}

/// Two lists diverge no later than where one of them ends.
proof fn lemma_divergence_bounds(a: Seq<Seq<char>>, b: Seq<Seq<char>>, i: nat)
    requires
        i <= a.len(),
        i <= b.len(),
    ensures
        i <= divergence(a, b, i) <= a.len(),
        divergence(a, b, i) <= b.len(),
        forall|j: int| i <= j < divergence(a, b, i) ==> same_word(#[trigger] a[j], b[j]),
        divergence(a, b, i) < a.len() && divergence(a, b, i) < b.len() ==> !same_word(
            a[divergence(a, b, i) as int],
            b[divergence(a, b, i) as int],
        ),
    decreases a.len() - i,
{
    if i < a.len() && i < b.len() && same_word(a[i as int], b[i as int]) {
        lemma_divergence_bounds(a, b, i + 1);
    }
}

/// The common prefix ends at the first place where the words differ, or where a list ends.
pub proof fn lemma_common_prefix_bounds(a: Seq<Seq<char>>, b: Seq<Seq<char>>)
    ensures
        common_prefix(a, b) <= a.len(),
        common_prefix(a, b) <= b.len(),
        forall|j: int| 0 <= j < common_prefix(a, b) ==> same_word(#[trigger] a[j], b[j]),
        common_prefix(a, b) < a.len() && common_prefix(a, b) < b.len() ==> !same_word(
            a[common_prefix(a, b) as int],
            b[common_prefix(a, b) as int],
        ),
{
    lemma_divergence_bounds(a, b, 0);
}

/// Counts the words that the two lists have in common from their beginnings.
pub fn common_prefix_len(a: &[String], b: &[String]) -> (res: usize)
    ensures
        res == common_prefix(texts(a@), texts(b@)),
{
    let mut i: usize = 0;
    while i < a.len() && i < b.len() && word_eq(a[i].as_str(), b[i].as_str())
        invariant
            i <= a@.len(),
            i <= b@.len(),
            divergence(texts(a@), texts(b@), i as nat) == common_prefix(texts(a@), texts(b@)),
        decreases a@.len() - i,
    {
        i += 1;
    }
    i
}

/// The last `n` items of `s`, or all of them where there are fewer.
pub open spec fn last_n<A>(s: Seq<A>, n: nat) -> Seq<A> {
    if s.len() <= n {
        s
    } else {
        s.skip(s.len() - n)
    }
}

/// The last `n` words of `text`, or all of them where there are fewer.
pub fn last_n_words(text: &str, n: usize) -> (res: String)
    ensures
        res@ == join(last_n(words(text@), n as nat)),
{
    let list = split_words(text);
    let start: usize = if list.len() > n { list.len() - n } else { 0 };
    assert(texts(list@).subrange(start as int, list@.len() as int)
        =~= last_n(words(text@), n as nat));
    join_range(list.as_slice(), start, list.len())
}

/// The last `n` words of `prev` are the first `n` words of `curr`.
pub open spec fn overlaps(prev: Seq<Seq<char>>, curr: Seq<Seq<char>>, n: nat) -> bool {
    &&& n <= prev.len()
    &&& n <= curr.len()
    &&& same_words(prev.skip(prev.len() - n), curr.take(n as int))
}

/// The largest `n` up to `limit` for which the lists overlap in `n` words.
pub open spec fn overlap_within(prev: Seq<Seq<char>>, curr: Seq<Seq<char>>, limit: nat) -> nat
    decreases limit,
{
    if limit == 0 {
        0
    } else if overlaps(prev, curr, limit) {
        limit
    } else {
        overlap_within(prev, curr, (limit - 1) as nat)
    }
}

/// The largest `n` for which the last `n` words of `prev` are the first `n` words of `curr`.
pub open spec fn longest_overlap(prev: Seq<Seq<char>>, curr: Seq<Seq<char>>) -> nat {
    overlap_within(prev, curr, if prev.len() <= curr.len() { prev.len() } else { curr.len() })
}

/// Counts the words in the longest overlap of the end of `prev` with the beginning of `curr`.
fn overlap_len(prev: &[String], curr: &[String]) -> (res: usize)
    ensures
        res == longest_overlap(texts(prev@), texts(curr@)),
        res <= curr@.len(),
{
    let limit: usize = if prev.len() <= curr.len() { prev.len() } else { curr.len() };
    let mut best: usize = 0;
    let mut n: usize = 0;
    while n < limit
        invariant
            n <= limit <= prev@.len(),
            limit <= curr@.len(),
            best == overlap_within(texts(prev@), texts(curr@), n as nat),
            best <= n,
        decreases limit - n,
    {
        n += 1;
        let suffix = slice_subrange(prev, prev.len() - n, prev.len());
        let prefix = slice_subrange(curr, 0, n);
        assert(texts(suffix@) =~= texts(prev@).skip(prev@.len() - n));
        assert(texts(prefix@) =~= texts(curr@).take(n as int));
        if words_match(suffix, prefix) {
            best = n;
        }
    }
    best
}

/// How far a walk through `curr` gets in `prev` when it takes the words of `prev` one after
/// another, each where it first comes up: the number of words of `prev` that it met, and the
/// number of words of `curr` up to the last one met.
pub open spec fn walk(prev: Seq<Seq<char>>, curr: Seq<Seq<char>>) -> (nat, nat)
    decreases curr.len(),
{
    if curr.len() == 0 {
        (0, 0)
    } else {
        let (met, end) = walk(prev, curr.drop_last());
        if met < prev.len() && same_word(prev[met as int], curr.last()) {
            (met + 1, curr.len())
        } else {
            (met, end)
        }
    }
}

/// A walk meets no more words than there are.
pub proof fn lemma_walk_bounds(prev: Seq<Seq<char>>, curr: Seq<Seq<char>>)
    ensures
        walk(prev, curr).0 <= prev.len(),
        walk(prev, curr).0 <= walk(prev, curr).1 <= curr.len(),
    decreases curr.len(),
{
    if curr.len() > 0 {
        lemma_walk_bounds(prev, curr.drop_last());
    }
}

/// Once every word of `prev` is met, the rest of `curr` changes nothing.
pub proof fn lemma_walk_done(prev: Seq<Seq<char>>, curr: Seq<Seq<char>>, n: int)
    requires
        0 <= n <= curr.len(),
        walk(prev, curr.take(n)).0 == prev.len(),
    ensures
        walk(prev, curr) == walk(prev, curr.take(n)),
    decreases curr.len(),
{
    if n == curr.len() {
        assert(curr.take(n) =~= curr);
    } else {
        assert(curr.drop_last().take(n) =~= curr.take(n));
        lemma_walk_done(prev, curr.drop_last(), n);
    }
}

/// Walks through `curr`, taking the words of `prev` one after another.
fn walk_through(prev: &[String], curr: &[String]) -> (res: (usize, usize))
    ensures
        (res.0 as nat, res.1 as nat) == walk(texts(prev@), texts(curr@)),
        res.0 <= prev@.len(),
        res.1 <= curr@.len(),
{
    let mut met: usize = 0;
    let mut end: usize = 0;
    let mut i: usize = 0;
    while i < curr.len() && met < prev.len()
        invariant
            i <= curr@.len(),
            met <= prev@.len(),
            end <= i,
            (met as nat, end as nat) == walk(texts(prev@), texts(curr@).take(i as int)),
        decreases curr@.len() - i,
    {
        assert(texts(curr@).take(i + 1).drop_last() =~= texts(curr@).take(i as int));
        if word_eq(prev[met].as_str(), curr[i].as_str()) {
            met += 1;
            end = i + 1;
        }
        i += 1;
    }
    proof {
        if i < curr@.len() {
            lemma_walk_done(texts(prev@), texts(curr@), i as int);
        } else {
            assert(texts(curr@).take(i as int) =~= texts(curr@));
        }
    }
    (met, end)
}

/// The part of `curr` that is new after `prev`, where it can be told for certain: by the
/// longest overlap of the end of `prev` with the beginning of `curr`; else by `curr` beginning
/// with `prev`, character for character; else by a walk through `curr` that meets at least half
/// of the words of `prev`.
pub open spec fn certain_news(prev: Seq<char>, curr: Seq<char>) -> Option<Seq<char>> {
    let p = words(prev);
    let c = words(curr);
    if p.len() == 0 || c.len() == 0 {
        Some(curr)
    } else if longest_overlap(p, c) > 0 {
        Some(join(c.skip(longest_overlap(p, c) as int)))
    } else if prev.is_prefix_of(curr) {
        Some(trim(curr.skip(prev.len() as int)))
    } else if 2 * walk(p, c).0 >= p.len() {
        Some(join(c.skip(walk(p, c).1 as int)))
    } else {
        None
    }
}

/// The text of an optional string.
pub open spec fn text_of(s: Option<String>) -> Option<Seq<char>> {
    match s {
        Some(t) => Some(t@),
        None => None,
    }
}

/// The part of `curr` that is new compared to `prev`, where a real match of the two tells where
/// it begins. `None` says that no match was found: not that there is nothing new, but that
/// nothing is safe to take as new.
pub fn extract_new_text_confident(prev: &str, curr: &str) -> (res: Option<String>)
    ensures
        text_of(res) == certain_news(prev@, curr@),
{
    if prev.is_empty() {
        return Some(curr.to_owned());
    }
    if curr.is_empty() {
        return Some(String::new());
    }
    let prev_words = split_words(prev);
    let curr_words = split_words(curr);
    if prev_words.is_empty() || curr_words.is_empty() {
        return Some(curr.to_owned());
    }
    let overlap = overlap_len(prev_words.as_slice(), curr_words.as_slice());
    if overlap > 0 {
        let rest = join_range(curr_words.as_slice(), overlap, curr_words.len());
        return Some(rest);
    }
    if starts_with(curr, prev) {
        return Some(trimmed_from(curr, prev.unicode_len()));
    }
    let (met, end) = walk_through(prev_words.as_slice(), curr_words.as_slice());
    if met >= prev_words.len() - met {
        return Some(join_range(curr_words.as_slice(), end, curr_words.len()));
    }
    None
}

/// The part of `curr` that is new after `prev`: what is certain, else what comes after as many
/// words as `prev` has, if that is more than one word.
pub open spec fn news(prev: Seq<char>, curr: Seq<char>) -> Seq<char> {
    let p = words(prev);
    let c = words(curr);
    match certain_news(prev, curr) {
        Some(text) => text,
        None => if c.len() <= p.len() + 1 {
            seq![]
        } else {
            join(c.skip(p.len() as int))
        },
    }
}

/// The part of `curr` that is new compared to `prev`.
///
/// Where [`extract_new_text_confident`] finds no match, this guesses by length: a transcript
/// that is hardly longer than `prev` is taken for a refinement of it, with nothing new; of a
/// longer one the tail beyond the length of `prev` is taken. The guess is right only where
/// `curr` is `prev` with something added. It serves once, at the end of a recording, where the
/// tail would be lost otherwise.
pub fn extract_new_text(prev: &str, curr: &str) -> (res: String)
    ensures
        res@ == news(prev@, curr@),
{
    if let Some(text) = extract_new_text_confident(prev, curr) {
        return text;
    }
    let prev_words = split_words(prev);
    let curr_words = split_words(curr);
    if curr_words.len() <= prev_words.len() || curr_words.len() - prev_words.len() <= 1 {
        return String::new();
    }
    join_range(curr_words.as_slice(), prev_words.len(), curr_words.len())
}

/// The end of the committed text that a transcript is compared with.
pub open spec fn lookback(emitted: Seq<char>) -> Seq<char> {
    join(last_n(words(emitted), SLIDING_DIFF_LOOKBACK_WORDS as nat))
}

/// How many whole words at the beginning of `curr` are no news after `prev`, where that is
/// certain: those that `certain_news` leaves out, but for one that it cuts in two.
pub open spec fn settled(prev: Seq<char>, curr: Seq<char>) -> nat {
    let p = words(prev);
    let c = words(curr);
    if p.len() == 0 || c.len() == 0 {
        0
    } else if longest_overlap(p, c) > 0 {
        longest_overlap(p, c)
    } else if prev.is_prefix_of(curr) {
        (p.len() - 1) as nat
    } else if 2 * walk(p, c).0 >= p.len() {
        walk(p, c).1
    } else {
        0
    }
}

/// Counts the whole words at the beginning of `curr` that are no news after `prev`.
fn settled_len(prev: &str, curr: &str, curr_words: &[String]) -> (res: usize)
    requires
        texts(curr_words@) == words(curr@),
    ensures
        res == settled(prev@, curr@),
        res <= curr_words@.len(),
{
    let prev_words = split_words(prev);
    if prev_words.is_empty() || curr_words.len() == 0 {
        return 0;
    }
    let overlap = overlap_len(prev_words.as_slice(), curr_words);
    if overlap > 0 {
        return overlap;
    }
    if starts_with(curr, prev) {
        proof {
            lemma_words_of_prefix(prev@, curr@);
        }
        return prev_words.len() - 1;
    }
    let (met, end) = walk_through(prev_words.as_slice(), curr_words);
    if met >= prev_words.len() - met {
        end
    } else {
        0
    }
}

/// A text that begins with another has its words, of which the last may go on.
pub proof fn lemma_words_of_prefix(prev: Seq<char>, curr: Seq<char>)
    requires
        prev.is_prefix_of(curr),
        words(prev).len() > 0,
    ensures
        words(prev).len() <= words(curr).len(),
        words(curr).take(words(prev).len() - 1) == words(prev).drop_last(),
{
    let rest = curr.skip(prev.len() as int);
    assert(prev + rest =~= curr);
    words_of_cut(prev, rest);
    assert(words(curr).take(words(prev).len() - 1) =~= words(prev).drop_last());
}

/// `w` is the same as one of the words in `known`.
pub open spec fn among(w: Seq<char>, known: Seq<Seq<char>>) -> bool {
    exists|j: int| 0 <= j < known.len() && same_word(#[trigger] known[j], w)
}

/// Each of `ws` is the same as one of the words in `known`.
pub open spec fn all_among(ws: Seq<Seq<char>>, known: Seq<Seq<char>>) -> bool {
    forall|i: int| 0 <= i < ws.len() ==> among(#[trigger] ws[i], known)
}

/// Tells whether `word` is the same as one of the words in `known`.
fn is_among(word: &str, known: &[String]) -> (res: bool)
    ensures
        res == among(word@, texts(known@)),
{
    let mut j: usize = 0;
    while j < known.len()
        invariant
            j <= known@.len(),
            forall|k: int| 0 <= k < j ==> !same_word(#[trigger] texts(known@)[k], word@),
        decreases known@.len() - j,
    {
        if word_eq(known[j].as_str(), word) {
            assert(same_word(texts(known@)[j as int], word@));
            return true;
        }
        j += 1;
    }
    false
}

/// How many words at the beginning of `candidate` restate the end of `emitted`: those that are
/// certain to be no news after it, if each of them has been emitted.
pub open spec fn restated(emitted: Seq<char>, candidate: Seq<char>) -> nat {
    let n = settled(lookback(emitted), candidate);
    if all_among(words(candidate).take(n as int), words(emitted)) {
        n
    } else {
        0
    }
}

/// `candidate` without the words at its beginning that restate the end of `emitted`; all of it
/// where none do.
pub open spec fn fresh(emitted: Seq<char>, candidate: Seq<char>) -> Seq<char> {
    if restated(emitted, candidate) > 0 {
        join(words(candidate).skip(restated(emitted, candidate) as int))
    } else {
        candidate
    }
}

/// Strips the leading words of `candidate` that restate the end of the committed text.
///
/// This is the last guard before text is committed, whatever proposed it: a short candidate is
/// much easier to match with the committed text than a whole window is. A match may pass over
/// words; where one of those was never committed, nothing is stripped, so that no new word is
/// lost.
pub fn dedupe_against_emitted(already_emitted_full: &str, candidate: &str) -> (res: String)
    ensures
        res@ == fresh(already_emitted_full@, candidate@),
{
    let tail = last_n_words(already_emitted_full, SLIDING_DIFF_LOOKBACK_WORDS);
    let candidate_words = split_words(candidate);
    let n = settled_len(tail.as_str(), candidate, candidate_words.as_slice());
    let ghost c = words(candidate@);
    if n == 0 {
        return candidate.to_owned();
    }
    let emitted_words = split_words(already_emitted_full);
    let mut i: usize = 0;
    while i < n
        invariant
            i <= n <= candidate_words@.len(),
            n > 0,
            n == settled(lookback(already_emitted_full@), candidate@),
            c == words(candidate@),
            texts(candidate_words@) == c,
            texts(emitted_words@) == words(already_emitted_full@),
            forall|j: int| 0 <= j < i ==> among(#[trigger] c[j], words(already_emitted_full@)),
        decreases n - i,
    {
        assert(c[i as int] == candidate_words@[i as int]@);
        if !is_among(candidate_words[i].as_str(), emitted_words.as_slice()) {
            assert(!among(c.take(n as int)[i as int], words(already_emitted_full@)));
            return candidate.to_owned();
        }
        i += 1;
    }
    assert(all_among(c.take(n as int), words(already_emitted_full@)));
    join_range(candidate_words.as_slice(), n, candidate_words.len())
}

} // verus!
