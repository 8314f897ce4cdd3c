//! Laws of the phrases that silence brings forth.

use crate::filter::{hallucinated, HALLUCINATION_PATTERNS, PHRASE_PUNCTUATION};
use crate::laws::text::{
    all_white, ascii_lowercase_is_idempotent, trim_cleans_both_ends, trim_end_of_takes_the_set_off,
    trim_takes_white_space_off,
};
use crate::text::{
    ascii_lower, ascii_lowercase, lowercase, trim, trim_end, trim_end_of, trim_start, white_space,
};
use vstd::prelude::*;
use vstd::utf8::is_ascii_chars;

verus! {

/// White space around a phrase does not make it another phrase.
pub proof fn hallucination_ignores_surrounding_space(text: Seq<char>)
    ensures
        hallucinated(trim(text)) == hallucinated(text),
{
    trim_cleans_both_ends(text);
}

/// Lowering letters commutes with trimming at the end.
proof fn lemma_trim_end_lowercase(s: Seq<char>)
    ensures
        trim_end(ascii_lowercase(s)) == ascii_lowercase(trim_end(s)),
    decreases s.len(),
{
    if s.len() > 0 {
        let l = ascii_lowercase(s);
        assert(l.drop_last() =~= ascii_lowercase(s.drop_last()));
        assert(white_space(l.last()) == white_space(s.last()));
        if white_space(s.last()) {
            lemma_trim_end_lowercase(s.drop_last());
        }
    }
}

/// Lowering letters commutes with trimming at the beginning.
proof fn lemma_trim_start_lowercase(s: Seq<char>)
    ensures
        trim_start(ascii_lowercase(s)) == ascii_lowercase(trim_start(s)),
    decreases s.len(),
{
    if s.len() > 0 {
        let l = ascii_lowercase(s);
        assert(l.drop_first() =~= ascii_lowercase(s.drop_first()));
        assert(white_space(l[0]) == white_space(s[0]));
        if white_space(s[0]) {
            lemma_trim_start_lowercase(s.drop_first());
        }
    }
}

/// Trimming keeps a text ASCII.
proof fn lemma_trim_keeps_ascii(s: Seq<char>)
    requires
        is_ascii_chars(s),
    ensures
        is_ascii_chars(trim_end(s)),
        is_ascii_chars(trim_start(s)),
    decreases s.len(),
{
    if s.len() > 0 {
        if white_space(s.last()) {
            assert(is_ascii_chars(s.drop_last()));
            lemma_trim_keeps_ascii(s.drop_last());
        }
        if white_space(s[0]) {
            assert(is_ascii_chars(s.drop_first()));
            lemma_trim_keeps_ascii(s.drop_first());
        }
    }
}

/// The case of its letters does not make an ASCII phrase another phrase.
pub proof fn hallucination_ignores_ascii_case(text: Seq<char>)
    requires
        is_ascii_chars(text),
    ensures
        hallucinated(ascii_lowercase(text)) == hallucinated(text),
{
    lemma_trim_end_lowercase(text);
    lemma_trim_start_lowercase(trim_end(text));
    lemma_trim_keeps_ascii(text);
    lemma_trim_keeps_ascii(trim_end(text));
    ascii_lowercase_is_idempotent(trim(text));
}

/// Trimming at the beginning does not reach the end of a text that does not end in white space.
proof fn lemma_trim_start_push(s: Seq<char>, c: char)
    requires
        s.len() > 0,
        !white_space(s.last()),
    ensures
        trim_start(s.push(c)) == trim_start(s).push(c),
        trim_start(s).len() > 0,
    decreases s.len(),
{
    if white_space(s[0]) {
        assert(s.push(c).drop_first() =~= s.drop_first().push(c));
        lemma_trim_start_push(s.drop_first(), c);
    }
}

/// A punctuation mark at its end does not make an ASCII phrase another phrase.
pub proof fn hallucination_ignores_punctuation(text: Seq<char>, mark: char)
    requires
        is_ascii_chars(text),
        text.len() > 0,
        !white_space(text.last()),
        PHRASE_PUNCTUATION@.contains(mark),
    ensures
        hallucinated(text.push(mark)) == hallucinated(text),
{
    assert(PHRASE_PUNCTUATION@ =~= seq!['.', ',', '!', '?']);
    assert(trim_end(text.push(mark)) == text.push(mark));
    lemma_trim_start_push(text, mark);
    lemma_trim_keeps_ascii(text);
    let t = trim(text);
    assert(is_ascii_chars(t.push(mark)));
    assert(ascii_lower(mark) == mark);
    assert(ascii_lowercase(t.push(mark)) =~= ascii_lowercase(t).push(mark));
    assert(ascii_lowercase(t).push(mark).drop_last() =~= ascii_lowercase(t));
    assert(trim_end_of(ascii_lowercase(t).push(mark), PHRASE_PUNCTUATION@) == trim_end_of(
        ascii_lowercase(t),
        PHRASE_PUNCTUATION@,
    ));
}

/// Nothing about the phrase is ignored.
spec fn plain(s: Seq<char>) -> bool {
    &&& s.len() > 0
    &&& forall|i: int| 0 <= i < s.len() ==> 0 <= #[trigger] s[i] < 128 && !('A' <= s[i] <= 'Z')
    &&& !white_space(s[0])
    &&& 'a' <= s.last() <= 'z'
}

/// A phrase of which nothing is ignored is compared as it is.
proof fn lemma_plain(s: Seq<char>)
    requires
        plain(s),
    ensures
        trim_end_of(lowercase(trim(s)), PHRASE_PUNCTUATION@) == s,
{
    assert(PHRASE_PUNCTUATION@ =~= seq!['.', ',', '!', '?']);
    assert(trim(s) == s);
    assert(is_ascii_chars(s));
    assert(ascii_lowercase(s) =~= s);
}

/// Each listed phrase is found out as it stands.
pub proof fn every_pattern_is_a_hallucination(i: int)
    requires
        0 <= i < HALLUCINATION_PATTERNS@.len(),
    ensures
        hallucinated(HALLUCINATION_PATTERNS@[i]@),
{
    reveal_strlit("you");
    reveal_strlit("the");
    reveal_strlit("i");
    reveal_strlit("a");
    reveal_strlit("it");
    reveal_strlit("is");
    reveal_strlit("and");
    reveal_strlit("to");
    reveal_strlit("thank you");
    reveal_strlit("thanks");
    reveal_strlit("bye");
    reveal_strlit("okay");
    reveal_strlit("thank you for watching");
    reveal_strlit("thanks for watching");
    reveal_strlit("please subscribe");
    reveal_strlit("subscribe");
    reveal_strlit("thank you very much");
    reveal_strlit("you're welcome");
    reveal_strlit("good night");
    reveal_strlit("good bye");
    reveal_strlit("see you next time");
    reveal_strlit("subtitles by the amara.org community");
    assert(plain(HALLUCINATION_PATTERNS@[i]@));
    lemma_plain(HALLUCINATION_PATTERNS@[i]@);
}

/// One of the marks that a phrase may end in without becoming another phrase.
pub open spec fn phrase_mark(c: char) -> bool {
    c == '.' || c == ',' || c == '!' || c == '?'
}

/// Those are the marks that are trimmed off a phrase.
proof fn lemma_phrase_marks(c: char)
    ensures
        PHRASE_PUNCTUATION@.contains(c) == phrase_mark(c),
{
    assert(PHRASE_PUNCTUATION@ =~= seq!['.', ',', '!', '?']);
    if phrase_mark(c) {
        assert(PHRASE_PUNCTUATION@[0] == '.' && PHRASE_PUNCTUATION@[1] == ','
            && PHRASE_PUNCTUATION@[2] == '!' && PHRASE_PUNCTUATION@[3] == '?');
    }
}

/// What silence is heard as, in lower case and without marks.
pub open spec fn silence_phrase(phrase: Seq<char>) -> bool {
    ||| phrase == "you"@
    ||| phrase == "the"@
    ||| phrase == "i"@
    ||| phrase == "a"@
    ||| phrase == "it"@
    ||| phrase == "is"@
    ||| phrase == "and"@
    ||| phrase == "to"@
    ||| phrase == "thank you"@
    ||| phrase == "thanks"@
    ||| phrase == "bye"@
    ||| phrase == "okay"@
    ||| phrase == "thank you for watching"@
    ||| phrase == "thanks for watching"@
    ||| phrase == "please subscribe"@
    ||| phrase == "subscribe"@
    ||| phrase == "thank you very much"@
    ||| phrase == "you're welcome"@
    ||| phrase == "good night"@
    ||| phrase == "good bye"@
    ||| phrase == "see you next time"@
    ||| phrase == "subtitles by the amara.org community"@
}

/// The phrases that are looked for are those.
proof fn lemma_silence_phrases(phrase: Seq<char>)
    ensures
        silence_phrase(phrase) <==> exists|i: int|
            0 <= i < HALLUCINATION_PATTERNS@.len() && phrase == (
            #[trigger] HALLUCINATION_PATTERNS@[i])@,
{
    assert(HALLUCINATION_PATTERNS@.len() == 22);
    assert(HALLUCINATION_PATTERNS@[0]@ == "you"@);
    assert(HALLUCINATION_PATTERNS@[1]@ == "the"@);
    assert(HALLUCINATION_PATTERNS@[2]@ == "i"@);
    assert(HALLUCINATION_PATTERNS@[3]@ == "a"@);
    assert(HALLUCINATION_PATTERNS@[4]@ == "it"@);
    assert(HALLUCINATION_PATTERNS@[5]@ == "is"@);
    assert(HALLUCINATION_PATTERNS@[6]@ == "and"@);
    assert(HALLUCINATION_PATTERNS@[7]@ == "to"@);
    assert(HALLUCINATION_PATTERNS@[8]@ == "thank you"@);
    assert(HALLUCINATION_PATTERNS@[9]@ == "thanks"@);
    assert(HALLUCINATION_PATTERNS@[10]@ == "bye"@);
    assert(HALLUCINATION_PATTERNS@[11]@ == "okay"@);
    assert(HALLUCINATION_PATTERNS@[12]@ == "thank you for watching"@);
    assert(HALLUCINATION_PATTERNS@[13]@ == "thanks for watching"@);
    assert(HALLUCINATION_PATTERNS@[14]@ == "please subscribe"@);
    assert(HALLUCINATION_PATTERNS@[15]@ == "subscribe"@);
    assert(HALLUCINATION_PATTERNS@[16]@ == "thank you very much"@);
    assert(HALLUCINATION_PATTERNS@[17]@ == "you're welcome"@);
    assert(HALLUCINATION_PATTERNS@[18]@ == "good night"@);
    assert(HALLUCINATION_PATTERNS@[19]@ == "good bye"@);
    assert(HALLUCINATION_PATTERNS@[20]@ == "see you next time"@);
    assert(HALLUCINATION_PATTERNS@[21]@ == "subtitles by the amara.org community"@);
}

/// A transcript is taken for silence if and only if what is left of it is one of the phrases of
/// silence: without the white space around it, in lower case, and without the marks at its end.
pub proof fn only_phrases_of_silence_are_hallucinated(
    before: Seq<char>,
    text: Seq<char>,
    after: Seq<char>,
    phrase: Seq<char>,
    marks: Seq<char>,
)
    requires
        all_white(before),
        all_white(after),
        text.len() > 0 ==> !white_space(text[0]) && !white_space(text.last()),
        lowercase(text) == phrase + marks,
        phrase.len() > 0 ==> !phrase_mark(phrase.last()),
        forall|i: int| 0 <= i < marks.len() ==> phrase_mark(#[trigger] marks[i]),
    ensures
        hallucinated(before + text + after) <==> silence_phrase(phrase),
{
    trim_takes_white_space_off(before, text, after);
    if phrase.len() > 0 {
        lemma_phrase_marks(phrase.last());
    }
    assert forall|i: int| 0 <= i < marks.len() implies PHRASE_PUNCTUATION@.contains(
        #[trigger] marks[i],
    ) by {
        lemma_phrase_marks(marks[i]);
    }
    trim_end_of_takes_the_set_off(phrase, marks, PHRASE_PUNCTUATION@);
    lemma_silence_phrases(phrase);
}

} // verus!
