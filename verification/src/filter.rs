//! Sorting out what speech models say when nobody speaks.

use crate::text::{lowercase, to_lowercase, trim, trim_end_matches, trim_end_of, trimmed_from};
use vstd::prelude::*;

verus! {

/// What speech models say when they are fed silence or noise.
pub const HALLUCINATION_PATTERNS: [&'static str; 22] = [
    "you",
    "the",
    "i",
    "a",
    "it",
    "is",
    "and",
    "to",
    "thank you",
    "thanks",
    "bye",
    "okay",
    "thank you for watching",
    "thanks for watching",
    "please subscribe",
    "subscribe",
    "thank you very much",
    "you're welcome",
    "good night",
    "good bye",
    "see you next time",
    "subtitles by the amara.org community",
];

/// The punctuation that a phrase may end in without becoming another phrase.
pub const PHRASE_PUNCTUATION: [char; 4] = ['.', ',', '!', '?'];

/// A phrase in lower case is one of those that silence brings forth, up to the punctuation at
/// its end.
pub open spec fn listed(phrase: Seq<char>) -> bool {
    exists|i: int|
        0 <= i < HALLUCINATION_PATTERNS@.len() && trim_end_of(phrase, PHRASE_PUNCTUATION@) == (
        #[trigger] HALLUCINATION_PATTERNS@[i])@
}

/// The transcript is one of the phrases that silence brings forth.
pub open spec fn hallucinated(text: Seq<char>) -> bool {
    listed(lowercase(trim(text)))
}

/// Tells whether a phrase in lower case is one of those that silence brings forth, whatever the
/// punctuation at its end.
pub fn is_listed(phrase: &str) -> (res: bool)
    ensures
        res == listed(phrase@),
{
    let bare = trim_end_matches(phrase, &PHRASE_PUNCTUATION);
    let mut i: usize = 0;
    while i < HALLUCINATION_PATTERNS.len()
        invariant
            bare@ == trim_end_of(phrase@, PHRASE_PUNCTUATION@),
            i <= HALLUCINATION_PATTERNS@.len(),
            forall|j: int| 0 <= j < i ==> (#[trigger] HALLUCINATION_PATTERNS@[j])@ != bare@,
        decreases HALLUCINATION_PATTERNS@.len() - i,
    {
        if bare == HALLUCINATION_PATTERNS[i].to_owned() {
            return true;
        }
        i += 1;
    }
    false
}

/// Tells whether a transcript is one of the phrases that silence brings forth, whatever its
/// letter case, the white space around it and the punctuation at its end.
pub fn is_hallucination(text: &str) -> (res: bool)
    ensures
        res == hallucinated(text@),
{
    assert(text@.skip(0) =~= text@);
    let trimmed = trimmed_from(text, 0);
    is_listed(to_lowercase(trimmed.as_str()).as_str())
}

} // verus!
