//! Text as sequences of characters: white space, words, joining, trimming and letter case.

use vstd::prelude::*;
use vstd::utf8::is_ascii_chars;

verus! {

/// The Unicode property `White_Space`.
pub open spec fn white_space(c: char) -> bool {
    let u = c as int;
    ||| 0x9 <= u <= 0xd
    ||| u == 0x20
    ||| u == 0x85
    ||| u == 0xa0
    ||| u == 0x1680
    ||| 0x2000 <= u <= 0x200a
    ||| u == 0x2028
    ||| u == 0x2029
    ||| u == 0x202f
    ||| u == 0x205f
    ||| u == 0x3000
}

/// Tells whether `c` has the Unicode property `White_Space`.
pub fn is_white_space(c: char) -> (res: bool)
    ensures
        res == white_space(c),
{
    let u: u32 = c as u32;
    (0x9 <= u && u <= 0xd) || u == 0x20 || u == 0x85 || u == 0xa0 || u == 0x1680
        || (0x2000 <= u && u <= 0x200a) || u == 0x2028 || u == 0x2029 || u == 0x202f || u == 0x205f
        || u == 0x3000
}

/// `String::push` appends one character at the end of the string.
pub assume_specification[ String::push ](s: &mut String, c: char)
    ensures
        final(s)@ == old(s)@.push(c),
;

/// The characters of `text`, in order.
pub fn to_chars(text: &str) -> (chars: Vec<char>)
    ensures
        chars@ == text@,
{
    let mut chars: Vec<char> = Vec::new();
    for c in it: text.chars()
        invariant
            it.seq() == text@,
            chars@ == text@.take(it.index() as int),
    {
        chars.push(c);
        assert(text@.take(it.index() as int).push(c) =~= text@.take(it.index() + 1));
    }
    assert(text@.take(text@.len() as int) =~= text@);
    chars
}

/// The string made of `chars[from..to]`.
pub fn from_chars(chars: &[char], from: usize, to: usize) -> (res: String)
    requires
        from <= to <= chars@.len(),
    ensures
        res@ == chars@.subrange(from as int, to as int),
{
    let mut res = String::new();
    let mut i: usize = from;
    while i < to
        invariant
            from <= i <= to <= chars@.len(),
            res@ == chars@.subrange(from as int, i as int),
        decreases to - i,
    {
        res.push(chars[i]);
        assert(chars@.subrange(from as int, i as int).push(chars@[i as int])
            =~= chars@.subrange(from as int, i + 1));
        i += 1;
    }
    res
}

/// The texts that a list of strings holds.
pub open spec fn texts(list: Seq<String>) -> Seq<Seq<char>> {
    Seq::new(list.len(), |i: int| list[i]@)
}

/// The words of `s`: its maximal runs of characters that are not white space, from left to
/// right.
pub open spec fn words(s: Seq<char>) -> Seq<Seq<char>>
    decreases s.len(),
{
    if s.len() == 0 {
        seq![]
    } else {
        let before = words(s.drop_last());
        if white_space(s.last()) {
            before
        } else if s.len() == 1 || white_space(s[s.len() - 2]) {
            before.push(seq![s.last()])
        } else {
            before.drop_last().push(before.last().push(s.last()))
        }
    }
}

/// A word: not empty, and free of white space.
pub open spec fn solid(w: Seq<char>) -> bool {
    &&& w.len() > 0
    &&& forall|i: int| 0 <= i < w.len() ==> !white_space(#[trigger] w[i])
}

/// Every text of the list is a word.
pub open spec fn all_solid(ws: Seq<Seq<char>>) -> bool {
    forall|i: int| 0 <= i < ws.len() ==> solid(#[trigger] ws[i])
}

/// A text that ends in a character other than white space has a last word.
pub proof fn lemma_words_nonempty(s: Seq<char>)
    requires
        s.len() > 0,
        !white_space(s.last()),
    ensures
        words(s).len() > 0,
{
}

/// What [`words`] gives are words.
pub proof fn lemma_words_solid(s: Seq<char>)
    ensures
        all_solid(words(s)),
    decreases s.len(),
{
    if s.len() > 0 {
        let t = s.drop_last();
        lemma_words_solid(t);
        if !white_space(s.last()) {
            if !(s.len() == 1 || white_space(s[s.len() - 2])) {
                lemma_words_nonempty(t);
                let last = words(t).last();
                assert(solid(words(t)[words(t).len() - 1]));
                assert(solid(last.push(s.last())));
            }
        }
    }
}

/// Splits `text` into its words.
pub fn split_words(text: &str) -> (res: Vec<String>)
    ensures
        texts(res@) == words(text@),
{
    let mut done: Vec<String> = Vec::new();
    let mut word = String::new();
    for c in it: text.chars()
        invariant
            it.seq() == text@,
            word@.len() == 0 <==> (it.index() == 0 || white_space(text@[it.index() - 1])),
            word@.len() == 0 ==> words(text@.take(it.index() as int)) == texts(done@),
            word@.len() > 0 ==> words(text@.take(it.index() as int)) == texts(done@).push(word@),
    {
        let ghost now = text@.take(it.index() as int);
        let ghost next = text@.take(it.index() + 1);
        proof {
            assert(next.drop_last() =~= now);
        }
        if is_white_space(c) {
            if !word.as_str().is_empty() {
                proof {
                    assert(texts(done@.push(word)) =~= texts(done@).push(word@));
                }
                done.push(word);
                word = String::new();
            }
        } else {
            proof {
                if word@.len() > 0 {
                    assert(texts(done@).push(word@).drop_last() =~= texts(done@));
                } else {
                    assert(word@.push(c) =~= seq![c]);
                }
            }
            word.push(c);
        }
    }
    assert(text@.take(text@.len() as int) =~= text@);
    if !word.as_str().is_empty() {
        assert(texts(done@.push(word)) =~= texts(done@).push(word@));
        done.push(word);
    }
    done
}

/// The texts of `ws` with one space between neighbours.
pub open spec fn join(ws: Seq<Seq<char>>) -> Seq<char>
    decreases ws.len(),
{
    if ws.len() == 0 {
        seq![]
    } else if ws.len() == 1 {
        ws[0]
    } else {
        join(ws.drop_last()).push(' ') + ws.last()
    }
}

/// Joins `list[from..to]` with one space between neighbours.
pub fn join_range(list: &[String], from: usize, to: usize) -> (res: String)
    requires
        from <= to <= list@.len(),
    ensures
        res@ == join(texts(list@).subrange(from as int, to as int)),
{
    let mut res = String::new();
    let mut i: usize = from;
    while i < to
        invariant
            from <= i <= to <= list@.len(),
            res@ == join(texts(list@).subrange(from as int, i as int)),
        decreases to - i,
    {
        let ghost now = texts(list@).subrange(from as int, i as int);
        let ghost next = texts(list@).subrange(from as int, i + 1);
        proof {
            assert(next.drop_last() =~= now);
            assert(next.last() == list@[i as int]@);
        }
        if i > from {
            res.push(' ');
        }
        res.append(list[i].as_str());
        assert(res@ =~= join(next));
        i += 1;
    }
    res
}

/// Joins all of `list` with one space between neighbours.
pub fn join_all(list: &[String]) -> (res: String)
    ensures
        res@ == join(texts(list@)),
{
    assert(texts(list@).subrange(0, list@.len() as int) =~= texts(list@));
    join_range(list, 0, list.len())
}

/// `s` without the white space that it ends in.
pub open spec fn trim_end(s: Seq<char>) -> Seq<char>
    decreases s.len(),
{
    if s.len() > 0 && white_space(s.last()) {
        trim_end(s.drop_last())
    } else {
        s
    }
}

/// `s` without the white space that it begins with.
pub open spec fn trim_start(s: Seq<char>) -> Seq<char>
    decreases s.len(),
{
    if s.len() > 0 && white_space(s[0]) {
        trim_start(s.drop_first())
    } else {
        s
    }
}

/// `s` without the white space that it begins with and ends in.
pub open spec fn trim(s: Seq<char>) -> Seq<char> {
    trim_start(trim_end(s))
}

/// `text[from..]` without the white space around it; `from` counts characters.
pub fn trimmed_from(text: &str, from: usize) -> (res: String)
    requires
        from <= text@.len(),
    ensures
        res@ == trim(text@.skip(from as int)),
{
    let chars = to_chars(text);
    let ghost whole = text@.skip(from as int);
    let mut to: usize = chars.len();
    while to > from && is_white_space(chars[to - 1])
        invariant
            from <= to <= chars@.len(),
            trim_end(chars@.subrange(from as int, to as int)) == trim_end(whole),
        decreases to,
    {
        assert(chars@.subrange(from as int, to as int).drop_last()
            =~= chars@.subrange(from as int, to - 1));
        to -= 1;
    }
    let mut start: usize = from;
    while start < to && is_white_space(chars[start])
        invariant
            from <= start <= to <= chars@.len(),
            trim_start(chars@.subrange(start as int, to as int)) == trim(whole),
        decreases to - start,
    {
        assert(chars@.subrange(start as int, to as int).drop_first()
            =~= chars@.subrange(start + 1, to as int));
        start += 1;
    }
    from_chars(chars.as_slice(), start, to)
}

/// `s` without the characters of `set` that it ends in.
pub open spec fn trim_end_of(s: Seq<char>, set: Seq<char>) -> Seq<char>
    decreases s.len(),
{
    if s.len() > 0 && set.contains(s.last()) {
        trim_end_of(s.drop_last(), set)
    } else {
        s
    }
}

/// Tells whether `c` is one of `set`.
fn one_of(c: char, set: &[char]) -> (res: bool)
    ensures
        res == set@.contains(c),
{
    let mut i: usize = 0;
    while i < set.len()
        invariant
            i <= set@.len(),
            forall|j: int| 0 <= j < i ==> set@[j] != c,
        decreases set@.len() - i,
    {
        if set[i] == c {
            return true;
        }
        i += 1;
    }
    false
}

/// `text` without the characters of `set` that it ends in.
pub fn trim_end_matches(text: &str, set: &[char]) -> (res: String)
    ensures
        res@ == trim_end_of(text@, set@),
{
    let chars = to_chars(text);
    let mut to: usize = chars.len();
    assert(chars@.take(to as int) =~= text@);
    while to > 0 && one_of(chars[to - 1], set)
        invariant
            to <= chars@.len(),
            trim_end_of(chars@.take(to as int), set@) == trim_end_of(text@, set@),
        decreases to,
    {
        assert(chars@.take(to as int).drop_last() =~= chars@.take(to - 1));
        to -= 1;
    }
    assert(chars@.subrange(0, to as int) =~= chars@.take(to as int));
    from_chars(chars.as_slice(), 0, to)
}

/// Tells whether `text` begins with `prefix`, character for character.
pub fn starts_with(text: &str, prefix: &str) -> (res: bool)
    ensures
        res == prefix@.is_prefix_of(text@),
{
    let chars = to_chars(text);
    let wanted = to_chars(prefix);
    if wanted.len() > chars.len() {
        return false;
    }
    let mut i: usize = 0;
    while i < wanted.len()
        invariant
            i <= wanted@.len() <= chars@.len(),
            wanted@ == prefix@,
            chars@ == text@,
            forall|j: int| 0 <= j < i ==> wanted@[j] == chars@[j],
        decreases wanted@.len() - i,
    {
        if chars[i] != wanted[i] {
            assert(text@.subrange(0, prefix@.len() as int)[i as int] != prefix@[i as int]);
            return false;
        }
        i += 1;
    }
    assert(prefix@ =~= text@.subrange(0, prefix@.len() as int));
    true
}

/// The lower-case form of an ASCII letter; any other character is left as it is.
pub open spec fn ascii_lower(c: char) -> char {
    if 'A' <= c <= 'Z' {
        (c as int + 32) as char
    } else {
        c
    }
}

/// `s` with each upper-case ASCII letter replaced by its lower-case form.
pub open spec fn ascii_lowercase(s: Seq<char>) -> Seq<char> {
    Seq::new(s.len(), |i: int| ascii_lower(s[i]))
}

/// What `str::to_lowercase` gives for a text that is not all ASCII.
pub uninterp spec fn unicode_lowercase(s: Seq<char>) -> Seq<char>;

/// The lower-case form of `s`, as Unicode defines it.
pub open spec fn lowercase(s: Seq<char>) -> Seq<char> {
    if is_ascii_chars(s) {
        ascii_lowercase(s)
    } else {
        unicode_lowercase(s)
    }
}

/// Calls `str::to_lowercase`. On ASCII text it replaces each of the letters `A` to `Z` by its
/// lower-case form and nothing else; of other text only that the result depends on the text
/// alone is claimed.
#[verifier::external_body]
pub(crate) fn to_lowercase(text: &str) -> (res: String)
    ensures
        is_ascii_chars(text@) ==> res@ == ascii_lowercase(text@),
        !is_ascii_chars(text@) ==> res@ == unicode_lowercase(text@),
{
    text.to_lowercase()
}

} // verus!
