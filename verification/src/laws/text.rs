//! Laws of words, joining and trimming.

use crate::diff::text_of;
use crate::text::{
    all_solid, ascii_lower, ascii_lowercase, join, lemma_words_nonempty, lowercase, solid, texts,
    trim, trim_end, trim_end_of, trim_start, unicode_lowercase, white_space, words,
};
use vstd::prelude::*;
use vstd::utf8::is_ascii_chars;

verus! {

/// White space separates: the words of a text with white space in it are the words before it
/// and the words after it.
pub proof fn words_of_parts(a: Seq<char>, gap: char, b: Seq<char>)
    requires
        white_space(gap),
    ensures
        words(a.push(gap) + b) == words(a) + words(b),
    decreases b.len(),
{
    let s = a.push(gap) + b;
    if b.len() == 0 {
        assert(s =~= a.push(gap));
        assert(s.drop_last() =~= a);
        assert(words(a) + words(b) =~= words(a));
    } else {
        let t = b.drop_last();
        assert(s.drop_last() =~= a.push(gap) + t);
        assert(s.last() == b.last());
        words_of_parts(a, gap, t);
        if !white_space(b.last()) {
            if b.len() == 1 {
                assert(s[s.len() - 2] == gap);
                assert(words(a) + words(b) =~= (words(a) + words(t)).push(seq![b.last()]));
            } else {
                assert(s[s.len() - 2] == b[b.len() - 2]);
                if white_space(b[b.len() - 2]) {
                    assert(words(a) + words(b) =~= (words(a) + words(t)).push(seq![b.last()]));
                } else {
                    lemma_words_nonempty(t);
                    let whole = words(a) + words(t);
                    assert(whole.last() == words(t).last());
                    assert(whole.drop_last() =~= words(a) + words(t).drop_last());
                    assert(words(a) + words(b) =~= whole.drop_last().push(
                        whole.last().push(b.last()),
                    ));
                }
            }
        }
    }
}

/// A word has itself as its one word.
pub proof fn words_of_word(w: Seq<char>)
    requires
        solid(w),
    ensures
        words(w) == seq![w],
    decreases w.len(),
{
    let t = w.drop_last();
    assert(!white_space(w[w.len() - 1]));
    if w.len() == 1 {
        assert(words(t) =~= seq![]);
        assert(w =~= seq![w.last()]);
        assert(words(w) =~= seq![w]);
    } else {
        assert(solid(t)) by {
            assert forall|i: int| 0 <= i < t.len() implies !white_space(#[trigger] t[i]) by {
                assert(!white_space(w[i]));
            }
        }
        words_of_word(t);
        assert(!white_space(w[w.len() - 2]));
        assert(t.push(w.last()) =~= w);
        assert(words(w) =~= seq![w]);
    }
}

/// Splitting undoes joining: the words of joined words are those words.
pub proof fn words_of_join(ws: Seq<Seq<char>>)
    requires
        all_solid(ws),
    ensures
        words(join(ws)) == ws,
    decreases ws.len(),
{
    if ws.len() == 0 {
        assert(words(join(ws)) =~= ws);
    } else if ws.len() == 1 {
        words_of_word(ws[0]);
        assert(words(join(ws)) =~= ws);
    } else {
        let t = ws.drop_last();
        assert(all_solid(t)) by {
            assert forall|i: int| 0 <= i < t.len() implies solid(#[trigger] t[i]) by {
                assert(solid(ws[i]));
            }
        }
        words_of_join(t);
        assert(solid(ws[ws.len() - 1]));
        words_of_word(ws.last());
        words_of_parts(join(t), ' ', ws.last());
        assert(words(join(ws)) =~= ws);
    }
}

/// The words that are left when words are dropped at either end are words.
pub proof fn lemma_solid_subrange(ws: Seq<Seq<char>>, from: int, to: int)
    requires
        all_solid(ws),
        0 <= from <= to <= ws.len(),
    ensures
        all_solid(ws.subrange(from, to)),
{
    assert forall|i: int| 0 <= i < to - from implies solid(#[trigger] ws.subrange(from, to)[i]) by {
        assert(solid(ws[from + i]));
    }
}

/// Trimming at the end keeps the words and leaves no white space there.
proof fn lemma_trim_end(s: Seq<char>)
    ensures
        words(trim_end(s)) == words(s),
        trim_end(s).len() > 0 ==> !white_space(trim_end(s).last()),
        trim_end(s).is_prefix_of(s),
    decreases s.len(),
{
    if s.len() > 0 && white_space(s.last()) {
        lemma_trim_end(s.drop_last());
        let t = trim_end(s.drop_last());
        assert(t =~= s.subrange(0, t.len() as int));
    } else {
        assert(s =~= s.subrange(0, s.len() as int));
    }
}

/// Trimming at the beginning keeps the words and the end, and leaves no white space there.
proof fn lemma_trim_start(s: Seq<char>)
    ensures
        words(trim_start(s)) == words(s),
        trim_start(s).len() > 0 ==> !white_space(trim_start(s)[0]),
        trim_start(s).len() > 0 ==> trim_start(s).last() == s.last(),
    decreases s.len(),
{
    if s.len() > 0 && white_space(s[0]) {
        let t = s.drop_first();
        lemma_trim_start(t);
        words_of_parts(seq![], s[0], t);
        assert(Seq::<char>::empty().push(s[0]) + t =~= s);
        assert(words(Seq::<char>::empty()) + words(t) =~= words(t));
    }
}

/// Trimming leaves no white space at either end, keeps the words, and has nothing left to do on
/// what it gave.
pub proof fn trim_cleans_both_ends(s: Seq<char>)
    ensures
        trim(s).len() > 0 ==> !white_space(trim(s)[0]) && !white_space(trim(s).last()),
        words(trim(s)) == words(s),
        trim(trim(s)) == trim(s),
        trim(s).len() == 0 <==> words(s).len() == 0,
{
    lemma_trim_end(s);
    lemma_trim_start(trim_end(s));
    if trim(s).len() > 0 {
        lemma_words_nonempty(trim(s));
    }
}

/// Lowering the letters of an ASCII text keeps it ASCII, and doing it twice changes nothing
/// more.
pub proof fn ascii_lowercase_is_idempotent(s: Seq<char>)
    requires
        is_ascii_chars(s),
    ensures
        is_ascii_chars(ascii_lowercase(s)),
        ascii_lowercase(ascii_lowercase(s)) == ascii_lowercase(s),
{
    assert(ascii_lowercase(ascii_lowercase(s)) =~= ascii_lowercase(s));
}

/// Trimming characters that are not letters off the end commutes with lowering the letters.
pub proof fn lemma_trim_end_of_lowercase(s: Seq<char>, set: Seq<char>)
    requires
        forall|c: char| #[trigger] set.contains(c) ==> !('A' <= c <= 'Z') && !('a' <= c <= 'z'),
    ensures
        trim_end_of(ascii_lowercase(s), set) == ascii_lowercase(trim_end_of(s, set)),
    decreases s.len(),
{
    if s.len() > 0 {
        let l = ascii_lowercase(s);
        assert(l.last() == ascii_lower(s.last()));
        assert(l.drop_last() =~= ascii_lowercase(s.drop_last()));
        if set.contains(s.last()) {
            assert(l.last() == s.last());
            lemma_trim_end_of_lowercase(s.drop_last(), set);
        } else {
            assert(!set.contains(l.last()));
        }
    }
}

/// What is left after trimming at the end is a beginning of the text.
pub proof fn lemma_trim_end_of_prefix(s: Seq<char>, set: Seq<char>)
    ensures
        trim_end_of(s, set).is_prefix_of(s),
    decreases s.len(),
{
    if s.len() > 0 && set.contains(s.last()) {
        lemma_trim_end_of_prefix(s.drop_last(), set);
        let t = trim_end_of(s.drop_last(), set);
        assert(t =~= s.subrange(0, t.len() as int));
    } else {
        assert(s =~= s.subrange(0, s.len() as int));
    }
}

/// Joined words begin as the first of them and end as the last.
proof fn lemma_join_ends(ws: Seq<Seq<char>>)
    requires
        all_solid(ws),
        ws.len() > 0,
    ensures
        join(ws).len() > 0,
        join(ws)[0] == ws[0][0],
        join(ws).last() == ws.last().last(),
    decreases ws.len(),
{
    assert(solid(ws[0]));
    assert(solid(ws[ws.len() - 1]));
    if ws.len() > 1 {
        let t = ws.drop_last();
        lemma_solid_subrange(ws, 0, ws.len() - 1);
        assert(t =~= ws.subrange(0, ws.len() - 1));
        lemma_join_ends(t);
    }
}

/// Joined words have no white space around them.
pub proof fn lemma_join_is_trimmed(ws: Seq<Seq<char>>)
    requires
        all_solid(ws),
    ensures
        trim(join(ws)) == join(ws),
{
    if ws.len() > 0 {
        lemma_join_ends(ws);
        assert(solid(ws[0]));
        assert(solid(ws[ws.len() - 1]));
        assert(!white_space(ws[0][0]));
        assert(!white_space(ws.last()[ws.last().len() - 1]));
    }
}

/// A text that begins with a character other than white space has a first word.
proof fn lemma_words_begin(s: Seq<char>)
    requires
        s.len() > 0,
        !white_space(s[0]),
    ensures
        words(s).len() > 0,
    decreases s.len(),
{
    if s.len() > 1 {
        lemma_words_begin(s.drop_last());
    }
}

/// Where a text is cut, the words are those of the two pieces, or, where the cut goes through a
/// word, those of the pieces with the last of the one and the first of the other put together.
pub proof fn words_of_cut(a: Seq<char>, b: Seq<char>)
    ensures
        ({
            let through = a.len() > 0 && b.len() > 0 && !white_space(a.last()) && !white_space(
                b[0],
            );
            if through {
                &&& words(a).len() > 0
                &&& words(b).len() > 0
                &&& words(a + b) == words(a).drop_last().push(words(a).last() + words(b)[0])
                    + words(b).drop_first()
            } else {
                words(a + b) == words(a) + words(b)
            }
        }),
    decreases b.len(),
{
    let s = a + b;
    let through = a.len() > 0 && b.len() > 0 && !white_space(a.last()) && !white_space(b[0]);
    if through {
        lemma_words_nonempty(a);
        lemma_words_begin(b);
    }
    if b.len() == 0 {
        assert(s =~= a);
        assert(words(a) + words(b) =~= words(a));
    } else {
        let t = b.drop_last();
        let c = b.last();
        assert(s.drop_last() =~= a + t);
        assert(s.last() == c);
        words_of_cut(a, t);
        if b.len() == 1 {
            assert(a + t =~= a);
            assert(words(t) =~= seq![]);
            if white_space(c) {
                assert(words(a) + words(b) =~= words(a));
            } else {
                assert(words(b) =~= seq![seq![c]]);
                if through {
                    assert(s[s.len() - 2] == a.last());
                    assert(words(a).last() + seq![c] =~= words(a).last().push(c));
                    assert(words(s) =~= words(a).drop_last().push(words(a).last() + words(b)[0])
                        + words(b).drop_first());
                } else {
                    if a.len() > 0 {
                        assert(s[s.len() - 2] == a.last());
                    }
                    assert(words(s) =~= words(a) + words(b));
                }
            }
        } else {
            assert(s[s.len() - 2] == b[b.len() - 2]);
            assert(t[0] == b[0]);
            if through {
                lemma_words_begin(t);
                let head = words(a).drop_last().push(words(a).last() + words(t)[0]);
                assert(words(a + t) == head + words(t).drop_first());
                if white_space(c) {
                } else if white_space(b[b.len() - 2]) {
                    assert(words(b)[0] == words(t)[0]);
                    assert(words(s) =~= head + words(b).drop_first());
                } else {
                    if words(t).len() == 1 {
                        assert(words(t).drop_first() =~= seq![]);
                        assert(words(a + t) =~= head);
                        assert((words(a).last() + words(t)[0]).push(c) =~= words(a).last() + words(
                            b,
                        )[0]);
                        assert(words(s) =~= words(a).drop_last().push(
                            words(a).last() + words(b)[0],
                        ) + words(b).drop_first());
                    } else {
                        assert(words(b)[0] == words(t)[0]);
                        assert(words(a + t).last() == words(t).last());
                        assert(words(s) =~= head + words(b).drop_first());
                    }
                }
            } else {
                if white_space(c) {
                } else if white_space(b[b.len() - 2]) {
                    assert(words(s) =~= words(a) + words(b));
                } else {
                    lemma_words_nonempty(t);
                    assert(words(a + t).last() == words(t).last());
                    assert(words(s) =~= words(a) + words(b));
                }
            }
        }
    }
}

/// Joining lists one after another puts one space between their texts; a list of one text joins
/// to that text, and an empty one to nothing.
pub proof fn join_of_parts(a: Seq<Seq<char>>, b: Seq<Seq<char>>, w: Seq<char>)
    ensures
        join(seq![w]) == w,
        join(seq![]) == Seq::<char>::empty(),
        a.len() > 0 && b.len() > 0 ==> join(a + b) == join(a) + seq![' '] + join(b),
    decreases b.len(),
{
    if a.len() > 0 && b.len() > 0 {
        assert((a + b).drop_last() =~= a + b.drop_last());
        if b.len() == 1 {
            assert(a + b.drop_last() =~= a);
        } else {
            join_of_parts(a, b.drop_last(), w);
        }
        assert(join(a + b) =~= join(a) + seq![' '] + join(b));
    }
}

/// Every character of `s` is white space.
pub open spec fn all_white(s: Seq<char>) -> bool {
    forall|i: int| 0 <= i < s.len() ==> white_space(#[trigger] s[i])
}

/// Trimming takes the white space around a text off and leaves the text as it is, whatever is
/// inside it.
pub proof fn trim_takes_white_space_off(before: Seq<char>, text: Seq<char>, after: Seq<char>)
    requires
        all_white(before),
        all_white(after),
        text.len() > 0 ==> !white_space(text[0]) && !white_space(text.last()),
    ensures
        trim(before + text + after) == text,
{
    lemma_trim_end_exact(before + text, after);
    if text.len() == 0 {
        assert(before + text =~= before);
        assert(Seq::<char>::empty() + before =~= before);
        lemma_trim_end_exact(Seq::<char>::empty(), before);
        assert(trim(before + text + after) =~= text);
    } else {
        lemma_trim_start_exact(before, text);
    }
}

/// Trimming at the end takes white space off the end.
proof fn lemma_trim_end_exact(s: Seq<char>, after: Seq<char>)
    requires
        all_white(after),
    ensures
        trim_end(s + after) == trim_end(s),
    decreases after.len(),
{
    if after.len() == 0 {
        assert(s + after =~= s);
    } else {
        assert((s + after).drop_last() =~= s + after.drop_last());
        assert(white_space(after[after.len() - 1]));
        assert forall|i: int| 0 <= i < after.len() - 1 implies white_space(
            #[trigger] after.drop_last()[i],
        ) by {
            assert(white_space(after[i]));
        }
        lemma_trim_end_exact(s, after.drop_last());
    }
}

/// Trimming at the beginning takes white space off the beginning.
proof fn lemma_trim_start_exact(before: Seq<char>, s: Seq<char>)
    requires
        all_white(before),
        s.len() > 0,
        !white_space(s[0]),
    ensures
        trim_start(before + s) == s,
    decreases before.len(),
{
    if before.len() == 0 {
        assert(before + s =~= s);
    } else {
        assert((before + s).drop_first() =~= before.drop_first() + s);
        assert(white_space(before[0]));
        assert forall|i: int| 0 <= i < before.len() - 1 implies white_space(
            #[trigger] before.drop_first()[i],
        ) by {
            assert(white_space(before[i + 1]));
        }
        lemma_trim_start_exact(before.drop_first(), s);
    }
}

/// Trimming characters off the end takes off those that are of the set, up to the last one that
/// is not.
pub proof fn trim_end_of_takes_the_set_off(text: Seq<char>, marks: Seq<char>, set: Seq<char>)
    requires
        forall|i: int| 0 <= i < marks.len() ==> set.contains(#[trigger] marks[i]),
        text.len() > 0 ==> !set.contains(text.last()),
    ensures
        trim_end_of(text + marks, set) == text,
    decreases marks.len(),
{
    if marks.len() == 0 {
        assert(text + marks =~= text);
    } else {
        assert((text + marks).drop_last() =~= text + marks.drop_last());
        assert(set.contains(marks[marks.len() - 1]));
        assert forall|i: int| 0 <= i < marks.len() - 1 implies set.contains(
            #[trigger] marks.drop_last()[i],
        ) by {
            assert(set.contains(marks[i]));
        }
        trim_end_of_takes_the_set_off(text, marks.drop_last(), set);
    }
}

/// What is said of lists of strings and of optional strings is said of their texts.
pub proof fn texts_are_faithful(list: Seq<String>, s: String)
    ensures
        texts(list).len() == list.len(),
        forall|i: int| 0 <= i < list.len() ==> #[trigger] texts(list)[i] == list[i]@,
        text_of(Some(s)) == Some(s@),
        text_of(None) == None::<Seq<char>>,
{
}

/// Lowering an ASCII letter replaces a capital by the small letter in its place, and leaves every
/// other character as it is.
pub proof fn ascii_lower_replaces_capitals(c: char)
    ensures
        'A' <= c && c <= 'Z' ==> ascii_lower(c) as int - 'a' as int == c as int - 'A' as int,
        c < 'A' || 'Z' < c ==> ascii_lower(c) == c,
{
}

/// The lower-case form of an ASCII text is that of its letters, one by one; that of any other
/// text is what Unicode says.
pub proof fn lower_case_is_that_of_unicode(s: Seq<char>)
    ensures
        is_ascii_chars(s) ==> lowercase(s).len() == s.len() && forall|i: int|
            0 <= i < s.len() ==> #[trigger] lowercase(s)[i] == ascii_lower(s[i]),
        !is_ascii_chars(s) ==> lowercase(s) == unicode_lowercase(s),
{
}

/// A text without white space in it is one word, whatever its characters are; a text without
/// characters has no words.
pub proof fn only_white_space_separates_words(text: Seq<char>)
    requires
        forall|i: int| 0 <= i < text.len() ==> !white_space(#[trigger] text[i]),
    ensures
        words(text) == if text.len() > 0 {
            seq![text]
        } else {
            seq![]
        },
{
    if text.len() > 0 {
        words_of_word(text);
    }
}

} // verus!
