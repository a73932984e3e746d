//! White space: trimming text and gathering its words.

use vstd::prelude::*;
use vstd::slice::slice_subrange;

use crate::text::{chars_of, string_of};

verus! {

/// The characters with the Unicode property `White_Space`.
pub open spec fn white(c: char) -> bool {
    ||| '\u{9}' <= c <= '\u{d}'
    ||| c == '\u{20}'
    ||| c == '\u{85}'
    ||| c == '\u{a0}'
    ||| c == '\u{1680}'
    ||| '\u{2000}' <= c <= '\u{200a}'
    ||| c == '\u{2028}'
    ||| c == '\u{2029}'
    ||| c == '\u{202f}'
    ||| c == '\u{205f}'
    ||| c == '\u{3000}'
}

/// Whether `c` is white space.
pub fn is_white(c: char) -> (yes: bool)
    ensures
        yes == white(c),
{
    ('\u{9}' <= c && c <= '\u{d}') || c == '\u{20}' || c == '\u{85}' || c == '\u{a0}' || c
        == '\u{1680}' || ('\u{2000}' <= c && c <= '\u{200a}') || c == '\u{2028}' || c == '\u{2029}'
        || c == '\u{202f}' || c == '\u{205f}' || c == '\u{3000}'
}

/// `s` without the white space it begins with.
pub open spec fn without_lead(s: Seq<char>) -> Seq<char>
    decreases s.len(),
{
    if s.len() > 0 && white(s.first()) {
        without_lead(s.drop_first())
    } else {
        s
    }
}

/// `s` without the white space it ends with.
pub open spec fn without_tail(s: Seq<char>) -> Seq<char>
    decreases s.len(),
{
    if s.len() > 0 && white(s.last()) {
        without_tail(s.drop_last())
    } else {
        s
    }
}

/// `s` without white space at either end.
pub open spec fn trimmed(s: Seq<char>) -> Seq<char> {
    without_tail(without_lead(s))
}

/// Trimming never makes text longer.
pub proof fn lemma_trimmed_len(s: Seq<char>)
    ensures
        trimmed(s).len() <= s.len(),
{
    lemma_without_lead(s);
    lemma_without_tail_len(without_lead(s));
}

proof fn lemma_without_tail_len(s: Seq<char>)
    ensures
        without_tail(s).len() <= s.len(),
    decreases s.len(),
{
    if s.len() > 0 && white(s.last()) {
        lemma_without_tail_len(s.drop_last());
    }
}

/// The position of the first character at or after `from` that is not white
/// space, or the end.
fn skip_white(s: &[char], from: usize) -> (at: usize)
    requires
        from <= s@.len(),
    ensures
        from <= at <= s@.len(),
        s@.skip(at as int) == without_lead(s@.skip(from as int)),
        at < s@.len() ==> !white(s@[at as int]),
{
    let len = s.len();
    let mut at = from;
    while at < len && is_white(s[at])
        invariant
            len == s@.len(),
            from <= at <= len,
            without_lead(s@.skip(at as int)) == without_lead(s@.skip(from as int)),
        decreases len - at,
    {
        assert(s@.skip(at as int).drop_first() =~= s@.skip(at + 1));
        at += 1;
    }
    at
}

/// Removes white space from both ends.
pub fn trim(s: &str) -> (out: String)
    ensures
        out@ == trimmed(s@),
{
    let chars = chars_of(s);
    let start = skip_white(chars.as_slice(), 0);
    let mut end = chars.len();
    assert(s@.skip(0) =~= s@);
    assert(chars@.subrange(start as int, end as int) =~= without_lead(s@));
    while end > start && is_white(chars[end - 1])
        invariant
            chars@ == s@,
            start <= end <= chars@.len(),
            without_tail(chars@.subrange(start as int, end as int)) == trimmed(s@),
        decreases end,
    {
        assert(chars@.subrange(start as int, end as int).drop_last() =~= chars@.subrange(
            start as int,
            end - 1,
        ));
        end -= 1;
    }
    string_of(slice_subrange(chars.as_slice(), start, end))
}

/// The characters of `s` up to the first white space.
pub open spec fn leading_word(s: Seq<char>) -> Seq<char>
    decreases s.len(),
{
    if s.len() == 0 || white(s.first()) {
        Seq::empty()
    } else {
        seq![s.first()] + leading_word(s.drop_first())
    }
}

/// The runs of characters in `s` between white space, in order.
pub open spec fn words(s: Seq<char>) -> Seq<Seq<char>>
    decreases s.len(),
{
    let rest = without_lead(s);
    if rest.len() == 0 {
        Seq::empty()
    } else {
        proof {
            lemma_without_lead(s);
        }
        seq![leading_word(rest)] + words(rest.skip(leading_word(rest).len() as int))
    }
}

/// Dropping leading white space never makes text longer, and what is left
/// begins with a word.
pub proof fn lemma_without_lead(s: Seq<char>)
    ensures
        without_lead(s).len() <= s.len(),
        without_lead(s).len() > 0 ==> leading_word(without_lead(s)).len() > 0,
        leading_word(without_lead(s)).len() <= without_lead(s).len(),
    decreases s.len(),
{
    if s.len() > 0 && white(s.first()) {
        lemma_without_lead(s.drop_first());
    }
    lemma_leading_word_len(without_lead(s));
}

proof fn lemma_leading_word_len(s: Seq<char>)
    ensures
        leading_word(s).len() <= s.len(),
    decreases s.len(),
{
    if s.len() > 0 && !white(s.first()) {
        lemma_leading_word_len(s.drop_first());
    }
}

/// Pieces of text one after the other, with `gap` between neighbours.
pub open spec fn with_gaps(pieces: Seq<Seq<char>>, gap: Seq<char>) -> Seq<char>
    decreases pieces.len(),
{
    if pieces.len() == 0 {
        Seq::empty()
    } else if pieces.len() == 1 {
        pieces[0]
    } else {
        with_gaps(pieces.drop_last(), gap) + gap + pieces.last()
    }
}

/// The words of `s` with one space between neighbours.
pub open spec fn single_spaced(s: Seq<char>) -> Seq<char> {
    with_gaps(words(s), seq![' '])
}

/// Brings every stretch of white space down to one space, and drops it at
/// either end.
pub fn squeeze(s: &str) -> (out: String)
    ensures
        out@ == single_spaced(s@),
{
    let chars = chars_of(s);
    let len = chars.len();
    let mut out = String::new();
    let mut first = true;
    let mut at: usize = 0;
    let ghost mut done: Seq<Seq<char>> = Seq::empty();
    assert(s@.skip(0) =~= s@);
    assert(done + words(s@) =~= words(s@));
    loop
        invariant
            chars@ == s@,
            len == chars@.len(),
            at <= len,
            first == (done.len() == 0),
            out@ == with_gaps(done, seq![' ']),
            done + words(s@.skip(at as int)) == words(s@),
        decreases len - at,
    {
        let start = skip_white(chars.as_slice(), at);
        let ghost rest = s@.skip(start as int);
        if start == len {
            assert(done + words(s@.skip(at as int)) =~= done);
            return out;
        }
        proof {
            lemma_without_lead(s@.skip(at as int));
        }
        if !first {
            out.push(' ');
        }
        first = false;
        let ghost before = out@;
        let mut end = start;
        while end < len && !is_white(chars[end])
            invariant
                chars@ == s@,
                len == chars@.len(),
                start <= end <= len,
                out@ == before + s@.subrange(start as int, end as int),
                s@.subrange(start as int, end as int) + leading_word(s@.skip(end as int))
                    == leading_word(s@.skip(start as int)),
            decreases len - end,
        {
            assert(s@.skip(end as int).drop_first() =~= s@.skip(end + 1));
            assert(s@.subrange(start as int, end as int).push(s@[end as int]) =~= s@.subrange(
                start as int,
                end + 1,
            ));
            assert(s@.subrange(start as int, end as int) + (seq![s@[end as int]] + leading_word(
                s@.skip(end + 1),
            )) =~= s@.subrange(start as int, end + 1) + leading_word(s@.skip(end + 1)));
            out.push(chars[end]);
            end += 1;
        }
        proof {
            let word = leading_word(rest);
            assert(s@.subrange(start as int, end as int) + leading_word(s@.skip(end as int))
                =~= s@.subrange(start as int, end as int));
            assert(word == s@.subrange(start as int, end as int));
            assert(rest.skip(word.len() as int) =~= s@.skip(end as int));
            let next = done.push(word);
            assert(next.drop_last() =~= done);
            assert(next + words(s@.skip(end as int)) =~= done + (seq![word] + words(
                s@.skip(end as int),
            )));
            done = next;
        }
        at = end;
    }
}

// ---------------------------------------------------------------------------
// Laws

/// Every character is white space.
pub open spec fn all_white(s: Seq<char>) -> bool {
    forall|i: int| 0 <= i < s.len() ==> white(#[trigger] s[i])
}

/// No character is white space.
pub open spec fn no_white(s: Seq<char>) -> bool {
    forall|i: int| 0 <= i < s.len() ==> !white(#[trigger] s[i])
}

proof fn lemma_without_lead_after(lead: Seq<char>, s: Seq<char>)
    requires
        all_white(lead),
        s.len() > 0 ==> !white(s.first()),
    ensures
        without_lead(lead + s) == s,
    decreases lead.len(),
{
    if lead.len() == 0 {
        assert(lead + s =~= s);
    } else {
        assert(white(lead[0]));
        let rest = lead.drop_first();
        assert forall|i: int| 0 <= i < rest.len() implies white(#[trigger] rest[i]) by {
            assert(rest[i] == lead[i + 1]);
        }
        assert((lead + s).drop_first() =~= rest + s);
        lemma_without_lead_after(rest, s);
    }
}

proof fn lemma_without_tail_before(s: Seq<char>, tail: Seq<char>)
    requires
        all_white(tail),
        s.len() > 0 ==> !white(s.last()),
    ensures
        without_tail(s + tail) == s,
    decreases tail.len(),
{
    if tail.len() == 0 {
        assert(s + tail =~= s);
    } else {
        assert(white(tail[tail.len() - 1]));
        let rest = tail.drop_last();
        assert forall|i: int| 0 <= i < rest.len() implies white(#[trigger] rest[i]) by {
            assert(rest[i] == tail[i]);
        }
        assert((s + tail).drop_last() =~= s + rest);
        lemma_without_tail_before(s, rest);
    }
}

/// Trimming takes white space off either end, and nothing else.
pub proof fn trimming_takes_white_ends(lead: Seq<char>, s: Seq<char>, tail: Seq<char>)
    requires
        all_white(lead),
        all_white(tail),
        s.len() > 0 ==> !white(s.first()) && !white(s.last()),
    ensures
        trimmed(lead + s + tail) == s,
{
    if s.len() == 0 {
        let all = lead + s + tail;
        assert forall|i: int| 0 <= i < all.len() implies white(#[trigger] all[i]) by {
            if i < lead.len() {
                assert(all[i] == lead[i]);
            } else {
                assert(all[i] == tail[i - lead.len()]);
            }
        }
        lemma_without_lead_after(all, Seq::empty());
        assert(all + Seq::empty() =~= all);
        assert(trimmed(all) =~= s);
    } else {
        assert(lead + s + tail =~= lead + (s + tail));
        assert((s + tail).first() == s.first());
        lemma_without_lead_after(lead, s + tail);
        lemma_without_tail_before(s, tail);
    }
}

proof fn lemma_leading_word_is(word: Seq<char>, rest: Seq<char>)
    requires
        no_white(word),
        rest.len() > 0 ==> white(rest.first()),
    ensures
        leading_word(word + rest) == word,
    decreases word.len(),
{
    if word.len() == 0 {
        assert(word + rest =~= rest);
        assert(leading_word(word + rest) =~= word);
    } else {
        assert(!white(word[0]));
        let tail = word.drop_first();
        assert forall|i: int| 0 <= i < tail.len() implies !white(#[trigger] tail[i]) by {
            assert(tail[i] == word[i + 1]);
        }
        assert((word + rest).drop_first() =~= tail + rest);
        lemma_leading_word_is(tail, rest);
        assert(seq![word.first()] + tail =~= word);
    }
}

/// Pieces after a first one follow it with a gap.
pub proof fn gaps_follow_the_first(first: Seq<char>, more: Seq<Seq<char>>, gap: Seq<char>)
    requires
        more.len() > 0,
    ensures
        with_gaps(seq![first] + more, gap) == first + gap + with_gaps(more, gap),
    decreases more.len(),
{
    let all = seq![first] + more;
    if more.len() == 1 {
        assert(all.drop_last() =~= seq![first]);
        assert(with_gaps(all.drop_last(), gap) == first);
        assert(all.last() == more[0]);
    } else {
        let fewer = more.drop_last();
        assert(all.drop_last() =~= seq![first] + fewer);
        gaps_follow_the_first(first, fewer, gap);
        assert(with_gaps(all, gap) =~= first + gap + with_gaps(more, gap));
    }
}

proof fn lemma_words_not_empty(s: Seq<char>)
    ensures
        words(s).len() > 0 ==> with_gaps(words(s), seq![' ']).len() > 0,
        all_white(s) <==> words(s).len() == 0,
    decreases s.len(),
{
    let rest = without_lead(s);
    lemma_without_lead(s);
    lemma_lead_is_white(s);
    if rest.len() > 0 {
        let word = leading_word(rest);
        let more = words(rest.skip(word.len() as int));
        if more.len() > 0 {
            gaps_follow_the_first(word, more, seq![' ']);
        } else {
            assert(seq![word] + more =~= seq![word]);
        }
    }
}

proof fn lemma_lead_is_white(s: Seq<char>)
    ensures
        all_white(s) <==> without_lead(s).len() == 0,
    decreases s.len(),
{
    if s.len() > 0 {
        let rest = s.drop_first();
        lemma_lead_is_white(rest);
        if white(s.first()) {
            if all_white(rest) {
                assert forall|i: int| 0 <= i < s.len() implies white(#[trigger] s[i]) by {
                    if i > 0 {
                        assert(rest[i - 1] == s[i]);
                    }
                }
            }
            if all_white(s) {
                assert forall|i: int| 0 <= i < rest.len() implies white(#[trigger] rest[i]) by {
                    assert(rest[i] == s[i + 1]);
                }
            }
        } else {
            assert(!white(s[0]));
        }
    }
}

/// Text on one line begins with its first word; after it comes a single space
/// and the rest on one line, if the rest has a word.
pub proof fn lines_go_word_by_word(lead: Seq<char>, word: Seq<char>, rest: Seq<char>)
    requires
        all_white(lead),
        no_white(word),
        word.len() > 0,
        rest.len() > 0 ==> white(rest.first()),
    ensures
        single_spaced(lead + word + rest) == (if all_white(rest) {
            word
        } else {
            word + seq![' '] + single_spaced(rest)
        }),
{
    let s = lead + word + rest;
    assert(!white(word[0]));
    assert(s =~= lead + (word + rest));
    assert((word + rest).first() == word[0]);
    lemma_without_lead_after(lead, word + rest);
    lemma_leading_word_is(word, rest);
    assert((word + rest).skip(word.len() as int) =~= rest);
    assert(words(s) == seq![word] + words(rest));
    lemma_words_not_empty(rest);
    if words(rest).len() > 0 {
        gaps_follow_the_first(word, words(rest), seq![' ']);
    } else {
        assert(seq![word] + words(rest) =~= seq![word]);
    }
}

/// White space alone leaves nothing on the line.
pub proof fn white_lines_are_empty(s: Seq<char>)
    requires
        all_white(s),
    ensures
        single_spaced(s) == Seq::<char>::empty(),
{
    lemma_words_not_empty(s);
}

/// A line is empty exactly if there is nothing but white space.
pub proof fn lines_of_words_are_not_empty(s: Seq<char>)
    ensures
        single_spaced(s).len() == 0 <==> all_white(s),
{
    lemma_words_not_empty(s);
}

/// A single piece has no gap, and no piece gives nothing.
pub proof fn single_pieces_have_no_gap(piece: Seq<char>, gap: Seq<char>)
    ensures
        with_gaps(seq![piece], gap) == piece,
        with_gaps(Seq::empty(), gap).len() == 0,
{
}

} // verus!
