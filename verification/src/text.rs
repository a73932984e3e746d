//! Searching, cutting and rewriting text, stated over its characters.

use vstd::prelude::*;
use vstd::slice::slice_subrange;
use vstd::string::StringSliceAdditionalSpecFns;
use vstd::utf8::encode_utf8_decode_utf8;

verus! {

/// `String::push` appends one character to the end of the string.
pub assume_specification[ String::push ](s: &mut String, c: char)
    ensures
        final(s)@ == old(s)@.push(c),
;

/// The characters of a string that may be missing.
pub open spec fn opt_text(s: Option<String>) -> Option<Seq<char>> {
    match s {
        Some(t) => Some(t@),
        None => None,
    }
}

/// The characters of each string.
pub open spec fn texts(strings: Seq<String>) -> Seq<Seq<char>> {
    strings.map_values(|s: String| s@)
}

/// The characters of a string, in order.
pub fn chars_of(s: &str) -> (chars: Vec<char>)
    ensures
        chars@ == s@,
{
    let mut chars: Vec<char> = Vec::new();
    for c in it: s.chars()
        invariant
            chars@ == it.seq().take(it.index() as int),
            it.seq() == s@,
    {
        chars.push(c);
    }
    chars
}

/// The string made of the given characters.
pub fn string_of(chars: &[char]) -> (s: String)
    ensures
        s@ == chars@,
{
    let mut s = String::new();
    for i in 0..chars.len()
        invariant
            s@ == chars@.take(i as int),
    {
        s.push(chars[i]);
    }
    s
}

/// Whether two strings hold the same characters.
pub fn same_text(a: &str, b: &str) -> (same: bool)
    ensures
        same == (a@ == b@),
{
    let x = a.as_bytes();
    let y = b.as_bytes();
    proof {
        encode_utf8_decode_utf8(a@);
        encode_utf8_decode_utf8(b@);
    }
    if x.len() != y.len() {
        return false;
    }
    for i in 0..x.len()
        invariant
            x@.len() == y@.len(),
            x@ == a.spec_bytes(),
            y@ == b.spec_bytes(),
            forall|j: int| 0 <= j < i ==> x@[j] == y@[j],
    {
        if x[i] != y[i] {
            return false;
        }
    }
    assert(x@ =~= y@);
    true
}

/// Two pieces of text, one after the other.
pub fn joined(a: &str, b: &str) -> (s: String)
    ensures
        s@ == a@ + b@,
{
    let mut s = a.to_owned();
    s.append(b);
    s
}

// ---------------------------------------------------------------------------
// Searching

/// `part` stands in `s` from position `i` on.
pub open spec fn occurs_at(s: Seq<char>, part: Seq<char>, i: int) -> bool {
    0 <= i && i + part.len() <= s.len() && s.subrange(i, i + part.len()) == part
}

/// `part` stands somewhere in `s`.
pub open spec fn has_part(s: Seq<char>, part: Seq<char>) -> bool {
    exists|i: int| occurs_at(s, part, i)
}

/// `s` begins with `part`.
pub open spec fn begins_with(s: Seq<char>, part: Seq<char>) -> bool {
    occurs_at(s, part, 0)
}

/// Position `i` is the leftmost at which `part` stands in `s`.
pub open spec fn first_at(s: Seq<char>, part: Seq<char>, i: int) -> bool {
    occurs_at(s, part, i) && forall|j: int| 0 <= j < i ==> !occurs_at(s, part, j)
}

/// The leftmost position at which `part` stands in `s`, if there is one.
pub open spec fn find(s: Seq<char>, part: Seq<char>) -> Option<int> {
    if has_part(s, part) {
        Some(choose|i: int| first_at(s, part, i))
    } else {
        None
    }
}

/// A part that occurs has a leftmost occurrence, and `find` gives it.
pub proof fn lemma_find(s: Seq<char>, part: Seq<char>)
    ensures
        has_part(s, part) <==> find(s, part) is Some,
        find(s, part) matches Some(i) ==> first_at(s, part, i),
{
    if has_part(s, part) {
        let i = choose|i: int| occurs_at(s, part, i);
        lemma_first_exists(s, part, i);
    }
}

proof fn lemma_first_exists(s: Seq<char>, part: Seq<char>, i: int)
    requires
        occurs_at(s, part, i),
    ensures
        exists|k: int| first_at(s, part, k),
    decreases i,
{
    if exists|j: int| 0 <= j < i && occurs_at(s, part, j) {
        let j = choose|j: int| 0 <= j < i && occurs_at(s, part, j);
        lemma_first_exists(s, part, j);
    } else {
        assert(first_at(s, part, i));
    }
}

/// The leftmost occurrence is unique, so exhibiting it determines `find`.
pub proof fn lemma_find_is(s: Seq<char>, part: Seq<char>, i: int)
    requires
        first_at(s, part, i),
    ensures
        find(s, part) == Some(i),
{
    assert(has_part(s, part));
    lemma_find(s, part);
    let k = find(s, part)->0;
    assert(first_at(s, part, k));
    assert(k == i) by {
        if k < i {
            assert(!occurs_at(s, part, k));
        }
        if i < k {
            assert(!occurs_at(s, part, i));
        }
    }
}

/// Whether `part` stands in `s` at position `i`.
fn stands_at(s: &[char], part: &[char], i: usize) -> (yes: bool)
    requires
        i <= s@.len(),
    ensures
        yes == occurs_at(s@, part@, i as int),
{
    let len = s.len();
    if part.len() > len - i {
        return false;
    }
    for k in 0..part.len()
        invariant
            len == s@.len(),
            i + part@.len() <= len,
            forall|j: int| 0 <= j < k ==> s@[i + j] == part@[j],
    {
        if s[i + k] != part[k] {
            proof {
                let cut = s@.subrange(i as int, i + part@.len());
                assert(cut[k as int] == s@[i + k]);
            }
            return false;
        }
    }
    assert(s@.subrange(i as int, i + part@.len()) =~= part@);
    true
}

/// The leftmost position at which `part` stands in `s`.
pub fn position(s: &[char], part: &[char]) -> (at: Option<usize>)
    ensures
        match at {
            Some(i) => find(s@, part@) == Some(i as int) && first_at(s@, part@, i as int),
            None => find(s@, part@) is None,
        },
{
    let mut i: usize = 0;
    loop
        invariant
            i <= s@.len(),
            forall|j: int| 0 <= j < i ==> !occurs_at(s@, part@, j),
        decreases s@.len() - i,
    {
        if stands_at(s, part, i) {
            proof {
                lemma_find_is(s@, part@, i as int);
            }
            return Some(i);
        }
        if i == s.len() {
            assert(forall|j: int| !occurs_at(s@, part@, j));
            return None;
        }
        i += 1;
    }
}

/// Whether `part` stands somewhere in `s`.
pub fn contains(s: &str, part: &str) -> (yes: bool)
    ensures
        yes == has_part(s@, part@),
{
    let chars = chars_of(s);
    let wanted = chars_of(part);
    proof {
        lemma_find(s@, part@);
    }
    match position(chars.as_slice(), wanted.as_slice()) {
        Some(_) => true,
        None => false,
    }
}

/// Whether `s` begins with `part`.
pub fn starts_with(s: &str, part: &str) -> (yes: bool)
    ensures
        yes == begins_with(s@, part@),
{
    let chars = chars_of(s);
    let wanted = chars_of(part);
    stands_at(chars.as_slice(), wanted.as_slice(), 0)
}

// ---------------------------------------------------------------------------
// Cutting

/// What stands before and after the leftmost `mark` in `s`, if `s` holds it.
pub open spec fn split_at_mark(s: Seq<char>, mark: Seq<char>) -> Option<(Seq<char>, Seq<char>)> {
    match find(s, mark) {
        Some(i) => Some((s.take(i), s.skip(i + mark.len()))),
        None => None,
    }
}

/// Cuts `s` at the leftmost `mark`.
pub fn split_once(s: &str, mark: &str) -> (parts: Option<(String, String)>)
    ensures
        match parts {
            Some((before, after)) => split_at_mark(s@, mark@) == Some((before@, after@)),
            None => split_at_mark(s@, mark@) is None,
        },
{
    let chars = chars_of(s);
    let wanted = chars_of(mark);
    let len = chars.len();
    match position(chars.as_slice(), wanted.as_slice()) {
        Some(i) => {
            let before = slice_subrange(chars.as_slice(), 0, i);
            let after = slice_subrange(chars.as_slice(), i + wanted.len(), len);
            assert(before@ =~= s@.take(i as int));
            assert(after@ =~= s@.skip(i + mark@.len()));
            Some((string_of(before), string_of(after)))
        },
        None => None,
    }
}

/// The first `n` characters of `s`, or all of them if there are fewer.
pub open spec fn at_most(s: Seq<char>, n: nat) -> Seq<char> {
    if s.len() <= n {
        s
    } else {
        s.take(n as int)
    }
}

/// Keeps at most the first `n` characters.
pub fn shortened(s: &str, n: usize) -> (cut: String)
    ensures
        cut@ == at_most(s@, n as nat),
{
    let chars = chars_of(s);
    if chars.len() <= n {
        s.to_owned()
    } else {
        let kept = slice_subrange(chars.as_slice(), 0, n);
        assert(kept@ =~= s@.take(n as int));
        string_of(kept)
    }
}

// ---------------------------------------------------------------------------
// Rewriting

/// A replacement that is not longer than what it replaces never makes text
/// longer.
pub proof fn lemma_replaced_len(s: Seq<char>, part: Seq<char>, new: Seq<char>)
    requires
        new.len() <= part.len(),
    ensures
        replaced(s, part, new).len() <= s.len(),
    decreases s.len(),
{
    lemma_find(s, part);
    if let Some(i) = find(s, part) {
        if part.len() > 0 {
            lemma_replaced_len(s.skip(i + part.len()), part, new);
        }
    }
}

/// `s` with every occurrence of `part`, taken from the left and without
/// overlap, replaced by `new`. An empty `part` replaces nothing.
pub open spec fn replaced(s: Seq<char>, part: Seq<char>, new: Seq<char>) -> Seq<char>
    decreases s.len(),
{
    match find(s, part) {
        Some(i) => if part.len() == 0 {
            s
        } else {
            proof {
                lemma_find(s, part);
            }
            s.take(i) + new + replaced(s.skip(i + part.len()), part, new)
        },
        None => s,
    }
}

/// Text that no occurrence begins in is passed over.
pub proof fn lemma_replaced_after(
    head: Seq<char>,
    tail: Seq<char>,
    part: Seq<char>,
    new: Seq<char>,
)
    requires
        part.len() > 0,
        forall|k: int| 0 <= k < head.len() ==> !#[trigger] occurs_at(head + tail, part, k),
    ensures
        replaced(head + tail, part, new) == head + replaced(tail, part, new),
{
    let s = head + tail;
    let n = head.len() as int;
    lemma_find(s, part);
    lemma_find(tail, part);
    assert forall|j: int| #[trigger] occurs_at(tail, part, j) implies occurs_at(s, part, n + j) by {
        assert(s.subrange(n + j, n + j + part.len()) =~= tail.subrange(j, j + part.len()));
    }
    match find(tail, part) {
        Some(j) => {
            assert(occurs_at(s, part, n + j));
            assert forall|k: int| 0 <= k < n + j implies !occurs_at(s, part, k) by {
                if k >= n && occurs_at(s, part, k) {
                    assert(tail.subrange(k - n, k - n + part.len()) =~= s.subrange(
                        k,
                        k + part.len(),
                    ));
                    assert(occurs_at(tail, part, k - n));
                }
            }
            lemma_find_is(s, part, n + j);
            assert(s.take(n + j) =~= head + tail.take(j));
            assert(s.skip(n + j + part.len()) =~= tail.skip(j + part.len()));
            assert(replaced(s, part, new) =~= head + replaced(tail, part, new));
        },
        None => {
            if has_part(s, part) {
                let k = find(s, part)->0;
                assert(k >= n);
                assert(tail.subrange(k - n, k - n + part.len()) =~= s.subrange(
                    k,
                    k + part.len(),
                ));
                assert(occurs_at(tail, part, k - n));
            }
        },
    }
}

/// An occurrence at the very beginning is replaced.
pub proof fn lemma_replaced_here(tail: Seq<char>, part: Seq<char>, new: Seq<char>)
    requires
        part.len() > 0,
    ensures
        replaced(part + tail, part, new) == new + replaced(tail, part, new),
{
    let s = part + tail;
    assert(s.subrange(0, part.len() as int) =~= part);
    lemma_find_is(s, part, 0);
    assert(s.skip(part.len() as int) =~= tail);
    assert(s.take(0) + new =~= new);
}

/// Replaces every occurrence of `part` by `new`.
pub fn replace(s: &str, part: &str, new: &str) -> (out: String)
    requires
        part@.len() > 0,
    ensures
        out@ == replaced(s@, part@, new@),
{
    let chars = chars_of(s);
    let wanted = chars_of(part);
    let mut out = String::new();
    let mut from: usize = 0;
    assert(s@.skip(0) =~= s@);
    loop
        invariant
            chars@ == s@,
            wanted@ == part@,
            part@.len() > 0,
            from <= s@.len(),
            out@ + replaced(s@.skip(from as int), part@, new@) == replaced(s@, part@, new@),
        decreases s@.len() - from,
    {
        let rest = slice_subrange(chars.as_slice(), from, chars.len());
        assert(rest@ =~= s@.skip(from as int));
        match position(rest, wanted.as_slice()) {
            Some(i) => {
                let kept = slice_subrange(rest, 0, i);
                let piece = string_of(kept);
                let ghost before = out@;
                out.append(piece.as_str());
                out.append(new);
                proof {
                    assert(kept@ =~= rest@.take(i as int));
                    assert(rest@.skip(i + part@.len()) =~= s@.skip(from + i + part@.len()));
                    assert(out@ + replaced(s@.skip(from + i + part@.len()), part@, new@) =~= before
                        + replaced(rest@, part@, new@));
                }
                from = from + i + wanted.len();
            },
            None => {
                let piece = string_of(rest);
                out.append(piece.as_str());
                return out;
            },
        }
    }
}

// ---------------------------------------------------------------------------
// Laws

/// A part stands at a place exactly if the characters from there on are those
/// of the part, one by one.
pub proof fn parts_stand_by_character(s: Seq<char>, part: Seq<char>, i: int)
    ensures
        occurs_at(s, part, i) <==> {
            &&& 0 <= i
            &&& i + part.len() <= s.len()
            &&& forall|k: int| 0 <= k < part.len() ==> #[trigger] s[i + k] == part[k]
        },
{
    if 0 <= i && i + part.len() <= s.len() {
        let cut = s.subrange(i, i + part.len());
        if forall|k: int| 0 <= k < part.len() ==> #[trigger] s[i + k] == part[k] {
            assert forall|k: int| 0 <= k < part.len() implies cut[k] == part[k] by {
                assert(s[i + k] == part[k]);
            }
            assert(cut =~= part);
        }
        if cut == part {
            assert forall|k: int| 0 <= k < part.len() implies #[trigger] s[i + k] == part[k] by {
                assert(cut[k] == s[i + k]);
            }
        }
    }
}

/// Text holds a part that something stands before and after.
pub proof fn text_holds_its_parts(a: Seq<char>, part: Seq<char>, b: Seq<char>)
    ensures
        has_part(a + part + b, part),
        occurs_at(a + part + b, part, a.len() as int),
{
    let s = a + part + b;
    assert(s.subrange(a.len() as int, (a.len() + part.len()) as int) =~= part);
    assert(occurs_at(s, part, a.len() as int));
}

/// Text that holds a part is made of it and of what stands before and after.
pub proof fn parts_come_out(s: Seq<char>, part: Seq<char>)
    requires
        has_part(s, part),
    ensures
        exists|a: Seq<char>, b: Seq<char>| s == #[trigger] (a + part + b),
{
    let i = choose|i: int| occurs_at(s, part, i);
    let a = s.take(i);
    let b = s.skip(i + part.len());
    assert(s.subrange(i, i + part.len()) == part);
    assert(s =~= a + part + b);
}

/// Text begins with a part exactly if it is the part with something after it.
pub proof fn beginnings_by_character(s: Seq<char>, part: Seq<char>)
    ensures
        begins_with(s, part) <==> part.len() <= s.len() && forall|k: int|
            0 <= k < part.len() ==> #[trigger] s[k] == part[k],
{
    parts_stand_by_character(s, part, 0);
    if begins_with(s, part) {
        assert forall|k: int| 0 <= k < part.len() implies #[trigger] s[k] == part[k] by {
            assert(s[0 + k] == part[k]);
        }
    }
    if part.len() <= s.len() && forall|k: int| 0 <= k < part.len() ==> #[trigger] s[k] == part[k] {
        assert forall|k: int| 0 <= k < part.len() implies #[trigger] s[0 + k] == part[k] by {
            assert(s[k] == part[k]);
        }
    }
}

/// Text is cut at the first mark: the pieces and the mark make up the text, and
/// no mark begins before the cut. It is not cut exactly if it holds no mark.
pub proof fn cut_at_the_first_mark(s: Seq<char>, mark: Seq<char>)
    ensures
        split_at_mark(s, mark) matches Some((a, b)) ==> s == a + mark + b && forall|j: int|
            0 <= j < a.len() ==> !occurs_at(s, mark, j),
        split_at_mark(s, mark) is None <==> forall|j: int| !occurs_at(s, mark, j),
{
    lemma_find(s, mark);
    if let Some(i) = find(s, mark) {
        assert(s =~= s.take(i) + mark + s.skip(i + mark.len()));
    }
}

/// Text that is cut short keeps its beginning: it has as many characters as are
/// asked for, or all there are, each in its place.
pub proof fn short_text_is_the_beginning(s: Seq<char>, n: nat)
    ensures
        at_most(s, n).len() == (if s.len() < n {
            s.len()
        } else {
            n
        }),
        forall|i: int| 0 <= i < at_most(s, n).len() ==> #[trigger] at_most(s, n)[i] == s[i],
{
}

/// Text that does not hold the part is kept when the part is replaced.
pub proof fn text_without_part_is_kept(s: Seq<char>, part: Seq<char>, new: Seq<char>)
    requires
        !has_part(s, part),
    ensures
        replaced(s, part, new) == s,
{
}

/// Replacing goes piece by piece, where no occurrence lies across the seam.
pub proof fn replacing_goes_piece_by_piece(
    a: Seq<char>,
    b: Seq<char>,
    part: Seq<char>,
    new: Seq<char>,
)
    requires
        part.len() > 0,
        forall|k: int|
            0 <= k < a.len() && a.len() < k + part.len() ==> !#[trigger] occurs_at(a + b, part, k),
    ensures
        replaced(a + b, part, new) == replaced(a, part, new) + replaced(b, part, new),
    decreases a.len(),
{
    let s = a + b;
    lemma_find(a, part);
    match find(a, part) {
        Some(i) => {
            let rest = a.skip(i + part.len());
            assert forall|k: int| 0 <= k && k + part.len() <= a.len() implies occurs_at(s, part, k)
                == occurs_at(a, part, k) by {
                assert(s.subrange(k, k + part.len()) =~= a.subrange(k, k + part.len()));
            }
            assert forall|k: int| 0 <= k < i implies !occurs_at(s, part, k) by {
                assert(!occurs_at(a, part, k));
            }
            lemma_find_is(s, part, i);
            assert(s.take(i) =~= a.take(i));
            assert(s.skip(i + part.len()) =~= rest + b);
            assert forall|k: int|
                0 <= k < rest.len() && rest.len() < k + part.len() implies !#[trigger] occurs_at(
                rest + b,
                part,
                k,
            ) by {
                let at = k + i + part.len();
                assert(!occurs_at(s, part, at));
                if occurs_at(rest + b, part, k) {
                    assert(s.subrange(at, at + part.len()) =~= (rest + b).subrange(
                        k,
                        k + part.len(),
                    ));
                }
            }
            replacing_goes_piece_by_piece(rest, b, part, new);
            assert(replaced(s, part, new) =~= replaced(a, part, new) + replaced(b, part, new));
        },
        None => {
            assert forall|k: int| 0 <= k < a.len() implies !#[trigger] occurs_at(s, part, k) by {
                if k + part.len() <= a.len() && occurs_at(s, part, k) {
                    assert(a.subrange(k, k + part.len()) =~= s.subrange(k, k + part.len()));
                    assert(occurs_at(a, part, k));
                }
            }
            lemma_replaced_after(a, b, part, new);
        },
    }
}

/// The part itself becomes what it is replaced by.
pub proof fn part_is_replaced(part: Seq<char>, new: Seq<char>)
    requires
        part.len() > 0,
    ensures
        replaced(part, part, new) == new,
{
    lemma_replaced_here(Seq::empty(), part, new);
    lemma_find(Seq::empty(), part);
    assert(part + Seq::empty() =~= part);
    assert(new + Seq::empty() =~= new);
}

} // verus!
