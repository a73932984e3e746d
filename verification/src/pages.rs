//! Pages of a list.

use vstd::prelude::*;

verus! {

/// `s` without its first `n` items.
pub open spec fn after_first<T>(s: Seq<T>, n: nat) -> Seq<T> {
    if s.len() <= n {
        Seq::empty()
    } else {
        s.skip(n as int)
    }
}

/// The first `n` items of `s`, or all if there are fewer.
pub open spec fn first_items<T>(s: Seq<T>, n: nat) -> Seq<T> {
    if s.len() <= n {
        s
    } else {
        s.take(n as int)
    }
}

/// At most `limit` items of `s`, after the first `offset`.
pub open spec fn page_of<T>(s: Seq<T>, offset: nat, limit: nat) -> Seq<T> {
    first_items(after_first(s, offset), limit)
}

/// Keeps at most `limit` items, after the first `offset`.
pub fn page<T>(items: Vec<T>, offset: usize, limit: usize) -> (out: Vec<T>)
    ensures
        out@ == page_of(items@, offset as nat, limit as nat),
{
    let ghost all = items@;
    let mut items = items;
    let mut out: Vec<T> = if items.len() <= offset {
        Vec::new()
    } else {
        items.split_off(offset)
    };
    assert(out@ =~= after_first(all, offset as nat));
    out.truncate(limit);
    out
}

/// A page holds the items at its places in the list, in order, and is as long
/// as the list allows.
pub proof fn page_items<T>(s: Seq<T>, offset: nat, limit: nat)
    ensures
        page_of(s, offset, limit).len() <= limit,
        page_of(s, offset, limit).len() == (if s.len() <= offset {
            0
        } else if s.len() - offset <= limit {
            s.len() - offset
        } else {
            limit as int
        }),
        forall|i: int|
            0 <= i < page_of(s, offset, limit).len() ==> #[trigger] page_of(s, offset, limit)[i]
                == s[offset + i],
{
}

/// The first items of a list are as many as are asked for, or all there are,
/// each in its place; what comes after them makes up the rest.
pub proof fn first_items_are_the_beginning<T>(s: Seq<T>, n: nat)
    ensures
        first_items(s, n).len() == (if s.len() < n {
            s.len()
        } else {
            n
        }),
        forall|i: int| 0 <= i < first_items(s, n).len() ==> #[trigger] first_items(s, n)[i] == s[i],
        first_items(s, n) + after_first(s, n) == s,
{
    assert(first_items(s, n) + after_first(s, n) =~= s);
}

} // verus!
