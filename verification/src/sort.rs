//! Stable sorting.

use vstd::multiset::Multiset;
use vstd::prelude::*;

use crate::pages::first_items;

verus! {

/// `before` ranks items: it is irreflexive and transitive, and of two items
/// that it sets apart, a third is set apart from at least one.
pub open spec fn ranks<T>(before: spec_fn(T, T) -> bool) -> bool {
    &&& forall|a: T| !#[trigger] before(a, a)
    &&& forall|a: T, b: T, c: T| #[trigger]
        before(a, b) && #[trigger] before(b, c) ==> before(a, c)
    &&& forall|a: T, b: T, c: T| #[trigger]
        before(a, c) ==> #[trigger] before(a, b) || before(b, c)
}

/// `s` with `e` put in front of the first item that `e` comes before.
pub open spec fn inserted<T>(s: Seq<T>, e: T, before: spec_fn(T, T) -> bool) -> Seq<T>
    decreases s.len(),
{
    if s.len() == 0 {
        seq![e]
    } else if before(e, s.first()) {
        seq![e] + s
    } else {
        seq![s.first()] + inserted(s.drop_first(), e, before)
    }
}

/// The items of `s` in rank order; items of one rank stay in the order that
/// they had.
pub open spec fn sorted<T>(s: Seq<T>, before: spec_fn(T, T) -> bool) -> Seq<T>
    decreases s.len(),
{
    if s.len() == 0 {
        Seq::empty()
    } else {
        inserted(sorted(s.drop_last(), before), s.last(), before)
    }
}

/// Two lists taken together from the front, the first one first where neither
/// head comes before the other.
spec fn merged<T>(a: Seq<T>, b: Seq<T>, before: spec_fn(T, T) -> bool) -> Seq<T>
    decreases a.len() + b.len(),
{
    if a.len() == 0 {
        b
    } else if b.len() == 0 {
        a
    } else if before(b.first(), a.first()) {
        seq![b.first()] + merged(a, b.drop_first(), before)
    } else {
        seq![a.first()] + merged(a.drop_first(), b, before)
    }
}

proof fn lemma_inserted_merged<T>(a: Seq<T>, b: Seq<T>, e: T, before: spec_fn(T, T) -> bool)
    requires
        ranks(before),
    ensures
        inserted(merged(a, b, before), e, before) == merged(a, inserted(b, e, before), before),
    decreases a.len() + b.len(),
{
    let m = merged(a, b, before);
    let n = inserted(b, e, before);
    if a.len() == 0 {
    } else if b.len() == 0 {
        assert(n =~= seq![e]);
        if before(e, a.first()) {
            assert(n.drop_first().len() == 0);
            assert(merged(a, n.drop_first(), before) == a);
            assert(merged(a, n, before) == seq![e] + a);
        } else {
            lemma_inserted_merged(a.drop_first(), b, e, before);
            assert(merged(a.drop_first(), b, before) =~= a.drop_first());
            assert(merged(a, n, before) == seq![a.first()] + merged(a.drop_first(), n, before));
        }
    } else if before(b.first(), a.first()) {
        assert(m.drop_first() =~= merged(a, b.drop_first(), before));
        if before(e, b.first()) {
            assert(before(e, a.first()));
            assert(n.drop_first() =~= b);
        } else {
            lemma_inserted_merged(a, b.drop_first(), e, before);
            assert(n.first() == b.first());
            assert(n.drop_first() =~= inserted(b.drop_first(), e, before));
        }
    } else {
        assert(m.drop_first() =~= merged(a.drop_first(), b, before));
        if before(e, a.first()) {
            assert(before(e, b.first()));
            assert(n.first() == e);
            assert(n.drop_first() =~= b);
        } else {
            lemma_inserted_merged(a.drop_first(), b, e, before);
            assert(n.first() == e || n.first() == b.first());
            assert(!before(n.first(), a.first()));
        }
    }
}

proof fn lemma_merged_sorted<T>(a: Seq<T>, b: Seq<T>, before: spec_fn(T, T) -> bool)
    requires
        ranks(before),
    ensures
        merged(sorted(a, before), sorted(b, before), before) == sorted(a + b, before),
    decreases b.len(),
{
    if b.len() == 0 {
        assert(a + b =~= a);
        if a.len() > 0 {
            lemma_inserted_len(sorted(a.drop_last(), before), a.last(), before);
        }
    } else {
        assert((a + b).drop_last() =~= a + b.drop_last());
        lemma_merged_sorted(a, b.drop_last(), before);
        lemma_inserted_merged(sorted(a, before), sorted(b.drop_last(), before), b.last(), before);
    }
}

proof fn lemma_inserted_len<T>(s: Seq<T>, e: T, before: spec_fn(T, T) -> bool)
    ensures
        inserted(s, e, before).len() == s.len() + 1,
    decreases s.len(),
{
    if s.len() > 0 && !before(e, s.first()) {
        lemma_inserted_len(s.drop_first(), e, before);
    }
}

/// A way to rank items of a type.
pub trait Order<T> {
    /// `a` comes before `b`.
    spec fn before(&self, a: T, b: T) -> bool;

    /// The order ranks items.
    proof fn ranking(&self)
        ensures
            ranks(|a: T, b: T| self.before(a, b)),
    ;

    /// Whether `a` comes before `b`.
    fn is_before(&self, a: &T, b: &T) -> (yes: bool)
        ensures
            yes == self.before(*a, *b),
    ;
}

/// `items` in the order that `order` gives.
pub open spec fn in_order<T, O: Order<T>>(items: Seq<T>, order: O) -> Seq<T> {
    sorted(items, |a: T, b: T| order.before(a, b))
}

fn reversed<T>(items: Vec<T>) -> (out: Vec<T>)
    ensures
        out@ == items@.reverse(),
{
    let ghost all = items@;
    let mut items = items;
    let mut out: Vec<T> = Vec::new();
    while items.len() > 0
        invariant
            items@.len() + out@.len() == all.len(),
            items@ == all.take(items@.len() as int),
            out@ == all.skip(items@.len() as int).reverse(),
        decreases items@.len(),
    {
        let ghost n = items@.len() as int;
        if let Some(e) = items.pop() {
            out.push(e);
            assert(out@ =~= all.skip(n - 1).reverse());
        }
    }
    assert(all.skip(0) =~= all);
    out
}

fn merge<T, O: Order<T>>(a: Vec<T>, b: Vec<T>, order: &O) -> (out: Vec<T>)
    ensures
        out@ == merged(a@, b@, |x: T, y: T| order.before(x, y)),
{
    let ghost before = |x: T, y: T| order.before(x, y);
    let ghost whole = merged(a@, b@, before);
    let mut out: Vec<T> = Vec::new();
    let mut left = reversed(a);
    let mut right = reversed(b);
    assert(left@.reverse() =~= a@);
    assert(right@.reverse() =~= b@);
    assert(out@ + whole =~= whole);
    while left.len() > 0 && right.len() > 0
        invariant
            before == (|x: T, y: T| order.before(x, y)),
            out@ + merged(left@.reverse(), right@.reverse(), before) == whole,
        decreases left@.len() + right@.len(),
    {
        let ghost l = left@;
        let ghost r = right@;
        let ghost sofar = out@;
        assert(l.reverse().first() == l.last());
        assert(r.reverse().first() == r.last());
        assert(l.reverse().drop_first() =~= l.drop_last().reverse());
        assert(r.reverse().drop_first() =~= r.drop_last().reverse());
        if order.is_before(&right[right.len() - 1], &left[left.len() - 1]) {
            if let Some(e) = right.pop() {
                out.push(e);
                assert(out@ + merged(l.reverse(), right@.reverse(), before) =~= sofar + merged(
                    l.reverse(),
                    r.reverse(),
                    before,
                ));
            }
        } else {
            if let Some(e) = left.pop() {
                out.push(e);
                assert(out@ + merged(left@.reverse(), r.reverse(), before) =~= sofar + merged(
                    l.reverse(),
                    r.reverse(),
                    before,
                ));
            }
        }
    }
    let mut rest = if left.len() > 0 {
        reversed(left)
    } else {
        reversed(right)
    };
    out.append(&mut rest);
    out
}

/// Sorts items, keeping the order of those that rank equal.
pub fn stable_sort<T, O: Order<T>>(items: Vec<T>, order: &O) -> (out: Vec<T>)
    ensures
        out@ == in_order(items@, *order),
    decreases items@.len(),
{
    let ghost before = |x: T, y: T| order.before(x, y);
    let ghost all = items@;
    let n = items.len();
    if n <= 1 {
        proof {
            if n == 1 {
                assert(all.drop_last() =~= Seq::empty());
                assert(sorted(all.drop_last(), before) =~= Seq::empty());
                assert(all =~= seq![all.last()]);
            }
        }
        return items;
    }
    let mut left = items;
    let right = left.split_off(n / 2);
    proof {
        order.ranking();
        lemma_merged_sorted(left@, right@, before);
        assert(left@ + right@ =~= all);
    }
    let left = stable_sort(left, order);
    let right = stable_sort(right, order);
    merge(left, right, order)
}

// ---------------------------------------------------------------------------
// Laws

proof fn lemma_inserted_parts<T>(s: Seq<T>, e: T, before: spec_fn(T, T) -> bool)
    ensures
        inserted(s, e, before).to_multiset() == s.to_multiset().insert(e),
    decreases s.len(),
{
    s.to_multiset_ensures();
    if s.len() == 0 {
        assert(seq![e] =~= Seq::<T>::empty().push(e));
        assert(s =~= Seq::empty());
    } else if before(e, s.first()) {
        vstd::seq_lib::lemma_multiset_commutative(seq![e], s);
        assert(seq![e] =~= Seq::<T>::empty().push(e));
        Seq::<T>::empty().to_multiset_ensures();
        assert((seq![e] + s).to_multiset() =~= s.to_multiset().insert(e));
    } else {
        let rest = s.drop_first();
        lemma_inserted_parts(rest, e, before);
        assert(s =~= seq![s.first()] + rest);
        vstd::seq_lib::lemma_multiset_commutative(seq![s.first()], rest);
        vstd::seq_lib::lemma_multiset_commutative(seq![s.first()], inserted(rest, e, before));
        assert(inserted(s, e, before).to_multiset() =~= s.to_multiset().insert(e));
    }
}

/// Sorting loses no item and adds none.
pub proof fn sorted_keeps_items<T>(s: Seq<T>, before: spec_fn(T, T) -> bool)
    ensures
        sorted(s, before).to_multiset() == s.to_multiset(),
        sorted(s, before).len() == s.len(),
    decreases s.len(),
{
    s.to_multiset_ensures();
    if s.len() == 0 {
        assert(s =~= Seq::empty());
    } else {
        sorted_keeps_items(s.drop_last(), before);
        lemma_inserted_parts(sorted(s.drop_last(), before), s.last(), before);
        lemma_inserted_len(sorted(s.drop_last(), before), s.last(), before);
        s.drop_last().to_multiset_ensures();
        assert(s =~= s.drop_last().push(s.last()));
    }
}

/// No item stands after one that it comes before.
pub open spec fn is_sorted<T>(s: Seq<T>, before: spec_fn(T, T) -> bool) -> bool {
    forall|i: int, j: int| 0 <= i < j < s.len() ==> !before(#[trigger] s[j], #[trigger] s[i])
}

proof fn lemma_inserted_sorted<T>(s: Seq<T>, e: T, before: spec_fn(T, T) -> bool)
    requires
        ranks(before),
        is_sorted(s, before),
    ensures
        is_sorted(inserted(s, e, before), before),
        forall|i: int|
            0 <= i < inserted(s, e, before).len() ==> #[trigger] inserted(s, e, before)[i] == e
                || s.contains(inserted(s, e, before)[i]),
    decreases s.len(),
{
    let out = inserted(s, e, before);
    if s.len() == 0 {
    } else if before(e, s.first()) {
        assert forall|i: int| 0 <= i < out.len() implies #[trigger] out[i] == e || s.contains(
            out[i],
        ) by {
            if i > 0 {
                assert(out[i] == s[i - 1]);
            }
        }
        assert forall|i: int, j: int| 0 <= i < j < out.len() implies !before(
            #[trigger] out[j],
            #[trigger] out[i],
        ) by {
            assert(out[j] == s[j - 1]);
            if i == 0 {
                assert(!before(s[j - 1], s.first()));
                if before(s[j - 1], e) {
                    assert(before(s[j - 1], s.first()));
                }
            } else {
                assert(out[i] == s[i - 1]);
            }
        }
    } else {
        let rest = s.drop_first();
        assert(is_sorted(rest, before)) by {
            assert forall|i: int, j: int| 0 <= i < j < rest.len() implies !before(
                #[trigger] rest[j],
                #[trigger] rest[i],
            ) by {
                assert(rest[j] == s[j + 1] && rest[i] == s[i + 1]);
            }
        }
        lemma_inserted_sorted(rest, e, before);
        let tail = inserted(rest, e, before);
        assert forall|i: int| 0 <= i < out.len() implies #[trigger] out[i] == e || s.contains(
            out[i],
        ) by {
            if i == 0 {
                assert(out[i] == s[0]);
            } else {
                assert(out[i] == tail[i - 1]);
                if tail[i - 1] != e {
                    let k = choose|k: int| 0 <= k < rest.len() && rest[k] == tail[i - 1];
                    assert(s[k + 1] == out[i]);
                }
            }
        }
        assert forall|i: int, j: int| 0 <= i < j < out.len() implies !before(
            #[trigger] out[j],
            #[trigger] out[i],
        ) by {
            assert(out[j] == tail[j - 1]);
            if i == 0 {
                assert(out[i] == s.first());
                if tail[j - 1] != e {
                    assert(rest.contains(tail[j - 1]));
                    let k = choose|k: int| 0 <= k < rest.len() && rest[k] == tail[j - 1];
                    assert(s[k + 1] == out[j]);
                    assert(s[0] == out[i]);
                }
            } else {
                assert(out[i] == tail[i - 1]);
            }
        }
    }
}

/// What is sorted stands in rank order.
pub proof fn sorted_is_sorted<T>(s: Seq<T>, before: spec_fn(T, T) -> bool)
    requires
        ranks(before),
    ensures
        is_sorted(sorted(s, before), before),
    decreases s.len(),
{
    if s.len() > 0 {
        sorted_is_sorted(s.drop_last(), before);
        lemma_inserted_sorted(sorted(s.drop_last(), before), s.last(), before);
    }
}

/// `a` and `b` rank equal.
pub open spec fn level<T>(a: T, b: T, before: spec_fn(T, T) -> bool) -> bool {
    !before(a, b) && !before(b, a)
}

proof fn lemma_inserted_level<T>(s: Seq<T>, e: T, k: T, before: spec_fn(T, T) -> bool)
    requires
        ranks(before),
        is_sorted(s, before),
    ensures
        inserted(s, e, before).filter(|x: T| level(x, k, before)) == (if level(e, k, before) {
            s.filter(|x: T| level(x, k, before)).push(e)
        } else {
            s.filter(|x: T| level(x, k, before))
        }),
    decreases s.len(),
{
    let p = |x: T| level(x, k, before);
    let one = seq![e];
    reveal_with_fuel(Seq::filter, 2);
    assert(one.drop_last() =~= Seq::empty());
    if s.len() == 0 {
        assert(s =~= Seq::empty());
    } else if before(e, s.first()) {
        Seq::filter_distributes_over_add(one, s, p);
        if level(e, k, before) {
            assert forall|i: int| 0 <= i < s.len() implies !p(#[trigger] s[i]) by {
                if i > 0 {
                    assert(!before(s[i], s[0]));
                }
                assert(before(e, s[0]));
                assert(before(e, s[i]));
                assert(before(e, k) || before(k, s[i]));
            }
            lemma_filter_none(s, p);
            assert(inserted(s, e, before).filter(p) =~= s.filter(p).push(e));
        } else {
            assert(one.filter(p) =~= Seq::empty());
            assert(inserted(s, e, before).filter(p) =~= s.filter(p));
        }
    } else {
        let head = seq![s.first()];
        let rest = s.drop_first();
        assert(head.drop_last() =~= Seq::empty());
        assert(is_sorted(rest, before)) by {
            assert forall|i: int, j: int| 0 <= i < j < rest.len() implies !before(
                #[trigger] rest[j],
                #[trigger] rest[i],
            ) by {
                assert(rest[j] == s[j + 1] && rest[i] == s[i + 1]);
            }
        }
        lemma_inserted_level(rest, e, k, before);
        assert(s =~= head + rest);
        Seq::filter_distributes_over_add(head, rest, p);
        Seq::filter_distributes_over_add(head, inserted(rest, e, before), p);
        if level(e, k, before) {
            assert(head.filter(p) + rest.filter(p).push(e) =~= (head.filter(p) + rest.filter(
                p,
            )).push(e));
        }
    }
}

proof fn lemma_filter_none<T>(s: Seq<T>, p: spec_fn(T) -> bool)
    requires
        forall|i: int| 0 <= i < s.len() ==> !p(#[trigger] s[i]),
    ensures
        s.filter(p) == Seq::<T>::empty(),
    decreases s.len(),
{
    reveal(Seq::filter);
    if s.len() > 0 {
        assert forall|i: int| 0 <= i < s.drop_last().len() implies !p(
            #[trigger] s.drop_last()[i],
        ) by {
            assert(s.drop_last()[i] == s[i]);
        }
        lemma_filter_none(s.drop_last(), p);
        assert(!p(s[s.len() - 1]));
    }
}

/// Sorting keeps the items of any one rank in the order that they had.
pub proof fn sorted_is_stable<T>(s: Seq<T>, k: T, before: spec_fn(T, T) -> bool)
    requires
        ranks(before),
    ensures
        sorted(s, before).filter(|x: T| level(x, k, before)) == s.filter(
            |x: T| level(x, k, before),
        ),
    decreases s.len(),
{
    reveal(Seq::filter);
    if s.len() > 0 {
        sorted_is_stable(s.drop_last(), k, before);
        sorted_is_sorted(s.drop_last(), before);
        lemma_inserted_level(sorted(s.drop_last(), before), s.last(), k, before);
    }
}

/// Sorting commutes with a change of representation that keeps ranks.
pub proof fn lemma_sorted_map<T, U>(
    s: Seq<T>,
    f: spec_fn(T) -> U,
    before: spec_fn(T, T) -> bool,
    image: spec_fn(U, U) -> bool,
)
    requires
        forall|a: T, b: T| #[trigger] before(a, b) == image(f(a), f(b)),
    ensures
        sorted(s, before).map_values(f) == sorted(s.map_values(f), image),
    decreases s.len(),
{
    if s.len() == 0 {
        assert(sorted(s, before).map_values(f) =~= Seq::empty());
        assert(s.map_values(f) =~= Seq::empty());
    } else {
        lemma_sorted_map(s.drop_last(), f, before, image);
        assert(s.map_values(f).drop_last() =~= s.drop_last().map_values(f));
        lemma_inserted_map(sorted(s.drop_last(), before), s.last(), f, before, image);
    }
}

proof fn lemma_inserted_map<T, U>(
    s: Seq<T>,
    e: T,
    f: spec_fn(T) -> U,
    before: spec_fn(T, T) -> bool,
    image: spec_fn(U, U) -> bool,
)
    requires
        forall|a: T, b: T| #[trigger] before(a, b) == image(f(a), f(b)),
    ensures
        inserted(s, e, before).map_values(f) == inserted(s.map_values(f), f(e), image),
    decreases s.len(),
{
    if s.len() == 0 {
        assert(inserted(s, e, before).map_values(f) =~= inserted(s.map_values(f), f(e), image));
    } else {
        assert(before(e, s.first()) == image(f(e), f(s.first())));
        assert(s.map_values(f).first() == f(s.first()));
        lemma_inserted_map(s.drop_first(), e, f, before, image);
        assert(s.map_values(f).drop_first() =~= s.drop_first().map_values(f));
        assert(inserted(s, e, before).map_values(f) =~= inserted(s.map_values(f), f(e), image));
    }
}

proof fn lemma_counted_from_front<T>(s: Seq<T>, p: spec_fn(T) -> bool, n: int)
    requires
        0 <= n <= s.len(),
    ensures
        (forall|k: int| 0 <= k < n ==> p(#[trigger] s[k])) ==> s.to_multiset().filter(p).len()
            >= n,
        (forall|k: int| n <= k < s.len() ==> !p(#[trigger] s[k])) ==> s.to_multiset().filter(
            p,
        ).len() <= n,
{
    let a = s.take(n);
    let b = s.skip(n);
    assert(s =~= a + b);
    vstd::seq_lib::lemma_multiset_commutative(a, b);
    a.to_multiset_ensures();
    b.to_multiset_ensures();
    let whole = s.to_multiset().filter(p);
    let front = a.to_multiset().filter(p);
    let back = b.to_multiset().filter(p);
    assert(whole =~= front.add(back));
    if forall|k: int| 0 <= k < n ==> p(#[trigger] s[k]) {
        assert forall|x: T| #[trigger] a.to_multiset().count(x) > 0 implies p(x) by {
            assert(a.contains(x));
            let k = choose|k: int| 0 <= k < a.len() && a[k] == x;
            assert(p(s[k]));
        }
        assert(front =~= a.to_multiset());
    }
    if forall|k: int| n <= k < s.len() ==> !p(#[trigger] s[k]) {
        assert forall|x: T| #[trigger] b.to_multiset().count(x) > 0 implies !p(x) by {
            assert(b.contains(x));
            let k = choose|k: int| 0 <= k < b.len() && b[k] == x;
            assert(!p(s[n + k]));
        }
        assert(back =~= Multiset::empty());
        let others = a.to_multiset().filter(|x: T| !p(x));
        assert(a.to_multiset() =~= front.add(others));
    }
}

/// The order in which items were given has no say in the ranks of what is
/// sorted: only items of one rank may change places.
pub proof fn sorted_whatever_the_order<T>(s: Seq<T>, t: Seq<T>, before: spec_fn(T, T) -> bool)
    requires
        ranks(before),
        s.to_multiset() == t.to_multiset(),
    ensures
        sorted(s, before).len() == sorted(t, before).len(),
        forall|i: int|
            0 <= i < sorted(s, before).len() ==> level(
                #[trigger] sorted(s, before)[i],
                sorted(t, before)[i],
                before,
            ),
{
    sorted_keeps_items(s, before);
    sorted_keeps_items(t, before);
    sorted_is_sorted(s, before);
    sorted_is_sorted(t, before);
    let a = sorted(s, before);
    let b = sorted(t, before);
    a.to_multiset_ensures();
    b.to_multiset_ensures();
    assert forall|i: int| 0 <= i < a.len() implies level(#[trigger] a[i], b[i], before) by {
        lemma_not_ahead(a, b, i, before);
        lemma_not_ahead(b, a, i, before);
    }
}

proof fn lemma_not_ahead<T>(a: Seq<T>, b: Seq<T>, i: int, before: spec_fn(T, T) -> bool)
    requires
        ranks(before),
        is_sorted(a, before),
        is_sorted(b, before),
        a.to_multiset() == b.to_multiset(),
        0 <= i < a.len(),
        i < b.len(),
    ensures
        !before(a[i], b[i]),
{
    if before(a[i], b[i]) {
        let p = |x: T| before(x, b[i]);
        assert forall|k: int| 0 <= k < i + 1 implies p(#[trigger] a[k]) by {
            if k < i {
                assert(!before(a[i], a[k]));
                assert(before(a[i], a[k]) || before(a[k], b[i]));
            }
        }
        assert forall|k: int| i <= k < b.len() implies !p(#[trigger] b[k]) by {
            if k > i {
                assert(!before(b[k], b[i]));
            }
        }
        lemma_counted_from_front(a, p, i + 1);
        lemma_counted_from_front(b, p, i);
    }
}

/// The items of two lists correspond place by place.
pub open spec fn paired<T, U>(s: Seq<T>, t: Seq<U>, same: spec_fn(T, U) -> bool) -> bool {
    s.len() == t.len() && forall|i: int| 0 <= i < s.len() ==> same(#[trigger] s[i], t[i])
}

proof fn lemma_inserted_paired<T, U>(
    s: Seq<T>,
    t: Seq<U>,
    d: T,
    e: U,
    same: spec_fn(T, U) -> bool,
    before: spec_fn(T, T) -> bool,
    image: spec_fn(U, U) -> bool,
)
    requires
        forall|a: T, b: U, c: T, d: U| #[trigger]
            same(a, b) && #[trigger] same(c, d) ==> before(a, c) == image(b, d),
        paired(s, t, same),
        same(d, e),
    ensures
        paired(inserted(s, d, before), inserted(t, e, image), same),
    decreases s.len(),
{
    let x = inserted(s, d, before);
    let y = inserted(t, e, image);
    if s.len() > 0 {
        assert(same(s[0], t[0]));
        if before(d, s.first()) {
            assert forall|i: int| 0 <= i < x.len() implies same(#[trigger] x[i], y[i]) by {
                if i > 0 {
                    assert(x[i] == s[i - 1] && y[i] == t[i - 1]);
                }
            }
        } else {
            let tail = s.drop_first();
            let other = t.drop_first();
            assert forall|i: int| 0 <= i < tail.len() implies same(#[trigger] tail[i], other[i]) by {
                assert(tail[i] == s[i + 1] && other[i] == t[i + 1]);
            }
            lemma_inserted_paired(tail, other, d, e, same, before, image);
            let u = inserted(tail, d, before);
            let v = inserted(other, e, image);
            assert forall|i: int| 0 <= i < x.len() implies same(#[trigger] x[i], y[i]) by {
                if i > 0 {
                    assert(x[i] == u[i - 1] && y[i] == v[i - 1]);
                    assert(same(u[i - 1], v[i - 1]));
                }
            }
        }
    }
}

/// Lists whose items correspond and rank alike still correspond when both are
/// sorted.
pub proof fn sorted_stays_paired<T, U>(
    s: Seq<T>,
    t: Seq<U>,
    same: spec_fn(T, U) -> bool,
    before: spec_fn(T, T) -> bool,
    image: spec_fn(U, U) -> bool,
)
    requires
        forall|a: T, b: U, c: T, d: U| #[trigger]
            same(a, b) && #[trigger] same(c, d) ==> before(a, c) == image(b, d),
        paired(s, t, same),
    ensures
        paired(sorted(s, before), sorted(t, image), same),
    decreases s.len(),
{
    if s.len() > 0 {
        let a = s.drop_last();
        let b = t.drop_last();
        assert forall|i: int| 0 <= i < a.len() implies same(#[trigger] a[i], b[i]) by {
            assert(a[i] == s[i] && b[i] == t[i]);
        }
        assert(same(s[s.len() - 1], t[s.len() - 1]));
        sorted_stays_paired(a, b, same, before, image);
        lemma_inserted_paired(
            sorted(a, before),
            sorted(b, image),
            s.last(),
            t.last(),
            same,
            before,
            image,
        );
    }
}

// ---------------------------------------------------------------------------
// Beginnings of sorted lists

proof fn lemma_inserted_last<T>(s: Seq<T>, e: T, before: spec_fn(T, T) -> bool)
    requires
        forall|i: int| 0 <= i < s.len() ==> !before(e, #[trigger] s[i]),
    ensures
        inserted(s, e, before) == s.push(e),
    decreases s.len(),
{
    if s.len() == 0 {
        assert(s.push(e) =~= seq![e]);
    } else {
        let rest = s.drop_first();
        assert(!before(e, s[0]));
        assert forall|i: int| 0 <= i < rest.len() implies !before(e, #[trigger] rest[i]) by {
            assert(rest[i] == s[i + 1]);
        }
        lemma_inserted_last(rest, e, before);
        assert(seq![s.first()] + rest.push(e) =~= s.push(e));
    }
}

/// What stands in order already is left as it is.
pub proof fn sorted_leaves_sorted<T>(s: Seq<T>, before: spec_fn(T, T) -> bool)
    requires
        is_sorted(s, before),
    ensures
        sorted(s, before) == s,
    decreases s.len(),
{
    if s.len() == 0 {
        assert(s =~= Seq::empty());
    } else {
        let rest = s.drop_last();
        assert(is_sorted(rest, before)) by {
            assert forall|i: int, j: int| 0 <= i < j < rest.len() implies !before(
                #[trigger] rest[j],
                #[trigger] rest[i],
            ) by {
                assert(rest[j] == s[j] && rest[i] == s[i]);
            }
        }
        sorted_leaves_sorted(rest, before);
        assert forall|i: int| 0 <= i < rest.len() implies !before(s.last(), #[trigger] rest[i]) by {
            assert(rest[i] == s[i]);
            assert(s.last() == s[s.len() - 1]);
        }
        lemma_inserted_last(rest, s.last(), before);
        assert(rest.push(s.last()) =~= s);
    }
}

proof fn lemma_top_is_sorted<T>(s: Seq<T>, k: nat, before: spec_fn(T, T) -> bool)
    requires
        is_sorted(s, before),
    ensures
        is_sorted(first_items(s, k), before),
{
    let t = first_items(s, k);
    assert forall|i: int, j: int| 0 <= i < j < t.len() implies !before(
        #[trigger] t[j],
        #[trigger] t[i],
    ) by {
        assert(t[j] == s[j] && t[i] == s[i]);
    }
}

proof fn lemma_merged_len<T>(a: Seq<T>, b: Seq<T>, before: spec_fn(T, T) -> bool)
    ensures
        merged(a, b, before).len() == a.len() + b.len(),
    decreases a.len() + b.len(),
{
    if a.len() > 0 && b.len() > 0 {
        if before(b.first(), a.first()) {
            lemma_merged_len(a, b.drop_first(), before);
        } else {
            lemma_merged_len(a.drop_first(), b, before);
        }
    }
}

proof fn lemma_top_cons<T>(e: T, s: Seq<T>, k: nat)
    requires
        k > 0,
    ensures
        first_items(seq![e] + s, k) == seq![e] + first_items(s, (k - 1) as nat),
{
    assert(first_items(seq![e] + s, k) =~= seq![e] + first_items(s, (k - 1) as nat));
}

proof fn lemma_top_merged<T>(
    a: Seq<T>,
    b: Seq<T>,
    x: Seq<T>,
    y: Seq<T>,
    k: nat,
    before: spec_fn(T, T) -> bool,
)
    requires
        first_items(a, k) == first_items(x, k),
        first_items(b, k) == first_items(y, k),
    ensures
        first_items(merged(a, b, before), k) == first_items(merged(x, y, before), k),
    decreases k,
{
    lemma_merged_len(a, b, before);
    lemma_merged_len(x, y, before);
    if k == 0 {
        assert(first_items(merged(a, b, before), k) =~= first_items(merged(x, y, before), k));
    } else {
        let less = (k - 1) as nat;
        assert(a.len() == 0 <==> first_items(a, k).len() == 0);
        assert(x.len() == 0 <==> first_items(x, k).len() == 0);
        assert(b.len() == 0 <==> first_items(b, k).len() == 0);
        assert(y.len() == 0 <==> first_items(y, k).len() == 0);
        if a.len() > 0 {
            lemma_top_tail(a, x, k);
        }
        if b.len() > 0 {
            lemma_top_tail(b, y, k);
        }
        if a.len() > 0 && b.len() > 0 {
            lemma_top_shrinks(a, x, k);
            lemma_top_shrinks(b, y, k);
            if before(b.first(), a.first()) {
                lemma_top_merged(a, b.drop_first(), x, y.drop_first(), less, before);
                lemma_top_cons(b.first(), merged(a, b.drop_first(), before), k);
                lemma_top_cons(y.first(), merged(x, y.drop_first(), before), k);
            } else {
                lemma_top_merged(a.drop_first(), b, x.drop_first(), y, less, before);
                lemma_top_cons(a.first(), merged(a.drop_first(), b, before), k);
                lemma_top_cons(x.first(), merged(x.drop_first(), y, before), k);
            }
        }
    }
}

/// Lists that begin alike have the same head, and tails that begin alike.
proof fn lemma_top_tail<T>(a: Seq<T>, x: Seq<T>, k: nat)
    requires
        k > 0,
        a.len() > 0,
        x.len() > 0,
        first_items(a, k) == first_items(x, k),
    ensures
        a.first() == x.first(),
        first_items(a.drop_first(), (k - 1) as nat) == first_items(x.drop_first(), (k - 1) as nat),
{
    assert(first_items(a, k)[0] == a[0]);
    assert(first_items(x, k)[0] == x[0]);
    assert(first_items(a.drop_first(), (k - 1) as nat) =~= first_items(a, k).drop_first());
    assert(first_items(x.drop_first(), (k - 1) as nat) =~= first_items(x, k).drop_first());
}

proof fn lemma_top_shrinks<T>(a: Seq<T>, x: Seq<T>, k: nat)
    requires
        k > 0,
        first_items(a, k) == first_items(x, k),
    ensures
        first_items(a, (k - 1) as nat) == first_items(x, (k - 1) as nat),
{
    assert(first_items(a, (k - 1) as nat) =~= first_items(first_items(a, k), (k - 1) as nat));
    assert(first_items(x, (k - 1) as nat) =~= first_items(first_items(x, k), (k - 1) as nat));
}

/// Lists one after the other.
pub open spec fn chained<T>(lists: Seq<Seq<T>>) -> Seq<T>
    decreases lists.len(),
{
    if lists.len() == 0 {
        Seq::empty()
    } else {
        chained(lists.drop_last()) + lists.last()
    }
}

/// The first `n` items of each list.
pub open spec fn beginnings<T>(lists: Seq<Seq<T>>, n: nat) -> Seq<Seq<T>> {
    lists.map_values(|l: Seq<T>| first_items(l, n))
}

/// To sort lists together as far as the first `k` items, it is enough to have
/// the first `n` items of each, if each stands in order and `n` is at least `k`.
pub proof fn beginnings_are_enough<T>(
    lists: Seq<Seq<T>>,
    n: nat,
    k: nat,
    before: spec_fn(T, T) -> bool,
)
    requires
        ranks(before),
        k <= n,
        forall|i: int| 0 <= i < lists.len() ==> is_sorted(#[trigger] lists[i], before),
    ensures
        first_items(sorted(chained(beginnings(lists, n)), before), k) == first_items(
            sorted(chained(lists), before),
            k,
        ),
    decreases lists.len(),
{
    let heads = beginnings(lists, n);
    if lists.len() == 0 {
        assert(chained(heads) =~= Seq::empty());
        assert(chained(lists) =~= Seq::empty());
    } else {
        let rest = lists.drop_last();
        let last = lists.last();
        assert forall|i: int| 0 <= i < rest.len() implies is_sorted(#[trigger] rest[i], before) by {
            assert(rest[i] == lists[i]);
        }
        beginnings_are_enough(rest, n, k, before);
        assert(heads.drop_last() =~= beginnings(rest, n));
        assert(heads.last() == first_items(last, n));
        assert(is_sorted(last, before)) by {
            assert(last == lists[lists.len() - 1]);
        }
        lemma_top_is_sorted(last, n, before);
        sorted_leaves_sorted(last, before);
        sorted_leaves_sorted(first_items(last, n), before);
        lemma_merged_sorted(chained(rest), last, before);
        lemma_merged_sorted(chained(beginnings(rest, n)), first_items(last, n), before);
        assert(first_items(first_items(last, n), k) =~= first_items(last, k));
        lemma_top_merged(
            sorted(chained(beginnings(rest, n)), before),
            first_items(last, n),
            sorted(chained(rest), before),
            last,
            k,
            before,
        );
    }
}

proof fn lemma_merged_turned<T>(a: Seq<T>, b: Seq<T>, before: spec_fn(T, T) -> bool)
    requires
        is_sorted(b, before),
        forall|i: int, j: int|
            0 <= i < a.len() && 0 <= j < b.len() ==> before(#[trigger] b[j], #[trigger] a[i])
                || a[i] == b[j],
    ensures
        merged(a, b, before) == b + a,
    decreases a.len() + b.len(),
{
    if a.len() == 0 {
        assert(b + a =~= b);
    } else if b.len() == 0 {
        assert(b + a =~= a);
    } else if before(b.first(), a.first()) {
        let rest = b.drop_first();
        assert forall|j: int| 0 <= j < rest.len() implies #[trigger] rest[j] == b[j + 1] by {}
        lemma_merged_turned(a, rest, before);
        assert(seq![b.first()] + (rest + a) =~= b + a);
    } else {
        let e = a.first();
        let rest = a.drop_first();
        assert forall|i: int| 0 <= i < rest.len() implies #[trigger] rest[i] == a[i + 1] by {}
        lemma_merged_turned(rest, b, before);
        assert(b[0] == a[0]);
        assert forall|j: int| 0 <= j < b.len() implies #[trigger] b[j] == e by {
            if j > 0 {
                assert(!before(b[j], b[0]));
                assert(before(b[j], a[0]) || a[0] == b[j]);
            }
        }
        assert(seq![e] + (b + rest) =~= b + a);
    }
}

/// Two lists are sorted together by putting the second before the first, if
/// each item of the second comes before each of the first or is the same.
pub proof fn sorted_turned<T>(a: Seq<T>, b: Seq<T>, before: spec_fn(T, T) -> bool)
    requires
        ranks(before),
        forall|i: int, j: int|
            0 <= i < a.len() && 0 <= j < b.len() ==> before(#[trigger] b[j], #[trigger] a[i])
                || a[i] == b[j],
    ensures
        sorted(a + b, before) == sorted(b, before) + sorted(a, before),
{
    let x = sorted(a, before);
    let y = sorted(b, before);
    lemma_merged_sorted(a, b, before);
    sorted_is_sorted(b, before);
    sorted_keeps_items(a, before);
    sorted_keeps_items(b, before);
    a.to_multiset_ensures();
    b.to_multiset_ensures();
    x.to_multiset_ensures();
    y.to_multiset_ensures();
    assert forall|i: int, j: int| 0 <= i < x.len() && 0 <= j < y.len() implies before(
        #[trigger] y[j],
        #[trigger] x[i],
    ) || x[i] == y[j] by {
        assert(x.contains(x[i]) && y.contains(y[j]));
        assert(x.to_multiset().count(x[i]) > 0);
        assert(y.to_multiset().count(y[j]) > 0);
        assert(a.contains(x[i]));
        assert(b.contains(y[j]));
        let m = choose|m: int| 0 <= m < a.len() && a[m] == x[i];
        let n = choose|n: int| 0 <= n < b.len() && b[n] == y[j];
        assert(before(b[n], a[m]) || a[m] == b[n]);
    }
    lemma_merged_turned(x, y, before);
}

/// Lists one after the other: nothing is left out, added or moved.
pub proof fn chains_go_list_by_list<T>(lists: Seq<Seq<T>>, list: Seq<T>)
    ensures
        chained(lists.push(list)) == chained(lists) + list,
        chained(Seq::<Seq<T>>::empty()).len() == 0,
{
    assert(lists.push(list).drop_last() =~= lists);
}

/// What some list holds, the chain of the lists holds, and nothing else.
pub proof fn chains_hold_what_lists_hold<T>(lists: Seq<Seq<T>>, x: T)
    ensures
        chained(lists).contains(x) <==> exists|i: int|
            0 <= i < lists.len() && #[trigger] lists[i].contains(x),
    decreases lists.len(),
{
    if lists.len() > 0 {
        let rest = lists.drop_last();
        let last = lists.last();
        let all = chained(lists);
        chains_hold_what_lists_hold(rest, x);
        if all.contains(x) {
            let k = choose|k: int| 0 <= k < all.len() && all[k] == x;
            if k < chained(rest).len() {
                assert(chained(rest)[k] == x);
                let i = choose|i: int| 0 <= i < rest.len() && #[trigger] rest[i].contains(x);
                assert(lists[i].contains(x));
            } else {
                assert(last[k - chained(rest).len()] == x);
                assert(lists[lists.len() - 1].contains(x));
            }
        }
        if exists|i: int| 0 <= i < lists.len() && #[trigger] lists[i].contains(x) {
            let i = choose|i: int| 0 <= i < lists.len() && #[trigger] lists[i].contains(x);
            if i < rest.len() {
                assert(rest[i].contains(x));
                let k = choose|k: int| 0 <= k < chained(rest).len() && chained(rest)[k] == x;
                assert(all[k] == x);
            } else {
                let k = choose|k: int| 0 <= k < last.len() && last[k] == x;
                assert(all[chained(rest).len() + k] == x);
            }
        }
    }
}

/// Lists whose items correspond are of one length, and correspond at each place.
pub proof fn pairs_correspond_at_each_place<T, U>(
    s: Seq<T>,
    t: Seq<U>,
    same: spec_fn(T, U) -> bool,
)
    requires
        paired(s, t, same),
    ensures
        s.len() == t.len(),
        forall|i: int| 0 <= i < s.len() ==> same(#[trigger] s[i], t[i]),
{
}

} // verus!
