//! Listing contacts.

use vstd::prelude::*;

use crate::names::{lowercase, to_lowercase, Names};
use crate::pages::{first_items, page};
use crate::sort::{
    is_sorted, lemma_sorted_map, level, ranks, sorted, sorted_is_sorted, sorted_keeps_items,
    sorted_whatever_the_order, stable_sort, Order,
};
use crate::text::{
    beginnings_by_character, begins_with, chars_of, contains, has_part, occurs_at, starts_with,
};

verus! {

// ---------------------------------------------------------------------------
// The order of names

/// `a` comes before `b` in the order of code points, character by character; a
/// text comes after its beginnings.
pub open spec fn text_before(a: Seq<char>, b: Seq<char>) -> bool
    decreases b.len(),
{
    if b.len() == 0 {
        false
    } else if a.len() == 0 {
        true
    } else if a.first() == b.first() {
        text_before(a.drop_first(), b.drop_first())
    } else {
        a.first() < b.first()
    }
}

proof fn lemma_text_irreflexive(a: Seq<char>)
    ensures
        !text_before(a, a),
    decreases a.len(),
{
    if a.len() > 0 {
        lemma_text_irreflexive(a.drop_first());
    }
}

proof fn lemma_text_transitive(a: Seq<char>, b: Seq<char>, c: Seq<char>)
    ensures
        text_before(a, b) && text_before(b, c) ==> text_before(a, c),
    decreases c.len(),
{
    if a.len() > 0 && b.len() > 0 && c.len() > 0 {
        lemma_text_transitive(a.drop_first(), b.drop_first(), c.drop_first());
    }
}

proof fn lemma_text_apart(a: Seq<char>, b: Seq<char>, c: Seq<char>)
    ensures
        text_before(a, c) ==> text_before(a, b) || text_before(b, c),
    decreases c.len(),
{
    if a.len() > 0 && b.len() > 0 && c.len() > 0 {
        lemma_text_apart(a.drop_first(), b.drop_first(), c.drop_first());
    }
}

/// Whether `a` comes before `b` in the order of code points.
pub fn is_text_before(a: &str, b: &str) -> (yes: bool)
    ensures
        yes == text_before(a@, b@),
{
    let x = chars_of(a);
    let y = chars_of(b);
    let mut i: usize = 0;
    assert(x@.skip(0) =~= x@);
    assert(y@.skip(0) =~= y@);
    loop
        invariant
            x@ == a@,
            y@ == b@,
            i <= x@.len(),
            i <= y@.len(),
            text_before(x@.skip(i as int), y@.skip(i as int)) == text_before(a@, b@),
        decreases y@.len() - i,
    {
        if i == y.len() {
            return false;
        }
        if i == x.len() {
            return true;
        }
        if x[i] != y[i] {
            return x[i] < y[i];
        }
        assert(x@.skip(i as int).drop_first() =~= x@.skip(i + 1));
        assert(y@.skip(i as int).drop_first() =~= y@.skip(i + 1));
        i += 1;
    }
}

// ---------------------------------------------------------------------------
// Contacts

/// A contact as listed.
pub struct Contact {
    pub username: String,
    pub display: String,
}

impl View for Contact {
    type V = (Seq<char>, Seq<char>);

    open spec fn view(&self) -> (Seq<char>, Seq<char>) {
        (self.username@, self.display@)
    }
}

/// The content of contacts.
pub open spec fn contact_pairs_of(contacts: Seq<Contact>) -> Seq<(Seq<char>, Seq<char>)> {
    contacts.map_values(|c: Contact| c@)
}

/// Contacts found, and how many there are in all.
pub struct ContactList {
    pub contacts: Vec<Contact>,
    pub total: usize,
}

/// Ranks contacts by the name they are shown by.
pub struct ByDisplay;

impl Order<Contact> for ByDisplay {
    open spec fn before(&self, a: Contact, b: Contact) -> bool {
        text_before(a.display@, b.display@)
    }

    proof fn ranking(&self) {
        let before = |a: Contact, b: Contact| self.before(a, b);
        assert forall|a: Contact| !#[trigger] before(a, a) by {
            lemma_text_irreflexive(a.display@);
        }
        assert forall|a: Contact, b: Contact, c: Contact| #[trigger]
            before(a, b) && #[trigger] before(b, c) implies before(a, c) by {
            lemma_text_transitive(a.display@, b.display@, c.display@);
        }
        assert forall|a: Contact, b: Contact, c: Contact| #[trigger]
            before(a, c) implies #[trigger] before(a, b) || before(b, c) by {
            lemma_text_apart(a.display@, b.display@, c.display@);
        }
    }

    fn is_before(&self, a: &Contact, b: &Contact) -> (yes: bool) {
        is_text_before(a.display.as_str(), b.display.as_str())
    }
}

/// Accounts of organisations, which are not listed as contacts.
pub open spec fn is_organisation(username: Seq<char>) -> bool {
    begins_with(username, "gh_"@) || begins_with(username, "biz_"@)
}

/// A query holds of a contact if it is part of the shown name or of the user
/// name; all three in lower case.
pub open spec fn query_holds(low: Seq<char>, display: Seq<char>, username: Seq<char>) -> bool {
    has_part(display, low) || has_part(username, low)
}

/// Whether a query holds of a contact; all three in lower case.
pub fn matches_query(low: &str, display: &str, username: &str) -> (yes: bool)
    ensures
        yes == query_holds(low@, display@, username@),
{
    contains(display, low) || contains(username, low)
}

/// The contacts that are listed for a query.
pub open spec fn is_listed(query: Option<Seq<char>>) -> spec_fn((Seq<char>, Seq<char>)) -> bool {
    |c: (Seq<char>, Seq<char>)|
        !is_organisation(c.0) && match query {
            Some(q) => query_holds(lowercase(q), lowercase(c.1), lowercase(c.0)),
            None => true,
        }
}

/// Ranks pairs of user name and shown name by the shown name.
pub open spec fn display_before() -> spec_fn(
    (Seq<char>, Seq<char>),
    (Seq<char>, Seq<char>),
) -> bool {
    |a: (Seq<char>, Seq<char>), b: (Seq<char>, Seq<char>)| text_before(a.1, b.1)
}

/// The contacts listed for a query, by their shown names.
pub open spec fn listed(
    pairs: Seq<(Seq<char>, Seq<char>)>,
    query: Option<Seq<char>>,
) -> Seq<(Seq<char>, Seq<char>)> {
    sorted(pairs.filter(is_listed(query)), display_before())
}

/// The characters of a query that may be missing.
pub open spec fn opt_str(s: Option<&str>) -> Option<Seq<char>> {
    match s {
        Some(t) => Some(t@),
        None => None,
    }
}

/// Lists the contacts that a query holds of, at most `limit` of them, and says
/// how many there are.
pub fn q_contacts(names: &Names, query: Option<&str>, limit: usize) -> (list: ContactList)
    ensures
        list.total == listed(names.map.pairs(), opt_str(query)).len(),
        contact_pairs_of(list.contacts@) == first_items(
            listed(names.map.pairs(), opt_str(query)),
            limit as nat,
        ),
{
    let ghost pairs = names.map.pairs();
    let ghost keep = is_listed(opt_str(query));
    let low: Option<String> = match query {
        Some(q) => Some(to_lowercase(q)),
        None => None,
    };
    let n = names.map.len();
    let mut found: Vec<Contact> = Vec::new();
    proof {
        reveal(Seq::filter);
        assert(contact_pairs_of(found@) =~= pairs.take(0).filter(keep));
    }
    for i in 0..n
        invariant
            pairs == names.map.pairs(),
            n == pairs.len(),
            keep == is_listed(opt_str(query)),
            match low {
                Some(l) => query is Some && l@ == lowercase(query->0@),
                None => query is None,
            },
            contact_pairs_of(found@) == pairs.take(i as int).filter(keep),
    {
        proof {
            reveal(Seq::filter);
            assert(pairs.take(i + 1).drop_last() =~= pairs.take(i as int));
        }
        let username = names.map.key(i);
        let display = names.map.value(i);
        let organisation = starts_with(username.as_str(), "gh_") || starts_with(
            username.as_str(),
            "biz_",
        );
        if !organisation {
            let wanted = match &low {
                Some(l) => matches_query(
                    l.as_str(),
                    to_lowercase(display.as_str()).as_str(),
                    to_lowercase(username.as_str()).as_str(),
                ),
                None => true,
            };
            if wanted {
                let ghost before = found@;
                let c = Contact { username: username.clone(), display: display.clone() };
                found.push(c);
                assert(contact_pairs_of(found@) =~= contact_pairs_of(before).push(c@));
            }
        }
    }
    assert(pairs.take(n as int) =~= pairs);
    let ghost unsorted = found@;
    let ordered = stable_sort(found, &ByDisplay);
    proof {
        lemma_sorted_map(
            unsorted,
            |c: Contact| c@,
            |a: Contact, b: Contact| ByDisplay.before(a, b),
            display_before(),
        );
        assert(contact_pairs_of(ordered@) == listed(pairs, opt_str(query)));
    }
    let total = ordered.len();
    let contacts = page(ordered, 0, limit);
    assert(ordered@.skip(0) =~= ordered@);
    assert(contact_pairs_of(contacts@) =~= first_items(
        listed(pairs, opt_str(query)),
        limit as nat,
    ));
    ContactList { contacts, total }
}

// ---------------------------------------------------------------------------
// Laws

proof fn lemma_text_level(a: Seq<char>, b: Seq<char>)
    requires
        !text_before(a, b),
        !text_before(b, a),
    ensures
        a == b,
    decreases a.len(),
{
    if a.len() > 0 && b.len() > 0 {
        lemma_text_level(a.drop_first(), b.drop_first());
        assert(a =~= seq![a[0]] + a.drop_first());
        assert(b =~= seq![b[0]] + b.drop_first());
    } else {
        assert(a =~= b);
    }
}

/// A contact is listed exactly if it is no organisation and the query, if any,
/// holds of it.
pub proof fn listing_is_complete(
    pairs: Seq<(Seq<char>, Seq<char>)>,
    query: Option<Seq<char>>,
    c: (Seq<char>, Seq<char>),
)
    ensures
        listed(pairs, query).contains(c) <==> pairs.contains(c) && is_listed(query)(c),
{
    let kept = pairs.filter(is_listed(query));
    let out = listed(pairs, query);
    sorted_keeps_items(kept, display_before());
    kept.to_multiset_ensures();
    out.to_multiset_ensures();
    assert(out.contains(c) <==> out.to_multiset().count(c) > 0);
    assert(kept.contains(c) <==> kept.to_multiset().count(c) > 0);
    if pairs.contains(c) && is_listed(query)(c) {
        let i = choose|i: int| 0 <= i < pairs.len() && pairs[i] == c;
        pairs.lemma_filter_contains(is_listed(query), i);
    }
    if kept.contains(c) {
        let j = choose|j: int| 0 <= j < kept.len() && kept[j] == c;
        pairs.lemma_filter_pred(is_listed(query), j);
        pairs.lemma_filter_contains_rev(is_listed(query), c);
    }
}

/// An empty query lists what no query lists.
pub proof fn empty_query_lists_all(pairs: Seq<(Seq<char>, Seq<char>)>)
    ensures
        listed(pairs, Some(Seq::empty())) == listed(pairs, None),
{
    let none = Seq::<char>::empty();
    assert forall|c: (Seq<char>, Seq<char>)| #[trigger]
        is_listed(Some(none))(c) == is_listed(None)(c) by {
        assert(lowercase(c.1).subrange(0, 0) =~= none);
        assert(occurs_at(lowercase(c.1), none, 0));
    }
    assert(is_listed(Some(none)) =~= is_listed(None));
}

/// A smaller limit lists the first of what a greater one lists. How many there
/// are in all is the same, as it does not depend on the limit.
pub proof fn smaller_limit_lists_the_first(
    pairs: Seq<(Seq<char>, Seq<char>)>,
    query: Option<Seq<char>>,
    less: nat,
    more: nat,
)
    requires
        less <= more,
    ensures
        first_items(listed(pairs, query), less) == first_items(
            first_items(listed(pairs, query), more),
            less,
        ),
        first_items(listed(pairs, query), less).len() == (if less <= listed(pairs, query).len() {
            less
        } else {
            listed(pairs, query).len()
        }),
{
    let all = listed(pairs, query);
    assert(first_items(all, less) =~= first_items(first_items(all, more), less));
}

/// Contacts are listed by their shown names.
pub proof fn listing_is_sorted(pairs: Seq<(Seq<char>, Seq<char>)>, query: Option<Seq<char>>)
    ensures
        is_sorted(listed(pairs, query), display_before()),
{
    lemma_display_ranks();
    sorted_is_sorted(pairs.filter(is_listed(query)), display_before());
}

proof fn lemma_display_ranks()
    ensures
        ranks(display_before()),
{
    let before = display_before();
    assert forall|a: (Seq<char>, Seq<char>)| !#[trigger] before(a, a) by {
        lemma_text_irreflexive(a.1);
    }
    assert forall|a: (Seq<char>, Seq<char>), b: (Seq<char>, Seq<char>), c: (Seq<char>, Seq<char>)|
        #[trigger]
        before(a, b) && #[trigger] before(b, c) implies before(a, c) by {
        lemma_text_transitive(a.1, b.1, c.1);
    }
    assert forall|a: (Seq<char>, Seq<char>), b: (Seq<char>, Seq<char>), c: (Seq<char>, Seq<char>)|
        #[trigger]
        before(a, c) implies #[trigger] before(a, b) || before(b, c) by {
        lemma_text_apart(a.1, b.1, c.1);
    }
}

proof fn lemma_filter_parts<T>(s: Seq<T>, p: spec_fn(T) -> bool)
    ensures
        s.filter(p).to_multiset() == s.to_multiset().filter(p),
    decreases s.len(),
{
    reveal(Seq::filter);
    s.to_multiset_ensures();
    if s.len() == 0 {
        assert(s =~= Seq::empty());
        assert(s.filter(p) =~= Seq::empty());
        Seq::<T>::empty().to_multiset_ensures();
        assert(s.to_multiset().filter(p) =~= vstd::multiset::Multiset::empty());
    } else {
        let rest = s.drop_last();
        lemma_filter_parts(rest, p);
        rest.to_multiset_ensures();
        rest.filter(p).to_multiset_ensures();
        assert(s =~= rest.push(s.last()));
        assert(s.filter(p).to_multiset() =~= s.to_multiset().filter(p));
    }
}

/// The order in which contacts came has no say in the names listed and their
/// order: only contacts shown by one name may change places.
pub proof fn listing_whatever_the_order(
    pairs: Seq<(Seq<char>, Seq<char>)>,
    others: Seq<(Seq<char>, Seq<char>)>,
    query: Option<Seq<char>>,
)
    requires
        pairs.to_multiset() == others.to_multiset(),
    ensures
        listed(pairs, query).len() == listed(others, query).len(),
        forall|i: int|
            0 <= i < listed(pairs, query).len() ==> (#[trigger] listed(pairs, query)[i]).1
                == listed(others, query)[i].1,
{
    let p = is_listed(query);
    lemma_filter_parts(pairs, p);
    lemma_filter_parts(others, p);
    lemma_display_ranks();
    sorted_whatever_the_order(pairs.filter(p), others.filter(p), display_before());
    let a = listed(pairs, query);
    let b = listed(others, query);
    assert forall|i: int| 0 <= i < a.len() implies (#[trigger] a[i]).1 == b[i].1 by {
        assert(level(a[i], b[i], display_before()));
        lemma_text_level(a[i].1, b[i].1);
    }
}

/// One text comes before another exactly if, at the first place where they
/// differ, it ends or has the smaller character.
pub proof fn texts_are_ordered_by_character(a: Seq<char>, b: Seq<char>)
    ensures
        text_before(a, b) <==> exists|k: int|
            {
                &&& 0 <= k <= a.len()
                &&& k < b.len()
                &&& #[trigger] a.take(k) == b.take(k)
                &&& k == a.len() || a[k] < b[k]
            },
    decreases b.len(),
{
    if b.len() > 0 && a.len() > 0 && a.first() == b.first() {
        let x = a.drop_first();
        let y = b.drop_first();
        texts_are_ordered_by_character(x, y);
        if text_before(x, y) {
            let k = choose|k: int|
                {
                    &&& 0 <= k <= x.len()
                    &&& k < y.len()
                    &&& #[trigger] x.take(k) == y.take(k)
                    &&& k == x.len() || x[k] < y[k]
                };
            assert(a.take(k + 1) =~= seq![a[0]] + x.take(k));
            assert(b.take(k + 1) =~= seq![b[0]] + y.take(k));
            assert(a.take(k + 1) == b.take(k + 1));
        }
        if exists|k: int|
            {
                &&& 0 <= k <= a.len()
                &&& k < b.len()
                &&& #[trigger] a.take(k) == b.take(k)
                &&& k == a.len() || a[k] < b[k]
            } {
            let k = choose|k: int|
                {
                    &&& 0 <= k <= a.len()
                    &&& k < b.len()
                    &&& #[trigger] a.take(k) == b.take(k)
                    &&& k == a.len() || a[k] < b[k]
                };
            assert(k > 0);
            assert(a.take(k).drop_first() =~= x.take(k - 1));
            assert(b.take(k).drop_first() =~= y.take(k - 1));
        }
    } else if b.len() > 0 {
        assert(a.take(0) =~= b.take(0));
        assert forall|k: int|
            0 < k <= a.len() && k < b.len() && #[trigger] a.take(k) == b.take(k) implies false by {
            assert(a.take(k)[0] == a[0] && b.take(k)[0] == b[0]);
        }
    }
}

/// User names that begin with `gh_` or `biz_` are those of organisations, and no
/// others are.
pub proof fn organisations_are_told_by_character(username: Seq<char>)
    ensures
        is_organisation(username) <==> {
            ||| username.len() >= 3 && username[0] == 'g' && username[1] == 'h' && username[2]
                == '_'
            ||| username.len() >= 4 && username[0] == 'b' && username[1] == 'i' && username[2]
                == 'z' && username[3] == '_'
        },
{
    reveal_strlit("gh_");
    reveal_strlit("biz_");
    beginnings_by_character(username, "gh_"@);
    beginnings_by_character(username, "biz_"@);
}

/// Without a query, a contact is listed exactly if its user name begins neither
/// with `gh_` nor with `biz_`.
pub proof fn all_but_organisations_are_listed(
    pairs: Seq<(Seq<char>, Seq<char>)>,
    username: Seq<char>,
    display: Seq<char>,
)
    requires
        pairs.contains((username, display)),
    ensures
        listed(pairs, None).contains((username, display)) <==> !{
            ||| username.len() >= 3 && username[0] == 'g' && username[1] == 'h' && username[2]
                == '_'
            ||| username.len() >= 4 && username[0] == 'b' && username[1] == 'i' && username[2]
                == 'z' && username[3] == '_'
        },
{
    listing_is_complete(pairs, None, (username, display));
    organisations_are_told_by_character(username);
}

/// With a query, a contact that is listed without one is listed exactly if the
/// query is a part of its shown name or of its user name, in lower case.
pub proof fn queries_narrow_the_listing(
    pairs: Seq<(Seq<char>, Seq<char>)>,
    query: Seq<char>,
    username: Seq<char>,
    display: Seq<char>,
)
    ensures
        listed(pairs, Some(query)).contains((username, display)) <==> {
            &&& listed(pairs, None).contains((username, display))
            &&& has_part(lowercase(display), lowercase(query)) || has_part(
                lowercase(username),
                lowercase(query),
            )
        },
{
    listing_is_complete(pairs, None, (username, display));
    listing_is_complete(pairs, Some(query), (username, display));
}

/// No contact is listed more often than it occurs.
pub proof fn contacts_are_listed_as_often(
    pairs: Seq<(Seq<char>, Seq<char>)>,
    query: Option<Seq<char>>,
    c: (Seq<char>, Seq<char>),
)
    ensures
        listed(pairs, query).contains(c) ==> listed(pairs, query).to_multiset().count(c)
            == pairs.to_multiset().count(c),
{
    listing_is_complete(pairs, query, c);
    sorted_keeps_items(pairs.filter(is_listed(query)), display_before());
    lemma_filter_parts(pairs, is_listed(query));
}

/// Contacts are listed in the order of their shown names: of two that are shown
/// by different names, the one listed first has the smaller.
pub proof fn listing_goes_by_shown_name(
    pairs: Seq<(Seq<char>, Seq<char>)>,
    query: Option<Seq<char>>,
    i: int,
    j: int,
)
    requires
        0 <= i < j < listed(pairs, query).len(),
    ensures
        listed(pairs, query)[i].1 == listed(pairs, query)[j].1 || text_before(
            listed(pairs, query)[i].1,
            listed(pairs, query)[j].1,
        ),
{
    let all = listed(pairs, query);
    listing_is_sorted(pairs, query);
    assert(!display_before()(all[j], all[i]));
    if !text_before(all[i].1, all[j].1) {
        lemma_text_level(all[i].1, all[j].1);
    }
}

/// A query holds of a contact exactly if it is a part of one of the names.
pub proof fn queries_hold_of_either_name(low: Seq<char>, display: Seq<char>, username: Seq<char>)
    ensures
        query_holds(low, display, username) <==> exists|i: int|
            occurs_at(display, low, i) || occurs_at(username, low, i),
{
    if query_holds(low, display, username) {
        if has_part(display, low) {
            let i = choose|i: int| occurs_at(display, low, i);
            assert(occurs_at(display, low, i) || occurs_at(username, low, i));
        } else {
            let i = choose|i: int| occurs_at(username, low, i);
            assert(occurs_at(display, low, i) || occurs_at(username, low, i));
        }
    }
}

/// The content of contacts is what their fields hold.
pub proof fn contact_views_hold_the_fields(contacts: Seq<Contact>)
    ensures
        contact_pairs_of(contacts).len() == contacts.len(),
        forall|i: int|
            0 <= i < contacts.len() ==> #[trigger] contact_pairs_of(contacts)[i] == (
                contacts[i].username@,
                contacts[i].display@,
            ),
{
}

} // verus!
