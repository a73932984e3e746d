//! Message tables: their names, and which of them a query looks into.

use vstd::prelude::*;
use vstd::string::StringSliceAdditionalSpecFns;
use vstd::utf8::encode_utf8;

use crate::digits::{bytes_read_back, hex, hex_is_hex, hex_text, hex_value, is_hex};
use crate::sort::{
    in_order, is_sorted, sorted_is_sorted, sorted_keeps_items, sorted_leaves_sorted, stable_sort,
    Order,
};
use crate::text::joined;

verus! {

// ---------------------------------------------------------------------------
// Names

/// The MD5 digest of bytes, as `md5::compute` gives it.
pub uninterp spec fn md5_of(data: Seq<u8>) -> Seq<u8>;

/// `md5::compute`: the sixteen bytes of the digest. They depend on the data
/// alone and are named, not described.
#[verifier::external_body]
fn md5_digest(data: &[u8]) -> (digest: [u8; 16])
    ensures
        digest@ == md5_of(data@),
{
    md5::compute(data).0
}

/// `s` is the name of a message table: `Msg_` and 32 lower-case hexadecimal
/// digits.
pub open spec fn is_table_name(s: Seq<char>) -> bool {
    &&& s.len() == 36
    &&& s.take(4) == "Msg_"@
    &&& forall|i: int| 4 <= i < 36 ==> is_hex(#[trigger] s[i])
}

/// `Regex::new` and `Regex::is_match` on the pattern of message table names:
/// the anchors tie the match to the whole text, so it holds exactly the texts
/// made of `Msg_` and 32 characters of the class.
#[verifier::external_body]
fn regex_is_match(pattern: &str, text: &str) -> (yes: bool)
    requires
        pattern@ == "^Msg_[0-9a-f]{32}$"@,
    ensures
        yes == is_table_name(text@),
{
    regex::Regex::new(pattern).unwrap().is_match(text)
}

/// Whether `name` is the name of a message table.
pub fn is_msg_table(name: &str) -> (yes: bool)
    ensures
        yes == is_table_name(name@),
{
    regex_is_match("^Msg_[0-9a-f]{32}$", name)
}

/// The MD5 of a user name, in hexadecimal.
pub open spec fn name_hash(username: Seq<char>) -> Seq<char> {
    hex(md5_of(encode_utf8(username)))
}

/// The name of the table with a contact's messages.
pub open spec fn table_name(username: Seq<char>) -> Seq<char> {
    "Msg_"@ + name_hash(username)
}

/// The MD5 of a user name, in hexadecimal.
pub fn hash_of(username: &str) -> (h: String)
    ensures
        h@ == name_hash(username@),
        h@.len() == 32,
        forall|i: int| 0 <= i < 32 ==> is_hex(#[trigger] h@[i]),
{
    let digest = md5_digest(username.as_bytes());
    proof {
        hex_is_hex(digest@);
    }
    hex_text(digest.as_slice())
}

/// The table name for a digest.
pub fn table_of_digest(digest: &[u8]) -> (name: String)
    ensures
        name@ == "Msg_"@ + hex(digest@),
{
    joined("Msg_", hex_text(digest).as_str())
}

/// The name of the table with a contact's messages.
pub fn msg_table_name(username: &str) -> (name: String)
    ensures
        name@ == table_name(username@),
        is_table_name(name@),
{
    let digest = md5_digest(username.as_bytes());
    let name = table_of_digest(digest.as_slice());
    proof {
        reveal_strlit("Msg_");
        hex_is_hex(digest@);
        assert(name@.take(4) =~= "Msg_"@);
        assert forall|i: int| 4 <= i < 36 implies is_hex(#[trigger] name@[i]) by {
            assert(name@[i] == hex(digest@)[i - 4]);
        }
    }
    name
}

// ---------------------------------------------------------------------------
// The tables of one contact

/// Ranks tables by the time of their latest message, the latest first.
pub struct LatestFirst;

impl<P> Order<(i64, P)> for LatestFirst {
    open spec fn before(&self, a: (i64, P), b: (i64, P)) -> bool {
        a.0 > b.0
    }

    proof fn ranking(&self) {
    }

    fn is_before(&self, a: &(i64, P), b: &(i64, P)) -> (yes: bool) {
        a.0 > b.0
    }
}

/// The databases that hold a table with a message in it, with the time of the
/// latest.
pub open spec fn with_messages<P>(probes: Seq<(P, Option<i64>)>) -> Seq<(i64, P)>
    decreases probes.len(),
{
    if probes.len() == 0 {
        Seq::empty()
    } else {
        let rest = with_messages(probes.drop_last());
        match probes.last().1 {
            Some(ts) => rest.push((ts, probes.last().0)),
            None => rest,
        }
    }
}

/// The databases that a contact's messages are read from, the one with the
/// latest message first.
pub open spec fn table_places<P>(probes: Seq<(P, Option<i64>)>) -> Seq<P> {
    in_order(with_messages(probes), LatestFirst).map_values(|t: (i64, P)| t.1)
}

/// The tables with a contact's messages. Each probe is a database and the time
/// of the latest message that its table for the contact holds.
pub fn find_msg_tables<P>(username: &str, probes: Vec<(P, Option<i64>)>) -> (tables: Vec<
    (P, String),
>)
    ensures
        tables@.map_values(|t: (P, String)| t.0) == table_places(probes@),
        forall|i: int|
            0 <= i < tables@.len() ==> (#[trigger] tables@[i]).1@ == table_name(username@),
{
    let name = msg_table_name(username);
    if !is_msg_table(name.as_str()) {
        return Vec::new();
    }
    let ghost all = probes@;
    let mut found: Vec<(i64, P)> = Vec::new();
    assert(found@ =~= with_messages(all.take(0)));
    for probe in it: probes
        invariant
            it.seq() == all,
            found@ == with_messages(all.take(it.index() as int)),
    {
        assert(all.take(it.index() + 1).drop_last() =~= all.take(it.index() as int));
        let (place, latest) = probe;
        if let Some(ts) = latest {
            found.push((ts, place));
        }
    }
    assert(all.take(all.len() as int) =~= all);
    let ordered = stable_sort(found, &LatestFirst);
    let ghost sorted = ordered@;
    let ghost places = table_places(all);
    let mut tables: Vec<(P, String)> = Vec::new();
    assert(tables@.map_values(|t: (P, String)| t.0) =~= places.take(0));
    for entry in it: ordered
        invariant
            it.seq() == sorted,
            places == sorted.map_values(|t: (i64, P)| t.1),
            name@ == table_name(username@),
            tables@.map_values(|t: (P, String)| t.0) == places.take(it.index() as int),
            forall|i: int|
                0 <= i < tables@.len() ==> (#[trigger] tables@[i]).1@ == table_name(username@),
    {
        let ghost before = tables@;
        let (_, place) = entry;
        tables.push((place, name.clone()));
        assert(tables@.map_values(|t: (P, String)| t.0) =~= before.map_values(
            |t: (P, String)| t.0,
        ).push(place));
        assert(places.take(it.index() + 1) =~= places.take(it.index() as int).push(place));
    }
    assert(places.take(places.len() as int) =~= places);
    tables
}

// ---------------------------------------------------------------------------
// Laws

/// A contact's tables come the one with the latest message first, each
/// database that holds one exactly once for each time that it was probed.
pub proof fn tables_come_latest_first<P>(probes: Seq<(P, Option<i64>)>)
    ensures
        table_places(probes).len() == with_messages(probes).len(),
        forall|i: int, j: int|
            0 <= i < j < with_messages(probes).len() ==> (#[trigger] in_order(
                with_messages(probes),
                LatestFirst,
            )[i]).0 >= (#[trigger] in_order(with_messages(probes), LatestFirst)[j]).0,
        in_order(with_messages(probes), LatestFirst).to_multiset() == with_messages(
            probes,
        ).to_multiset(),
{
    let found = with_messages(probes);
    let before = |a: (i64, P), b: (i64, P)| LatestFirst.before(a, b);
    sorted_keeps_items(found, before);
    sorted_is_sorted(found, before);
    let out = in_order(found, LatestFirst);
    assert forall|i: int, j: int| 0 <= i < j < found.len() implies (#[trigger] out[i]).0 >= (
    #[trigger] out[j]).0 by {
        assert(!before(out[j], out[i]));
    }
}

/// A table is named by `Msg_` and the digest of the user name, each byte in two
/// hexadecimal digits.
pub proof fn table_names_spell_the_digest(username: Seq<char>)
    ensures
        table_name(username).len() == 4 + 2 * md5_of(encode_utf8(username)).len(),
        table_name(username).take(4) == seq!['M', 's', 'g', '_'],
        table_name(username).skip(4) == name_hash(username),
        forall|i: int|
            0 <= i < md5_of(encode_utf8(username)).len() ==> #[trigger] md5_of(
                encode_utf8(username),
            )[i] == 16 * hex_value(name_hash(username)[2 * i]) + hex_value(
                name_hash(username)[2 * i + 1],
            ),
        forall|i: int|
            0 <= i < name_hash(username).len() ==> '0' <= #[trigger] name_hash(username)[i] <= '9'
                || 'a' <= name_hash(username)[i] <= 'f',
{
    reveal_strlit("Msg_");
    bytes_read_back(md5_of(encode_utf8(username)));
    assert(table_name(username).take(4) =~= seq!['M', 's', 'g', '_']);
    assert(table_name(username).skip(4) =~= name_hash(username));
}

/// A name is that of a message table exactly if it is `Msg_` and then 32
/// characters from `0` to `9` and from `a` to `f`.
pub proof fn message_tables_are_told_by_character(s: Seq<char>)
    ensures
        is_table_name(s) <==> {
            &&& s.len() == 36
            &&& s[0] == 'M' && s[1] == 's' && s[2] == 'g' && s[3] == '_'
            &&& forall|i: int|
                4 <= i < 36 ==> '0' <= #[trigger] s[i] <= '9' || 'a' <= s[i] <= 'f'
        },
{
    reveal_strlit("Msg_");
    if s.len() == 36 {
        let head = s.take(4);
        assert(head[0] == s[0] && head[1] == s[1] && head[2] == s[2] && head[3] == s[3]);
        if s[0] == 'M' && s[1] == 's' && s[2] == 'g' && s[3] == '_' {
            assert(head =~= "Msg_"@);
        }
    }
}

proof fn lemma_with_messages<P>(probes: Seq<(P, Option<i64>)>, ts: i64, place: P)
    ensures
        with_messages(probes).to_multiset().count((ts, place)) == probes.to_multiset().count(
            (place, Some(ts)),
        ),
    decreases probes.len(),
{
    probes.to_multiset_ensures();
    with_messages(probes).to_multiset_ensures();
    if probes.len() > 0 {
        let rest = probes.drop_last();
        lemma_with_messages(rest, ts, place);
        rest.to_multiset_ensures();
        with_messages(rest).to_multiset_ensures();
        assert(probes =~= rest.push(probes.last()));
    }
}

/// The databases that a contact's messages are read from are those whose probe
/// found a message, as often as they were probed, in the order of the times
/// that were found, the latest first.
pub proof fn probed_databases_come_by_time<P>(probes: Seq<(P, Option<i64>)>)
    ensures
        exists|found: Seq<(i64, P)>|
            {
                &&& #[trigger] found.len() == table_places(probes).len()
                &&& forall|i: int|
                    0 <= i < found.len() ==> (#[trigger] found[i]).1 == table_places(probes)[i]
                &&& forall|i: int, j: int|
                    0 <= i < j < found.len() ==> (#[trigger] found[i]).0 >= (#[trigger] found[j]).0
                &&& forall|ts: i64, place: P| #[trigger]
                    found.to_multiset().count((ts, place)) == probes.to_multiset().count(
                        (place, Some(ts)),
                    )
            },
{
    let found = in_order(with_messages(probes), LatestFirst);
    tables_come_latest_first(probes);
    assert(found.len() == table_places(probes).len());
    assert forall|ts: i64, place: P| #[trigger]
        found.to_multiset().count((ts, place)) == probes.to_multiset().count(
            (place, Some(ts)),
        ) by {
        lemma_with_messages(probes, ts, place);
    }
}

/// Databases whose latest messages are of one time stay in the order in which
/// they were probed, and so do all if the times never rise.
pub proof fn probes_in_order_stay_in_order<P>(probes: Seq<(P, i64)>)
    requires
        forall|i: int, j: int|
            0 <= i < j < probes.len() ==> (#[trigger] probes[i]).1 >= (#[trigger] probes[j]).1,
    ensures
        table_places(probes.map_values(|p: (P, i64)| (p.0, Some(p.1)))) == probes.map_values(
            |p: (P, i64)| p.0,
        ),
{
    let given = probes.map_values(|p: (P, i64)| (p.0, Some(p.1)));
    let turned = probes.map_values(|p: (P, i64)| (p.1, p.0));
    lemma_all_found(probes);
    let before = |a: (i64, P), b: (i64, P)| LatestFirst.before(a, b);
    assert(is_sorted(turned, before)) by {
        assert forall|i: int, j: int| 0 <= i < j < turned.len() implies !before(
            #[trigger] turned[j],
            #[trigger] turned[i],
        ) by {
            assert(probes[i].1 >= probes[j].1);
        }
    }
    sorted_leaves_sorted(turned, before);
    assert(table_places(given) =~= probes.map_values(|p: (P, i64)| p.0));
}

proof fn lemma_all_found<P>(probes: Seq<(P, i64)>)
    ensures
        with_messages(probes.map_values(|p: (P, i64)| (p.0, Some(p.1)))) == probes.map_values(
            |p: (P, i64)| (p.1, p.0),
        ),
    decreases probes.len(),
{
    let given = probes.map_values(|p: (P, i64)| (p.0, Some(p.1)));
    if probes.len() > 0 {
        let rest = probes.drop_last();
        lemma_all_found(rest);
        assert(given.drop_last() =~= rest.map_values(|p: (P, i64)| (p.0, Some(p.1))));
    }
    assert(with_messages(given) =~= probes.map_values(|p: (P, i64)| (p.1, p.0)));
}

} // verus!
