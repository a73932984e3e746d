//! Search for a keyword in the messages of chats.

use vstd::prelude::*;

use crate::clock::is_time_text;
use crate::codec::stored_text;
use crate::content::{content_text, kind_name};
use crate::messages::{
    chat_label, hit_shows_row, name_chat, search_in_table, shown_hits_hold_the_row, with_chat,
    ChatContext, SearchHit,
};
use crate::names::{sender_of, sender_shown, Names};
use crate::pages::{first_items, page};
use crate::rows::{ids_in, load_id2u, messages_in, row_values, MessageRowView, SqlValue};
use crate::sessions::{groups_are_told_by_part, is_group, is_group_name};
use crate::sort::{
    beginnings, beginnings_are_enough, chained, in_order, is_sorted, level, paired, sorted,
    sorted_is_sorted, sorted_keeps_items, sorted_leaves_sorted, sorted_stays_paired,
    sorted_whatever_the_order, stable_sort, Order,
};
use crate::sql::{param_views, search_params, search_sql, search_statement, Statement};
use crate::targets::{SearchTarget, TargetView};
use crate::text::has_part;

verus! {

/// Ranks hits the latest first.
pub struct LatestHitFirst;

impl Order<SearchHit> for LatestHitFirst {
    open spec fn before(&self, a: SearchHit, b: SearchHit) -> bool {
        a.timestamp > b.timestamp
    }

    proof fn ranking(&self) {
    }

    fn is_before(&self, a: &SearchHit, b: &SearchHit) -> (yes: bool) {
        a.timestamp > b.timestamp
    }
}

/// Keeps the `limit` latest hits, the latest first. Hits of one time keep their
/// order.
pub fn latest_hits(hits: Vec<SearchHit>, limit: usize) -> (out: Vec<SearchHit>)
    ensures
        out@ == first_items(in_order(hits@, LatestHitFirst), limit as nat),
{
    let ordered = stable_sort(hits, &LatestHitFirst);
    assert(ordered@.skip(0) =~= ordered@);
    page(ordered, 0, limit)
}

// ---------------------------------------------------------------------------
// What is found

/// What a search found in one table: the rows that name the senders, and those
/// of the messages that hold the keyword.
pub struct FoundRows {
    pub target: SearchTarget,
    pub ids: Vec<Vec<SqlValue>>,
    pub messages: Vec<Vec<SqlValue>>,
}

/// A message that a search found, with its chat and the name it is shown by.
pub struct FoundMessage {
    pub row: MessageRowView,
    pub chat: ChatContext,
    pub name: Seq<char>,
}

/// The chat that the messages of a target belong to.
pub open spec fn target_chat(
    target: TargetView,
    ids: Map<i64, Seq<char>>,
    map: Map<Seq<char>, Seq<char>>,
) -> ChatContext {
    ChatContext { username: target.username, is_group: is_group_name(target.username), ids, map }
}

/// Rows of messages found in a chat that is shown by the given name.
pub open spec fn found_with(rows: Seq<MessageRowView>, chat: ChatContext, name: Seq<char>) -> Seq<
    FoundMessage,
> {
    rows.map_values(|row: MessageRowView| FoundMessage { row, chat, name })
}

/// The messages found in a table.
pub open spec fn found_in(found: FoundRows, map: Map<Seq<char>, Seq<char>>) -> Seq<FoundMessage> {
    found_with(
        messages_in(row_values(found.messages@)),
        target_chat(found.target@, ids_in(row_values(found.ids@)), map),
        chat_label(found.target.display@, found.target.table@),
    )
}

/// The messages found in each of the tables.
pub open spec fn found_lists(found: Seq<FoundRows>, map: Map<Seq<char>, Seq<char>>) -> Seq<
    Seq<FoundMessage>,
> {
    found.map_values(|f: FoundRows| found_in(f, map))
}

/// A hit is what a message found is shown as.
pub open spec fn hit_shows() -> spec_fn(SearchHit, FoundMessage) -> bool {
    |hit: SearchHit, f: FoundMessage| hit_shows_row(hit@, f.name, f.row, f.chat)
}

/// Ranks messages found the latest first.
pub open spec fn latest_first() -> spec_fn(FoundMessage, FoundMessage) -> bool {
    |a: FoundMessage, b: FoundMessage| a.row.timestamp > b.row.timestamp
}

/// The `limit` latest messages found, the latest first.
pub open spec fn results_of(found: Seq<FoundMessage>, limit: nat) -> Seq<FoundMessage> {
    first_items(sorted(found, latest_first()), limit)
}

/// Shows the messages found in a table.
fn shown_hits(found: &FoundRows, names: &Names) -> (hits: Vec<SearchHit>)
    ensures
        paired(hits@, found_in(*found, names.map@), hit_shows()),
{
    let ids = load_id2u(&found.ids);
    let username = found.target.username.as_str();
    let hits = search_in_table(&found.messages, username, is_group(username), &ids, &names.map);
    let ghost unnamed = hits@;
    let named = name_chat(hits, found.target.display.as_str(), found.target.table.as_str());
    proof {
        let stored = found_in(*found, names.map@);
        assert forall|i: int| 0 <= i < named@.len() implies hit_shows()(
            #[trigger] named@[i],
            stored[i],
        ) by {
            let rows = messages_in(row_values(found.messages@));
            assert(hit_shows_row(unnamed[i]@, Seq::empty(), rows[i], stored[i].chat));
            assert(named@[i]@ == with_chat(
                unnamed[i]@,
                found.target.display@,
                found.target.table@,
            ));
        }
    }
    named
}

// ---------------------------------------------------------------------------
// The query

/// The statement that reads from a table what a search needs: three times as
/// many hits as are wanted, the latest first.
pub fn hits_statement(
    table: &str,
    keyword: &str,
    since: Option<i64>,
    until: Option<i64>,
    limit: usize,
) -> (statement: Statement)
    requires
        limit * 3 <= usize::MAX,
    ensures
        statement.sql@ == search_sql(table@, since, until),
        param_views(statement.params@) == search_params(
            keyword@,
            since,
            until,
            (limit * 3) as usize,
        ),
{
    search_statement(table, keyword, since, until, limit * 3)
}

/// What a search found.
pub struct SearchReply {
    pub keyword: String,
    pub count: usize,
    pub results: Vec<SearchHit>,
}

/// The latest hits of a search, from what was found in tables.
pub fn q_search(names: &Names, keyword: &str, found: &Vec<FoundRows>, limit: usize) -> (reply:
    SearchReply)
    ensures
        reply.keyword@ == keyword@,
        reply.count == reply.results@.len(),
        paired(
            reply.results@,
            results_of(chained(found_lists(found@, names.map@)), limit as nat),
            hit_shows(),
        ),
{
    let ghost lists = found_lists(found@, names.map@);
    let mut hits: Vec<SearchHit> = Vec::new();
    assert(chained(lists.take(0)) =~= Seq::empty());
    for i in 0..found.len()
        invariant
            lists == found_lists(found@, names.map@),
            paired(hits@, chained(lists.take(i as int)), hit_shows()),
    {
        let ghost earlier = hits@;
        let mut more = shown_hits(&found[i], names);
        let ghost added = more@;
        hits.append(&mut more);
        proof {
            assert(lists.take(i + 1).drop_last() =~= lists.take(i as int));
            let done = chained(lists.take(i as int));
            let all = chained(lists.take(i + 1));
            assert(all == done + lists[i as int]);
            assert forall|k: int| 0 <= k < hits@.len() implies hit_shows()(
                #[trigger] hits@[k],
                all[k],
            ) by {
                if k < earlier.len() {
                    assert(hit_shows()(earlier[k], done[k]));
                } else {
                    assert(hit_shows()(
                        added[k - earlier.len()],
                        lists[i as int][k - earlier.len()],
                    ));
                }
            }
        }
    }
    assert(lists.take(found@.len() as int) =~= lists);
    let ghost all = hits@;
    let results = latest_hits(hits, limit);
    proof {
        let stored = chained(lists);
        let later = |a: SearchHit, b: SearchHit| LatestHitFirst.before(a, b);
        sorted_stays_paired(all, stored, hit_shows(), later, latest_first());
        let s = sorted(all, later);
        let t = sorted(stored, latest_first());
        assert forall|k: int| 0 <= k < results@.len() implies hit_shows()(
            #[trigger] results@[k],
            results_of(stored, limit as nat)[k],
        ) by {
            assert(hit_shows()(s[k], t[k]));
        }
    }
    SearchReply { keyword: keyword.to_owned(), count: results.len(), results }
}

// ---------------------------------------------------------------------------
// Laws

/// A search needs no more than three times `limit` hits of each table, if each
/// table hands out its hits the latest first.
pub proof fn latest_hits_are_enough(lists: Seq<Seq<FoundMessage>>, limit: nat)
    requires
        forall|i: int| 0 <= i < lists.len() ==> is_sorted(#[trigger] lists[i], latest_first()),
    ensures
        results_of(chained(beginnings(lists, limit * 3)), limit) == results_of(
            chained(lists),
            limit,
        ),
{
    beginnings_are_enough(lists, limit * 3, limit, latest_first());
}

/// The results run backward in time, are as many as wanted or as were found,
/// and nothing that was left out is later than a result.
pub proof fn results_are_the_latest(found: Seq<FoundMessage>, limit: nat)
    ensures
        results_of(found, limit).len() == (if found.len() <= limit {
            found.len()
        } else {
            limit
        }),
        is_sorted(results_of(found, limit), latest_first()),
        exists|rest: Seq<FoundMessage>|
            {
                &&& #[trigger] (results_of(found, limit) + rest).to_multiset()
                    == found.to_multiset()
                &&& is_sorted(results_of(found, limit) + rest, latest_first())
            },
{
    let all = sorted(found, latest_first());
    sorted_keeps_items(found, latest_first());
    sorted_is_sorted(found, latest_first());
    let out = results_of(found, limit);
    let rest = all.skip(out.len() as int);
    assert(out + rest =~= all);
    assert forall|i: int, j: int| 0 <= i < j < out.len() implies !latest_first()(
        #[trigger] out[j],
        #[trigger] out[i],
    ) by {
        assert(out[j] == all[j] && out[i] == all[i]);
    }
}

/// The order in which messages were found has no say in the times of the
/// results: only results of one time may be others.
pub proof fn results_whatever_the_order(
    found: Seq<FoundMessage>,
    others: Seq<FoundMessage>,
    limit: nat,
)
    requires
        found.to_multiset() == others.to_multiset(),
    ensures
        results_of(found, limit).len() == results_of(others, limit).len(),
        forall|i: int|
            0 <= i < results_of(found, limit).len() ==> (#[trigger] results_of(
                found,
                limit,
            )[i]).row.timestamp == results_of(others, limit)[i].row.timestamp,
{
    sorted_whatever_the_order(found, others, latest_first());
    let a = sorted(found, latest_first());
    let b = sorted(others, latest_first());
    let out = results_of(found, limit);
    assert forall|i: int| 0 <= i < out.len() implies (#[trigger] out[i]).row.timestamp
        == results_of(others, limit)[i].row.timestamp by {
        assert(out[i] == a[i]);
        assert(level(a[i], b[i], latest_first()));
    }
}

/// `out` and `rest` are what was found, and nothing in `rest` is later than
/// anything in `out`, which is full if there is a rest.
pub open spec fn kept_by_time(
    found: Seq<FoundMessage>,
    out: Seq<FoundMessage>,
    rest: Seq<FoundMessage>,
    limit: nat,
) -> bool {
    &&& (out + rest).to_multiset() == found.to_multiset()
    &&& rest.len() > 0 ==> out.len() == limit
    &&& forall|i: int, j: int|
        0 <= i < out.len() && 0 <= j < rest.len() ==> (#[trigger] out[i]).row.timestamp >= (
        #[trigger] rest[j]).row.timestamp
}

/// The results never run forward in time; with what was left out they are what
/// was found, and nothing that was left out is later than a result.
pub proof fn results_part_what_was_found(found: Seq<FoundMessage>, limit: nat)
    ensures
        results_of(found, limit).len() <= limit,
        forall|i: int, j: int|
            0 <= i < j < results_of(found, limit).len() ==> (#[trigger] results_of(
                found,
                limit,
            )[i]).row.timestamp >= (#[trigger] results_of(found, limit)[j]).row.timestamp,
        exists|rest: Seq<FoundMessage>| #[trigger]
            kept_by_time(found, results_of(found, limit), rest, limit),
{
    let all = sorted(found, latest_first());
    sorted_keeps_items(found, latest_first());
    sorted_is_sorted(found, latest_first());
    let out = results_of(found, limit);
    let rest = all.skip(out.len() as int);
    assert(out + rest =~= all);
    assert forall|i: int, j: int| 0 <= i < j < out.len() implies (
    #[trigger] out[i]).row.timestamp >= (#[trigger] out[j]).row.timestamp by {
        assert(out[j] == all[j] && out[i] == all[i]);
        assert(!latest_first()(all[j], all[i]));
    }
    assert forall|i: int, j: int| 0 <= i < out.len() && 0 <= j < rest.len() implies (
    #[trigger] out[i]).row.timestamp >= (#[trigger] rest[j]).row.timestamp by {
        assert(out[i] == all[i] && rest[j] == all[out.len() + j]);
        assert(!latest_first()(all[out.len() + j], all[i]));
    }
    assert(kept_by_time(found, out, rest, limit));
}

/// Hits of one time come in the order in which they were found.
pub proof fn hits_of_one_time_keep_their_order(found: Seq<FoundMessage>, limit: nat)
    requires
        forall|i: int, j: int|
            0 <= i < found.len() && 0 <= j < found.len() ==> (#[trigger] found[i]).row.timestamp
                == (#[trigger] found[j]).row.timestamp,
    ensures
        forall|k: int|
            0 <= k < results_of(found, limit).len() ==> #[trigger] results_of(found, limit)[k]
                == found[k],
{
    sorted_leaves_sorted(found, latest_first());
}

/// A list of hits that never runs forward in time is in the order that results
/// are taken in.
pub proof fn backward_hits_are_in_order(list: Seq<FoundMessage>)
    ensures
        is_sorted(list, latest_first()) <==> forall|i: int, j: int|
            0 <= i < j < list.len() ==> (#[trigger] list[i]).row.timestamp >= (
            #[trigger] list[j]).row.timestamp,
{
    if is_sorted(list, latest_first()) {
        assert forall|i: int, j: int| 0 <= i < j < list.len() implies (
        #[trigger] list[i]).row.timestamp >= (#[trigger] list[j]).row.timestamp by {
            assert(!latest_first()(list[j], list[i]));
        }
    }
}

/// The messages found in a table are those of its rows, in order, each with the
/// user and the senders of the table, and with the name of the contact, or of
/// the table if there is none.
pub proof fn tables_hold_what_was_found(
    found: Seq<FoundRows>,
    map: Map<Seq<char>, Seq<char>>,
    t: int,
)
    requires
        0 <= t < found.len(),
    ensures
        found_lists(found, map).len() == found.len(),
        found_lists(found, map)[t].len() == messages_in(row_values(found[t].messages@)).len(),
        forall|i: int|
            0 <= i < messages_in(row_values(found[t].messages@)).len() ==> {
                let f = #[trigger] found_lists(found, map)[t][i];
                let target = found[t].target;
                &&& f.row == messages_in(row_values(found[t].messages@))[i]
                &&& f.chat.username == target.username@
                &&& f.chat.is_group == has_part(
                    target.username@,
                    seq!['@', 'c', 'h', 'a', 't', 'r', 'o', 'o', 'm'],
                )
                &&& f.chat.ids == ids_in(row_values(found[t].ids@))
                &&& f.chat.map == map
                &&& target.display@.len() > 0 ==> f.name == target.display@
                &&& target.display@.len() == 0 ==> f.name == target.table@
            },
{
    groups_are_told_by_part(found[t].target.username@);
}

/// A result shows the message found: its time stamp, chat, kind, sender and
/// content.
pub proof fn results_show_what_was_found(hit: SearchHit, f: FoundMessage)
    requires
        hit_shows()(hit, f),
    ensures
        hit.timestamp == f.row.timestamp,
        hit.chat@ == f.name,
        hit_shows_row(hit@, f.name, f.row, f.chat),
        ({
            let text = stored_text(f.row.content, f.row.ct);
            &&& hit.kind@ == kind_name(f.row.local_type as int % 0x1_0000_0000)
            &&& hit.content@ == content_text(
                f.row.local_id as int,
                f.row.local_type as int % 0x1_0000_0000,
                text,
                f.chat.is_group,
            )
            &&& hit.sender@ == sender_shown(
                sender_of(f.chat.ids, f.row.real_sender_id),
                text,
                f.chat.is_group,
                f.chat.username,
                f.chat.map,
            )
            &&& is_time_text(hit.time@, "%Y-%m-%d %H:%M"@, f.row.timestamp as int)
        }),
{
    shown_hits_hold_the_row(hit@, f.name, f.row, f.chat);
}

} // verus!
