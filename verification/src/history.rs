//! The history of a chat, page by page.

use vstd::prelude::*;

use crate::clock::is_time_text;
use crate::codec::stored_text;
use crate::content::{content_text, kind_name};
use crate::messages::{
    query_messages, shown_messages_hold_the_row, shows_row, ChatContext, Message,
};
use crate::names::{
    resolve_username, resolved, sender_of, sender_shown, shown_name, Names,
};
use crate::pages::{after_first, first_items, page, page_of};
use crate::rows::{ids_in, load_id2u, messages_in, row_values, MessageRowView, SqlValue};
use crate::sessions::{groups_are_told_by_part, is_group, is_group_name};
use crate::sort::{
    beginnings, beginnings_are_enough, chained, in_order, is_sorted, lemma_sorted_map, paired,
    sorted, sorted_is_sorted, sorted_keeps_items, sorted_leaves_sorted, sorted_stays_paired,
    sorted_turned, stable_sort, Order,
};
use crate::sql::{history_params, history_sql, history_statement, param_views, Statement};
use crate::text::{has_part, joined};

verus! {

/// Why a chat has no history to show.
pub enum QueryError {
    /// No contact goes by the name.
    UnknownContact(String),
    /// The contact, by the name shown, has no table of messages.
    NoMessages(String),
}

/// What is said of a failed query.
pub open spec fn error_text(e: QueryError) -> Seq<char> {
    match e {
        QueryError::UnknownContact(chat) => "找不到联系人: "@ + chat@,
        QueryError::NoMessages(display) => "找不到 "@ + display@ + " 的消息记录"@,
    }
}

impl QueryError {
    /// What is said of the failed query.
    pub fn message(&self) -> (text: String)
        ensures
            text@ == error_text(*self),
    {
        match self {
            QueryError::UnknownContact(chat) => joined("找不到联系人: ", chat.as_str()),
            QueryError::NoMessages(display) => joined(
                joined("找不到 ", display.as_str()).as_str(),
                " 的消息记录",
            ),
        }
    }
}

// ---------------------------------------------------------------------------
// Order in time

/// Ranks messages the latest first.
pub struct NewestFirst;

impl Order<Message> for NewestFirst {
    open spec fn before(&self, a: Message, b: Message) -> bool {
        a.timestamp > b.timestamp
    }

    proof fn ranking(&self) {
    }

    fn is_before(&self, a: &Message, b: &Message) -> (yes: bool) {
        a.timestamp > b.timestamp
    }
}

/// Ranks messages the earliest first.
pub struct OldestFirst;

impl Order<Message> for OldestFirst {
    open spec fn before(&self, a: Message, b: Message) -> bool {
        a.timestamp < b.timestamp
    }

    proof fn ranking(&self) {
    }

    fn is_before(&self, a: &Message, b: &Message) -> (yes: bool) {
        a.timestamp < b.timestamp
    }
}

/// Takes the page after the `offset` latest messages, and puts it in the order
/// of time. Messages of one time keep their order.
pub fn history_page(messages: Vec<Message>, limit: usize, offset: usize) -> (out: Vec<Message>)
    ensures
        out@ == in_order(
            page_of(in_order(messages@, NewestFirst), offset as nat, limit as nat),
            OldestFirst,
        ),
{
    let latest = stable_sort(messages, &NewestFirst);
    stable_sort(page(latest, offset, limit), &OldestFirst)
}

// ---------------------------------------------------------------------------
// What is stored

/// What was read of one table of messages: the rows that name the senders, and
/// those of the messages.
pub struct TableRows {
    pub ids: Vec<Vec<SqlValue>>,
    pub messages: Vec<Vec<SqlValue>>,
}

/// A message as stored, with the chat that it belongs to.
pub struct StoredMessage {
    pub row: MessageRowView,
    pub chat: ChatContext,
}

/// The chat that the messages of a table belong to.
pub open spec fn chat_of(
    table: TableRows,
    username: Seq<char>,
    map: Map<Seq<char>, Seq<char>>,
) -> ChatContext {
    ChatContext {
        username,
        is_group: is_group_name(username),
        ids: ids_in(row_values(table.ids@)),
        map,
    }
}

/// Rows of messages that belong to a chat.
pub open spec fn stored_with(rows: Seq<MessageRowView>, chat: ChatContext) -> Seq<StoredMessage> {
    rows.map_values(|row: MessageRowView| StoredMessage { row, chat })
}

/// The messages stored in a table.
pub open spec fn stored_in(
    table: TableRows,
    username: Seq<char>,
    map: Map<Seq<char>, Seq<char>>,
) -> Seq<StoredMessage> {
    stored_with(messages_in(row_values(table.messages@)), chat_of(table, username, map))
}

/// The messages stored in each of the tables.
pub open spec fn stored_lists(
    tables: Seq<TableRows>,
    username: Seq<char>,
    map: Map<Seq<char>, Seq<char>>,
) -> Seq<Seq<StoredMessage>> {
    tables.map_values(|t: TableRows| stored_in(t, username, map))
}

/// A message is what a stored one is shown as.
pub open spec fn shows() -> spec_fn(Message, StoredMessage) -> bool {
    |m: Message, s: StoredMessage| shows_row(m@, s.row, s.chat)
}

/// Ranks stored messages the latest first.
pub open spec fn newest_first() -> spec_fn(StoredMessage, StoredMessage) -> bool {
    |a: StoredMessage, b: StoredMessage| a.row.timestamp > b.row.timestamp
}

/// Ranks stored messages the earliest first.
pub open spec fn oldest_first() -> spec_fn(StoredMessage, StoredMessage) -> bool {
    |a: StoredMessage, b: StoredMessage| a.row.timestamp < b.row.timestamp
}

/// The page of a history after the `offset` latest messages, in the order of
/// time.
pub open spec fn history_of(stored: Seq<StoredMessage>, limit: nat, offset: nat) -> Seq<
    StoredMessage,
> {
    sorted(page_of(sorted(stored, newest_first()), offset, limit), oldest_first())
}

/// Shows the messages stored in a table.
fn shown_table(table: &TableRows, username: &str, names: &Names) -> (shown: Vec<Message>)
    ensures
        paired(shown@, stored_in(*table, username@, names.map@), shows()),
{
    let ids = load_id2u(&table.ids);
    query_messages(&table.messages, username, is_group(username), &ids, &names.map)
}

/// Shows the messages stored in tables, one table after the other.
fn shown_tables(tables: &Vec<TableRows>, username: &str, names: &Names) -> (shown: Vec<Message>)
    ensures
        paired(shown@, chained(stored_lists(tables@, username@, names.map@)), shows()),
{
    let ghost lists = stored_lists(tables@, username@, names.map@);
    let mut shown: Vec<Message> = Vec::new();
    assert(chained(lists.take(0)) =~= Seq::empty());
    for i in 0..tables.len()
        invariant
            lists == stored_lists(tables@, username@, names.map@),
            paired(shown@, chained(lists.take(i as int)), shows()),
    {
        let ghost earlier = shown@;
        let mut more = shown_table(&tables[i], username, names);
        let ghost added = more@;
        shown.append(&mut more);
        proof {
            assert(lists.take(i + 1).drop_last() =~= lists.take(i as int));
            let done = chained(lists.take(i as int));
            let all = chained(lists.take(i + 1));
            assert(all == done + lists[i as int]);
            assert forall|k: int| 0 <= k < shown@.len() implies shows()(
                #[trigger] shown@[k],
                all[k],
            ) by {
                if k < earlier.len() {
                    assert(shows()(earlier[k], done[k]));
                } else {
                    assert(shows()(added[k - earlier.len()], lists[i as int][k - earlier.len()]));
                }
            }
        }
    }
    assert(lists.take(tables@.len() as int) =~= lists);
    shown
}

// ---------------------------------------------------------------------------
// The query

/// The statement that reads from a table what a page of the history needs: the
/// `limit + offset` latest messages.
pub fn page_statement(
    table: &str,
    since: Option<i64>,
    until: Option<i64>,
    limit: usize,
    offset: usize,
) -> (statement: Statement)
    requires
        limit + offset <= usize::MAX,
    ensures
        statement.sql@ == history_sql(table@, since, until),
        param_views(statement.params@) == history_params(
            since,
            until,
            (limit + offset) as usize,
            0,
        ),
{
    history_statement(table, since, until, limit + offset, 0)
}

/// A page of the history of a chat.
pub struct History {
    pub chat: String,
    pub username: String,
    pub is_group: bool,
    pub count: usize,
    pub messages: Vec<Message>,
}

/// `h` is the page of the history of a user after the `offset` latest messages.
pub open spec fn is_history(
    h: History,
    username: Seq<char>,
    map: Map<Seq<char>, Seq<char>>,
    stored: Seq<StoredMessage>,
    limit: nat,
    offset: nat,
) -> bool {
    &&& h.chat@ == shown_name(map, username)
    &&& h.username@ == username
    &&& h.is_group == is_group_name(username)
    &&& h.count == h.messages@.len()
    &&& paired(h.messages@, history_of(stored, limit, offset), shows())
}

/// The history of a chat, from what was read of its tables. The chat may be
/// given by a user name or by the name it is shown by.
pub fn q_history(
    names: &Names,
    chat: &str,
    tables: &Vec<TableRows>,
    limit: usize,
    offset: usize,
) -> (history: Result<History, QueryError>)
    ensures
        match resolved(names.map.pairs(), chat@) {
            None => history matches Err(QueryError::UnknownContact(c)) && c@ == chat@,
            Some(username) => if tables@.len() == 0 {
                history matches Err(QueryError::NoMessages(d)) && d@ == shown_name(
                    names.map@,
                    username,
                )
            } else {
                history matches Ok(h) && is_history(
                    h,
                    username,
                    names.map@,
                    chained(stored_lists(tables@, username, names.map@)),
                    limit as nat,
                    offset as nat,
                )
            },
        },
{
    let username = match resolve_username(chat, names) {
        Some(username) => username,
        None => return Err(QueryError::UnknownContact(chat.to_owned())),
    };
    let display = names.display(username.as_str());
    if tables.len() == 0 {
        return Err(QueryError::NoMessages(display));
    }
    let shown = shown_tables(tables, username.as_str(), names);
    let ghost stored = chained(stored_lists(tables@, username@, names.map@));
    let ghost given = shown@;
    let messages = history_page(shown, limit, offset);
    proof {
        let later = |a: Message, b: Message| NewestFirst.before(a, b);
        let earlier = |a: Message, b: Message| OldestFirst.before(a, b);
        sorted_stays_paired(given, stored, shows(), later, newest_first());
        lemma_paired_page(
            sorted(given, later),
            sorted(stored, newest_first()),
            shows(),
            offset as nat,
            limit as nat,
        );
        sorted_stays_paired(
            page_of(sorted(given, later), offset as nat, limit as nat),
            page_of(sorted(stored, newest_first()), offset as nat, limit as nat),
            shows(),
            earlier,
            oldest_first(),
        );
    }
    let group = is_group(username.as_str());
    Ok(History { chat: display, username, is_group: group, count: messages.len(), messages })
}

/// Lists that correspond have pages that correspond.
pub proof fn lemma_paired_page<T, U>(
    s: Seq<T>,
    t: Seq<U>,
    same: spec_fn(T, U) -> bool,
    offset: nat,
    limit: nat,
)
    requires
        paired(s, t, same),
    ensures
        paired(page_of(s, offset, limit), page_of(t, offset, limit), same),
{
    let a = page_of(s, offset, limit);
    let b = page_of(t, offset, limit);
    assert forall|i: int| 0 <= i < a.len() implies same(#[trigger] a[i], b[i]) by {
        assert(a[i] == s[offset + i] && b[i] == t[offset + i]);
    }
}

// ---------------------------------------------------------------------------
// Laws

/// A page needs no more than the latest `limit + offset` messages of each table,
/// if each table hands out its messages the latest first.
pub proof fn latest_messages_are_enough(
    lists: Seq<Seq<StoredMessage>>,
    limit: nat,
    offset: nat,
)
    requires
        forall|i: int| 0 <= i < lists.len() ==> is_sorted(#[trigger] lists[i], newest_first()),
    ensures
        history_of(chained(beginnings(lists, limit + offset)), limit, offset) == history_of(
            chained(lists),
            limit,
            offset,
        ),
{
    let n = limit + offset;
    beginnings_are_enough(lists, n, n, newest_first());
    let a = sorted(chained(beginnings(lists, n)), newest_first());
    let b = sorted(chained(lists), newest_first());
    assert(page_of(a, offset, limit) =~= page_of(first_items(a, n), offset, limit));
    assert(page_of(b, offset, limit) =~= page_of(first_items(b, n), offset, limit));
}

/// A page runs forward in time, holds at most `limit` messages, and holds
/// exactly those in its places, counted from the latest message.
pub proof fn page_runs_forward(stored: Seq<StoredMessage>, limit: nat, offset: nat)
    ensures
        forall|i: int, j: int|
            0 <= i < j < history_of(stored, limit, offset).len() ==> (#[trigger] history_of(
                stored,
                limit,
                offset,
            )[i]).row.timestamp <= (#[trigger] history_of(stored, limit, offset)[j]).row.timestamp,
        history_of(stored, limit, offset).len() == (if stored.len() <= offset {
            0
        } else if stored.len() - offset <= limit {
            stored.len() - offset
        } else {
            limit as int
        }),
        history_of(stored, limit, offset).to_multiset() == page_of(
            sorted(stored, newest_first()),
            offset,
            limit,
        ).to_multiset(),
{
    let all = sorted(stored, newest_first());
    let items = page_of(all, offset, limit);
    sorted_keeps_items(stored, newest_first());
    sorted_keeps_items(items, oldest_first());
    sorted_is_sorted(items, oldest_first());
    let h = history_of(stored, limit, offset);
    assert forall|i: int, j: int| 0 <= i < j < h.len() implies (
    #[trigger] h[i]).row.timestamp <= (#[trigger] h[j]).row.timestamp by {
        assert(!oldest_first()(h[j], h[i]));
    }
}

/// Pages that follow one another make up one longer page: none repeats a
/// message or leaves one out.
pub proof fn pages_follow_on(stored: Seq<StoredMessage>, limit: nat, more: nat, offset: nat)
    ensures
        history_of(stored, limit + more, offset).to_multiset() == history_of(
            stored,
            limit,
            offset,
        ).to_multiset().add(history_of(stored, more, offset + limit).to_multiset()),
{
    let all = sorted(stored, newest_first());
    page_runs_forward(stored, limit + more, offset);
    page_runs_forward(stored, limit, offset);
    page_runs_forward(stored, more, offset + limit);
    let a = page_of(all, offset, limit);
    let b = page_of(all, offset + limit, more);
    assert(page_of(all, offset, limit + more) =~= a + b);
    vstd::seq_lib::lemma_multiset_commutative(a, b);
}

/// No message of a later page is later than one of the page before it.
pub proof fn later_pages_are_older(
    stored: Seq<StoredMessage>,
    limit: nat,
    more: nat,
    offset: nat,
    i: int,
    j: int,
)
    requires
        0 <= i < history_of(stored, limit, offset).len(),
        0 <= j < history_of(stored, more, offset + limit).len(),
    ensures
        history_of(stored, more, offset + limit)[j].row.timestamp <= history_of(
            stored,
            limit,
            offset,
        )[i].row.timestamp,
{
    let all = sorted(stored, newest_first());
    let a = page_of(all, offset, limit);
    let b = page_of(all, offset + limit, more);
    let h = history_of(stored, limit, offset);
    let g = history_of(stored, more, offset + limit);
    page_runs_forward(stored, limit, offset);
    page_runs_forward(stored, more, offset + limit);
    sorted_is_sorted(stored, newest_first());
    h.to_multiset_ensures();
    g.to_multiset_ensures();
    a.to_multiset_ensures();
    b.to_multiset_ensures();
    assert(h.contains(h[i]) && g.contains(g[j]));
    assert(h.to_multiset().count(h[i]) > 0);
    assert(g.to_multiset().count(g[j]) > 0);
    assert(a.contains(h[i]));
    assert(b.contains(g[j]));
    let m = choose|m: int| 0 <= m < a.len() && a[m] == h[i];
    let n = choose|n: int| 0 <= n < b.len() && b[n] == g[j];
    assert(a[m] == all[offset + m]);
    assert(b[n] == all[offset + limit + n]);
    assert(!newest_first()(all[offset + limit + n], all[offset + m]));
}

/// Messages of one time that stand on two pages which follow one another are
/// the same message.
pub open spec fn clean_cut(
    stored: Seq<StoredMessage>,
    limit: nat,
    more: nat,
    offset: nat,
) -> bool {
    let page = page_of(sorted(stored, newest_first()), offset, limit);
    let next = page_of(sorted(stored, newest_first()), offset + limit, more);
    forall|i: int, j: int|
        0 <= i < page.len() && 0 <= j < next.len() && (#[trigger] page[i]).row.timestamp == (
        #[trigger] next[j]).row.timestamp ==> page[i] == next[j]
}

/// A page and the next one, put before it, are the longer page in its order, if
/// no two messages of one time are cut apart.
pub proof fn pages_join(stored: Seq<StoredMessage>, limit: nat, more: nat, offset: nat)
    requires
        clean_cut(stored, limit, more, offset),
    ensures
        history_of(stored, limit + more, offset) == history_of(stored, more, offset + limit)
            + history_of(stored, limit, offset),
{
    let all = sorted(stored, newest_first());
    let a = page_of(all, offset, limit);
    let b = page_of(all, offset + limit, more);
    assert(page_of(all, offset, limit + more) =~= a + b);
    sorted_is_sorted(stored, newest_first());
    assert forall|i: int, j: int| 0 <= i < a.len() && 0 <= j < b.len() implies oldest_first()(
        #[trigger] b[j],
        #[trigger] a[i],
    ) || a[i] == b[j] by {
        assert(a[i] == all[offset + i]);
        assert(b[j] == all[offset + limit + j]);
        assert(!newest_first()(all[offset + limit + j], all[offset + i]));
    }
    sorted_turned(a, b, oldest_first());
}

/// No two messages have one time.
pub open spec fn times_differ(stored: Seq<StoredMessage>) -> bool {
    forall|i: int, j: int|
        0 <= i < j < stored.len() ==> (#[trigger] stored[i]).row.timestamp != (
        #[trigger] stored[j]).row.timestamp
}

/// Where times differ, a page and the next one, put before it, are the longer
/// page in its order.
pub proof fn pages_join_where_times_differ(
    stored: Seq<StoredMessage>,
    limit: nat,
    more: nat,
    offset: nat,
)
    requires
        times_differ(stored),
    ensures
        history_of(stored, limit + more, offset) == history_of(stored, more, offset + limit)
            + history_of(stored, limit, offset),
{
    let all = sorted(stored, newest_first());
    let time = |s: StoredMessage| s.row.timestamp;
    let later = |a: i64, b: i64| a > b;
    let times = stored.map_values(time);
    lemma_sorted_map(stored, time, newest_first(), later);
    sorted_keeps_items(times, later);
    assert(times.no_duplicates());
    times.lemma_multiset_has_no_duplicates();
    sorted(times, later).lemma_multiset_has_no_duplicates_conv();
    let page = page_of(all, offset, limit);
    let next = page_of(all, offset + limit, more);
    assert forall|i: int, j: int|
        0 <= i < page.len() && 0 <= j < next.len() && (#[trigger] page[i]).row.timestamp == (
        #[trigger] next[j]).row.timestamp implies page[i] == next[j] by {
        assert(page[i] == all[offset + i]);
        assert(next[j] == all[offset + limit + j]);
        assert(sorted(times, later)[offset + i] == page[i].row.timestamp);
        assert(sorted(times, later)[offset + limit + j] == next[j].row.timestamp);
    }
    pages_join(stored, limit, more, offset);
}

/// The same of pages made from what is read for each: of every table only the
/// latest messages that the page needs, the latest first.
pub proof fn pages_join_as_read(
    lists: Seq<Seq<StoredMessage>>,
    limit: nat,
    more: nat,
    offset: nat,
)
    requires
        forall|i: int| 0 <= i < lists.len() ==> is_sorted(#[trigger] lists[i], newest_first()),
        times_differ(chained(lists)),
    ensures
        history_of(
            chained(beginnings(lists, limit + more + offset)),
            limit + more,
            offset,
        ) == history_of(
            chained(beginnings(lists, more + (offset + limit))),
            more,
            offset + limit,
        ) + history_of(chained(beginnings(lists, limit + offset)), limit, offset),
{
    latest_messages_are_enough(lists, limit + more, offset);
    latest_messages_are_enough(lists, more, offset + limit);
    latest_messages_are_enough(lists, limit, offset);
    pages_join_where_times_differ(chained(lists), limit, more, offset);
}

/// `newer`, `page` and `older` are what is stored, parted by time: `newer` holds
/// `offset` messages, or all, and `page` holds `limit`, or all that are left.
pub open spec fn parted_by_time(
    stored: Seq<StoredMessage>,
    newer: Seq<StoredMessage>,
    page: Seq<StoredMessage>,
    older: Seq<StoredMessage>,
    limit: nat,
    offset: nat,
) -> bool {
    &&& (newer + page + older).to_multiset() == stored.to_multiset()
    &&& newer.len() <= offset
    &&& page.len() <= limit
    &&& page.len() + older.len() > 0 ==> newer.len() == offset
    &&& older.len() > 0 ==> page.len() == limit
    &&& forall|i: int, j: int|
        0 <= i < newer.len() && 0 <= j < page.len() ==> (#[trigger] newer[i]).row.timestamp >= (
        #[trigger] page[j]).row.timestamp
    &&& forall|i: int, j: int|
        0 <= i < page.len() && 0 <= j < older.len() ==> (#[trigger] page[i]).row.timestamp >= (
        #[trigger] older[j]).row.timestamp
}

/// A page parts what is stored: the `offset` latest messages come before it, and
/// no message on it is later than those or earlier than those after it. It is
/// full if anything comes after it.
pub proof fn pages_part_what_is_stored(stored: Seq<StoredMessage>, limit: nat, offset: nat)
    ensures
        exists|newer: Seq<StoredMessage>, older: Seq<StoredMessage>| #[trigger]
            parted_by_time(
                stored,
                newer,
                history_of(stored, limit, offset),
                older,
                limit,
                offset,
            ),
{
    let all = sorted(stored, newest_first());
    let items = page_of(all, offset, limit);
    let page = history_of(stored, limit, offset);
    let newer = first_items(all, offset);
    let older = after_first(all, offset + limit);
    page_runs_forward(stored, limit, offset);
    sorted_is_sorted(stored, newest_first());
    sorted_keeps_items(stored, newest_first());
    assert(all =~= newer + items + older);
    newer.to_multiset_ensures();
    vstd::seq_lib::lemma_multiset_commutative(newer, items);
    vstd::seq_lib::lemma_multiset_commutative(newer + items, older);
    vstd::seq_lib::lemma_multiset_commutative(newer, page);
    vstd::seq_lib::lemma_multiset_commutative(newer + page, older);
    assert((newer + page + older).to_multiset() == stored.to_multiset());
    page.to_multiset_ensures();
    items.to_multiset_ensures();
    assert forall|j: int| 0 <= j < page.len() implies items.contains(#[trigger] page[j]) by {
        assert(page.contains(page[j]));
        assert(page.to_multiset().count(page[j]) > 0);
    }
    assert forall|i: int, j: int| 0 <= i < newer.len() && 0 <= j < page.len() implies (
    #[trigger] newer[i]).row.timestamp >= (#[trigger] page[j]).row.timestamp by {
        let k = choose|k: int| 0 <= k < items.len() && items[k] == page[j];
        assert(items[k] == all[offset + k]);
        assert(newer[i] == all[i]);
        assert(!newest_first()(all[offset + k], all[i]));
    }
    assert forall|i: int, j: int| 0 <= i < page.len() && 0 <= j < older.len() implies (
    #[trigger] page[i]).row.timestamp >= (#[trigger] older[j]).row.timestamp by {
        let k = choose|k: int| 0 <= k < items.len() && items[k] == page[i];
        assert(items[k] == all[offset + k]);
        assert(older[j] == all[offset + limit + j]);
        assert(!newest_first()(all[offset + limit + j], all[offset + k]));
    }
    assert(parted_by_time(stored, newer, page, older, limit, offset));
}

/// Messages of one time come in the order in which they were read.
pub proof fn messages_of_one_time_keep_their_order(
    stored: Seq<StoredMessage>,
    limit: nat,
    offset: nat,
)
    requires
        forall|i: int, j: int|
            0 <= i < stored.len() && 0 <= j < stored.len() ==> (#[trigger] stored[i]).row.timestamp
                == (#[trigger] stored[j]).row.timestamp,
    ensures
        forall|k: int|
            0 <= k < history_of(stored, limit, offset).len() ==> #[trigger] history_of(
                stored,
                limit,
                offset,
            )[k] == stored[offset + k],
{
    sorted_leaves_sorted(stored, newest_first());
    let items = page_of(stored, offset, limit);
    assert(is_sorted(items, oldest_first())) by {
        assert forall|i: int, j: int| 0 <= i < j < items.len() implies !oldest_first()(
            #[trigger] items[j],
            #[trigger] items[i],
        ) by {
            assert(items[j] == stored[offset + j] && items[i] == stored[offset + i]);
        }
    }
    sorted_leaves_sorted(items, oldest_first());
}

/// A list of messages that never runs forward in time is in the order that pages
/// are taken in.
pub proof fn backward_lists_are_in_order(list: Seq<StoredMessage>)
    ensures
        is_sorted(list, newest_first()) <==> forall|i: int, j: int|
            0 <= i < j < list.len() ==> (#[trigger] list[i]).row.timestamp >= (
            #[trigger] list[j]).row.timestamp,
{
    if is_sorted(list, newest_first()) {
        assert forall|i: int, j: int| 0 <= i < j < list.len() implies (
        #[trigger] list[i]).row.timestamp >= (#[trigger] list[j]).row.timestamp by {
            assert(!newest_first()(list[j], list[i]));
        }
    }
}

/// The messages of a table are those of its rows, in order, each with the chat,
/// the senders of the table and the names of the contacts.
pub proof fn tables_hold_their_messages(
    tables: Seq<TableRows>,
    username: Seq<char>,
    map: Map<Seq<char>, Seq<char>>,
    t: int,
)
    requires
        0 <= t < tables.len(),
    ensures
        stored_lists(tables, username, map).len() == tables.len(),
        stored_lists(tables, username, map)[t].len() == messages_in(
            row_values(tables[t].messages@),
        ).len(),
        forall|i: int|
            0 <= i < messages_in(row_values(tables[t].messages@)).len() ==> {
                let m = #[trigger] stored_lists(tables, username, map)[t][i];
                &&& m.row == messages_in(row_values(tables[t].messages@))[i]
                &&& m.chat.username == username
                &&& m.chat.is_group == has_part(
                    username,
                    seq!['@', 'c', 'h', 'a', 't', 'r', 'o', 'o', 'm'],
                )
                &&& m.chat.ids == ids_in(row_values(tables[t].ids@))
                &&& m.chat.map == map
            },
{
    groups_are_told_by_part(username);
}

/// A message on a page shows the stored one: its time stamp, id, kind, sender and
/// content.
pub proof fn pages_show_what_is_stored(m: Message, s: StoredMessage)
    requires
        shows()(m, s),
    ensures
        m.timestamp == s.row.timestamp,
        m.local_id == s.row.local_id,
        shows_row(m@, s.row, s.chat),
        ({
            let text = stored_text(s.row.content, s.row.ct);
            &&& m.kind@ == kind_name(s.row.local_type as int % 0x1_0000_0000)
            &&& m.content@ == content_text(
                s.row.local_id as int,
                s.row.local_type as int % 0x1_0000_0000,
                text,
                s.chat.is_group,
            )
            &&& m.sender@ == sender_shown(
                sender_of(s.chat.ids, s.row.real_sender_id),
                text,
                s.chat.is_group,
                s.chat.username,
                s.chat.map,
            )
            &&& is_time_text(m.time@, "%Y-%m-%d %H:%M"@, s.row.timestamp as int)
        }),
{
    shown_messages_hold_the_row(m@, s.row, s.chat);
}

/// A history names its chat and says how many messages it holds; they show the
/// page, one by one.
pub proof fn histories_show_their_page(
    h: History,
    username: Seq<char>,
    map: Map<Seq<char>, Seq<char>>,
    stored: Seq<StoredMessage>,
    limit: nat,
    offset: nat,
)
    requires
        is_history(h, username, map, stored, limit, offset),
    ensures
        h.chat@ == shown_name(map, username),
        h.username@ == username,
        h.is_group == has_part(username, seq!['@', 'c', 'h', 'a', 't', 'r', 'o', 'o', 'm']),
        h.count == h.messages@.len(),
        h.messages@.len() == history_of(stored, limit, offset).len(),
        forall|i: int|
            0 <= i < h.messages@.len() ==> shows()(
                #[trigger] h.messages@[i],
                history_of(stored, limit, offset)[i],
            ),
        forall|i: int, j: int|
            0 <= i < j < h.messages@.len() ==> (#[trigger] h.messages@[i]).timestamp <= (
            #[trigger] h.messages@[j]).timestamp,
{
    groups_are_told_by_part(username);
    page_runs_forward(stored, limit, offset);
    let page = history_of(stored, limit, offset);
    assert forall|i: int, j: int| 0 <= i < j < h.messages@.len() implies (
    #[trigger] h.messages@[i]).timestamp <= (#[trigger] h.messages@[j]).timestamp by {
        assert(shows()(h.messages@[i], page[i]) && shows()(h.messages@[j], page[j]));
        assert(page[i].row.timestamp <= page[j].row.timestamp);
    }
}

/// What is said of a failed query holds the name that was asked for.
pub proof fn errors_name_the_chat(name: String)
    ensures
        error_text(QueryError::UnknownContact(name)) == seq![
            '找',
            '不',
            '到',
            '联',
            '系',
            '人',
            ':',
            ' ',
        ] + name@,
        error_text(QueryError::NoMessages(name)) == seq!['找', '不', '到', ' '] + name@ + seq![
            ' ',
            '的',
            '消',
            '息',
            '记',
            '录',
        ],
{
    reveal_strlit("找不到联系人: ");
    reveal_strlit("找不到 ");
    reveal_strlit(" 的消息记录");
    assert("找不到联系人: "@ =~= seq!['找', '不', '到', '联', '系', '人', ':', ' ']);
    assert("找不到 "@ =~= seq!['找', '不', '到', ' ']);
    assert(" 的消息记录"@ =~= seq![' ', '的', '消', '息', '记', '录']);
}

} // verus!
