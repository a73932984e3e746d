//! The statements that the queries run, with the values bound to them.

use vstd::prelude::*;

use crate::tables::is_table_name;
use crate::text::{find, joined, lemma_find, occurs_at, replace, replaced};
use crate::words::{gaps_follow_the_first, with_gaps};

verus! {

/// A value bound to a placeholder.
pub enum SqlParam {
    Integer(i64),
    Text(String),
}

/// The content of a bound value.
pub enum ParamView {
    Integer(i64),
    Text(Seq<char>),
}

impl View for SqlParam {
    type V = ParamView;

    open spec fn view(&self) -> ParamView {
        match self {
            SqlParam::Integer(n) => ParamView::Integer(*n),
            SqlParam::Text(s) => ParamView::Text(s@),
        }
    }
}

/// The content of bound values.
pub open spec fn param_views(params: Seq<SqlParam>) -> Seq<ParamView> {
    params.map_values(|p: SqlParam| p@)
}

/// A statement with its bound values.
pub struct Statement {
    pub sql: String,
    pub params: Vec<SqlParam>,
}

// ---------------------------------------------------------------------------
// Conditions

/// The conditions on the time of a message.
pub open spec fn time_conditions(since: Option<i64>, until: Option<i64>) -> Seq<Seq<char>> {
    (if since is Some {
        seq!["create_time >= ?"@]
    } else {
        Seq::empty()
    }) + (if until is Some {
        seq!["create_time <= ?"@]
    } else {
        Seq::empty()
    })
}

/// The values bound to the conditions on the time of a message.
pub open spec fn time_params(since: Option<i64>, until: Option<i64>) -> Seq<ParamView> {
    (match since {
        Some(s) => seq![ParamView::Integer(s)],
        None => Seq::empty(),
    }) + (match until {
        Some(u) => seq![ParamView::Integer(u)],
        None => Seq::empty(),
    })
}

/// A condition that all of the given ones hold; nothing if there are none.
pub open spec fn where_text(conditions: Seq<Seq<char>>) -> Seq<char> {
    if conditions.len() == 0 {
        Seq::empty()
    } else {
        "WHERE "@ + with_gaps(conditions, " AND "@)
    }
}

/// The characters of each condition.
spec fn str_texts(strings: Seq<&str>) -> Seq<Seq<char>> {
    strings.map_values(|s: &str| s@)
}

fn where_clause(conditions: &Vec<&str>) -> (clause: String)
    ensures
        clause@ == where_text(str_texts(conditions@)),
{
    let ghost all = str_texts(conditions@);
    if conditions.len() == 0 {
        return String::new();
    }
    let mut list = String::new();
    assert(list@ =~= with_gaps(all.take(0), " AND "@));
    for i in 0..conditions.len()
        invariant
            all == str_texts(conditions@),
            list@ == with_gaps(all.take(i as int), " AND "@),
    {
        assert(all.take(i + 1).drop_last() =~= all.take(i as int));
        if i > 0 {
            list.append(" AND ");
        }
        list.append(conditions[i]);
        assert(list@ =~= with_gaps(all.take(i + 1), " AND "@));
    }
    assert(all.take(conditions@.len() as int) =~= all);
    joined("WHERE ", list.as_str())
}

// ---------------------------------------------------------------------------
// Patterns

/// `s` with the characters that `LIKE` reads specially escaped by `\\`.
pub open spec fn like_escaped(s: Seq<char>) -> Seq<char> {
    let s = replaced(s, "\\"@, "\\\\"@);
    let s = replaced(s, "%"@, "\\%"@);
    replaced(s, "_"@, "\\_"@)
}

/// Escapes the characters that `LIKE` reads specially.
pub fn escape_like(s: &str) -> (out: String)
    ensures
        out@ == like_escaped(s@),
{
    proof {
        reveal_strlit("\\");
        reveal_strlit("%");
        reveal_strlit("_");
    }
    let s = replace(s, "\\", "\\\\");
    let s = replace(s.as_str(), "%", "\\%");
    replace(s.as_str(), "_", "\\_")
}

// ---------------------------------------------------------------------------
// Statements

/// The columns that a message is read from.
pub open spec fn select_text() -> Seq<char> {
    "SELECT local_id, local_type, create_time, real_sender_id,"@
        + "\n                message_content, WCDB_CT_message_content"@ + "\n         FROM ["@
}

/// The statement for the messages in a table, in a range of time.
pub open spec fn history_sql(table: Seq<char>, since: Option<i64>, until: Option<i64>) -> Seq<
    char,
> {
    select_text() + table + "] "@ + where_text(time_conditions(since, until))
        + " ORDER BY create_time DESC LIMIT ? OFFSET ?"@
}

/// The values bound to the statement for the messages in a table.
pub open spec fn history_params(
    since: Option<i64>,
    until: Option<i64>,
    limit: usize,
    offset: usize,
) -> Seq<ParamView> {
    time_params(since, until) + seq![
        ParamView::Integer(limit as i64),
        ParamView::Integer(offset as i64),
    ]
}

/// The conditions on a message in a search.
pub open spec fn search_conditions(since: Option<i64>, until: Option<i64>) -> Seq<Seq<char>> {
    seq!["message_content LIKE ? ESCAPE '\\'"@] + time_conditions(since, until)
}

/// The statement for the messages in a table that hold a keyword, in a range of
/// time.
pub open spec fn search_sql(table: Seq<char>, since: Option<i64>, until: Option<i64>) -> Seq<char> {
    select_text() + table + "] "@ + where_text(search_conditions(since, until))
        + " ORDER BY create_time DESC LIMIT ?"@
}

/// The pattern for text that holds a keyword.
pub open spec fn keyword_pattern(keyword: Seq<char>) -> Seq<char> {
    "%"@ + like_escaped(keyword) + "%"@
}

/// The values bound to the statement of a search.
pub open spec fn search_params(
    keyword: Seq<char>,
    since: Option<i64>,
    until: Option<i64>,
    limit: usize,
) -> Seq<ParamView> {
    seq![ParamView::Text(keyword_pattern(keyword))] + time_params(since, until) + seq![
        ParamView::Integer(limit as i64),
    ]
}

/// Adds the conditions on the time of a message, and their values.
fn add_time(
    conditions: &mut Vec<&str>,
    params: &mut Vec<SqlParam>,
    since: Option<i64>,
    until: Option<i64>,
)
    ensures
        str_texts(final(conditions)@) == str_texts(old(conditions)@) + time_conditions(
            since,
            until,
        ),
        param_views(final(params)@) == param_views(old(params)@) + time_params(since, until),
{
    if let Some(s) = since {
        conditions.push("create_time >= ?");
        params.push(SqlParam::Integer(s));
    }
    if let Some(u) = until {
        conditions.push("create_time <= ?");
        params.push(SqlParam::Integer(u));
    }
    assert(str_texts(conditions@) =~= str_texts(old(conditions)@) + time_conditions(since, until));
    assert(param_views(params@) =~= param_views(old(params)@) + time_params(since, until));
}

fn select_from(table: &str, clause: &str, tail: &str) -> (sql: String)
    ensures
        sql@ == select_text() + table@ + "] "@ + clause@ + tail@,
{
    let mut sql = "SELECT local_id, local_type, create_time, real_sender_id,".to_owned();
    sql.append("\n                message_content, WCDB_CT_message_content");
    sql.append("\n         FROM [");
    sql.append(table);
    sql.append("] ");
    sql.append(clause);
    sql.append(tail);
    sql
}

/// The statement for the messages in a table, in a range of time, the latest
/// first.
pub fn history_statement(
    table: &str,
    since: Option<i64>,
    until: Option<i64>,
    limit: usize,
    offset: usize,
) -> (statement: Statement)
    ensures
        statement.sql@ == history_sql(table@, since, until),
        param_views(statement.params@) == history_params(since, until, limit, offset),
{
    let mut conditions: Vec<&str> = Vec::new();
    let mut params: Vec<SqlParam> = Vec::new();
    add_time(&mut conditions, &mut params, since, until);
    assert(str_texts(conditions@) =~= time_conditions(since, until));
    let clause = where_clause(&conditions);
    params.push(SqlParam::Integer(limit as i64));
    params.push(SqlParam::Integer(offset as i64));
    assert(param_views(params@) =~= history_params(since, until, limit, offset));
    Statement {
        sql: select_from(table, clause.as_str(), " ORDER BY create_time DESC LIMIT ? OFFSET ?"),
        params,
    }
}

/// The statement for the messages in a table that hold a keyword, in a range of
/// time, the latest first.
pub fn search_statement(
    table: &str,
    keyword: &str,
    since: Option<i64>,
    until: Option<i64>,
    limit: usize,
) -> (statement: Statement)
    ensures
        statement.sql@ == search_sql(table@, since, until),
        param_views(statement.params@) == search_params(keyword@, since, until, limit),
{
    let mut conditions: Vec<&str> = Vec::new();
    conditions.push("message_content LIKE ? ESCAPE '\\'");
    let mut params: Vec<SqlParam> = Vec::new();
    let escaped = escape_like(keyword);
    let pattern = joined(joined("%", escaped.as_str()).as_str(), "%");
    params.push(SqlParam::Text(pattern));
    assert(param_views(params@) =~= seq![ParamView::Text(keyword_pattern(keyword@))]);
    add_time(&mut conditions, &mut params, since, until);
    assert(str_texts(conditions@) =~= search_conditions(since, until));
    let clause = where_clause(&conditions);
    params.push(SqlParam::Integer(limit as i64));
    assert(param_views(params@) =~= search_params(keyword@, since, until, limit));
    Statement {
        sql: select_from(table, clause.as_str(), " ORDER BY create_time DESC LIMIT ?"),
        params,
    }
}

/// The statement for the latest sessions.
pub open spec fn sessions_sql() -> Seq<char> {
    "SELECT username, unread_count, summary, last_timestamp,\n                    last_msg_type, last_msg_sender, last_sender_display_name\n             FROM SessionTable\n             WHERE last_timestamp > 0\n             ORDER BY last_timestamp DESC LIMIT ?"@
}

/// The statement for the `limit` latest sessions.
pub fn sessions_statement(limit: usize) -> (statement: Statement)
    ensures
        statement.sql@ == sessions_sql(),
        param_views(statement.params@) == seq![ParamView::Integer(limit as i64)],
{
    let mut params: Vec<SqlParam> = Vec::new();
    params.push(SqlParam::Integer(limit as i64));
    assert(param_views(params@) =~= seq![ParamView::Integer(limit as i64)]);
    Statement {
        sql: "SELECT username, unread_count, summary, last_timestamp,\n                    last_msg_type, last_msg_sender, last_sender_display_name\n             FROM SessionTable\n             WHERE last_timestamp > 0\n             ORDER BY last_timestamp DESC LIMIT ?".to_owned(),
        params,
    }
}

/// The statement for the contacts: user name, nickname and remark.
pub fn contacts_sql() -> (sql: String)
    ensures
        sql@ == "SELECT username, nick_name, remark FROM contact"@,
{
    "SELECT username, nick_name, remark FROM contact".to_owned()
}

/// The statement for the senders that a database names.
pub fn senders_sql() -> (sql: String)
    ensures
        sql@ == "SELECT rowid, user_name FROM Name2Id"@,
{
    "SELECT rowid, user_name FROM Name2Id".to_owned()
}

/// The statement for the tables whose names begin like those of message tables.
pub fn table_names_sql() -> (sql: String)
    ensures
        sql@ == "SELECT name FROM sqlite_master WHERE type='table' AND name LIKE 'Msg_%'"@,
{
    "SELECT name FROM sqlite_master WHERE type='table' AND name LIKE 'Msg_%'".to_owned()
}

/// The statement that asks whether there is a table of the given name.
pub fn table_exists_statement(table: &str) -> (statement: Statement)
    ensures
        statement.sql@ == "SELECT 1 FROM sqlite_master WHERE type='table' AND name=?"@,
        param_views(statement.params@) == seq![ParamView::Text(table@)],
{
    let mut params: Vec<SqlParam> = Vec::new();
    params.push(SqlParam::Text(table.to_owned()));
    assert(param_views(params@) =~= seq![ParamView::Text(table@)]);
    Statement {
        sql: "SELECT 1 FROM sqlite_master WHERE type='table' AND name=?".to_owned(),
        params,
    }
}

/// The statement for the time of the latest message in a table.
pub fn latest_sql(table: &str) -> (sql: String)
    ensures
        sql@ == "SELECT MAX(create_time) FROM ["@ + table@ + "]"@,
{
    joined(joined("SELECT MAX(create_time) FROM [", table).as_str(), "]")
}

// ---------------------------------------------------------------------------
// Laws

/// How often a character occurs.
pub open spec fn occurrences(s: Seq<char>, c: char) -> nat
    decreases s.len(),
{
    if s.len() == 0 {
        0
    } else {
        occurrences(s.drop_last(), c) + if s.last() == c {
            1nat
        } else {
            0nat
        }
    }
}

proof fn lemma_occurrences_add(a: Seq<char>, b: Seq<char>, c: char)
    ensures
        occurrences(a + b, c) == occurrences(a, c) + occurrences(b, c),
    decreases b.len(),
{
    if b.len() == 0 {
        assert(a + b =~= a);
    } else {
        assert((a + b).drop_last() =~= a + b.drop_last());
        lemma_occurrences_add(a, b.drop_last(), c);
    }
}

proof fn lemma_occurrences_split(s: Seq<char>, c: char, k: int)
    requires
        0 <= k <= s.len(),
    ensures
        occurrences(s, c) == occurrences(s.take(k), c) + occurrences(s.skip(k), c),
{
    assert(s =~= s.take(k) + s.skip(k));
    lemma_occurrences_add(s.take(k), s.skip(k), c);
}

proof fn lemma_no_occurrence(s: Seq<char>, c: char)
    requires
        forall|i: int| 0 <= i < s.len() ==> #[trigger] s[i] != c,
    ensures
        occurrences(s, c) == 0,
    decreases s.len(),
{
    if s.len() > 0 {
        let rest = s.drop_last();
        assert forall|i: int| 0 <= i < rest.len() implies #[trigger] rest[i] != c by {
            assert(rest[i] == s[i]);
        }
        assert(s.last() == s[s.len() - 1]);
        lemma_no_occurrence(rest, c);
    }
}

proof fn lemma_one_occurrence(s: Seq<char>, c: char, k: int)
    requires
        0 <= k < s.len(),
        s[k] == c,
        forall|i: int| 0 <= i < s.len() && i != k ==> #[trigger] s[i] != c,
    ensures
        occurrences(s, c) == 1,
{
    let head = s.take(k);
    let tail = s.skip(k + 1);
    assert forall|i: int| 0 <= i < head.len() implies #[trigger] head[i] != c by {
        assert(head[i] == s[i]);
    }
    assert forall|i: int| 0 <= i < tail.len() implies #[trigger] tail[i] != c by {
        assert(tail[i] == s[k + 1 + i]);
    }
    lemma_no_occurrence(head, c);
    lemma_no_occurrence(tail, c);
    lemma_occurrences_split(s, c, k + 1);
    assert(s.take(k + 1).drop_last() =~= head);
}

proof fn lemma_select_head_places()
    ensures
        occurrences("SELECT local_id, local_type, create_time, real_sender_id,"@, '?') == 0,
{
    reveal_strlit("SELECT local_id, local_type, create_time, real_sender_id,");
    lemma_no_occurrence("SELECT local_id, local_type, create_time, real_sender_id,"@, '?');
}

proof fn lemma_select_middle_places()
    ensures
        occurrences("\n                message_content, WCDB_CT_message_content"@, '?') == 0,
{
    reveal_strlit("\n                message_content, WCDB_CT_message_content");
    lemma_no_occurrence("\n                message_content, WCDB_CT_message_content"@, '?');
}

proof fn lemma_select_tail_places()
    ensures
        occurrences("\n         FROM ["@, '?') == 0,
{
    reveal_strlit("\n         FROM [");
    lemma_no_occurrence("\n         FROM ["@, '?');
}

proof fn lemma_select_places()
    ensures
        occurrences(select_text(), '?') == 0,
{
    let a = "SELECT local_id, local_type, create_time, real_sender_id,"@;
    let b = "\n                message_content, WCDB_CT_message_content"@;
    let c = "\n         FROM ["@;
    lemma_select_head_places();
    lemma_select_middle_places();
    lemma_select_tail_places();
    lemma_occurrences_add(a, b, '?');
    lemma_occurrences_add(a + b, c, '?');
}

proof fn lemma_joint_places()
    ensures
        occurrences("] "@, '?') == 0,
        occurrences("WHERE "@, '?') == 0,
        occurrences(" AND "@, '?') == 0,
{
    reveal_strlit("] ");
    reveal_strlit("WHERE ");
    reveal_strlit(" AND ");
    lemma_no_occurrence("] "@, '?');
    lemma_no_occurrence("WHERE "@, '?');
    lemma_no_occurrence(" AND "@, '?');
}

proof fn lemma_condition_places()
    ensures
        occurrences("create_time >= ?"@, '?') == 1,
        occurrences("create_time <= ?"@, '?') == 1,
{
    reveal_strlit("create_time >= ?");
    reveal_strlit("create_time <= ?");
    lemma_one_occurrence("create_time >= ?"@, '?', 15);
    lemma_one_occurrence("create_time <= ?"@, '?', 15);
}

proof fn lemma_pattern_places()
    ensures
        occurrences("message_content LIKE ? ESCAPE '\\'"@, '?') == 1,
{
    reveal_strlit("message_content LIKE ? ESCAPE '\\'");
    lemma_one_occurrence("message_content LIKE ? ESCAPE '\\'"@, '?', 21);
}

proof fn lemma_limit_places()
    ensures
        occurrences(" ORDER BY create_time DESC LIMIT ?"@, '?') == 1,
{
    reveal_strlit(" ORDER BY create_time DESC LIMIT ?");
    lemma_one_occurrence(" ORDER BY create_time DESC LIMIT ?"@, '?', 33);
}

proof fn lemma_offset_places()
    ensures
        occurrences(" ORDER BY create_time DESC LIMIT ? OFFSET ?"@, '?') == 2,
{
    let s = " ORDER BY create_time DESC LIMIT ? OFFSET ?"@;
    reveal_strlit(" ORDER BY create_time DESC LIMIT ? OFFSET ?");
    lemma_one_occurrence(s.take(34), '?', 33);
    lemma_one_occurrence(s.skip(34), '?', 8);
    lemma_occurrences_split(s, '?', 34);
}

proof fn lemma_time_places(since: Option<i64>, until: Option<i64>)
    ensures
        forall|i: int|
            0 <= i < time_conditions(since, until).len() ==> occurrences(
                #[trigger] time_conditions(since, until)[i],
                '?',
            ) == 1,
        time_conditions(since, until).len() == time_params(since, until).len(),
{
    lemma_condition_places();
}

proof fn lemma_gap_places(conditions: Seq<Seq<char>>)
    requires
        forall|i: int|
            0 <= i < conditions.len() ==> occurrences(#[trigger] conditions[i], '?') == 1,
    ensures
        occurrences(with_gaps(conditions, " AND "@), '?') == conditions.len(),
    decreases conditions.len(),
{
    if conditions.len() > 1 {
        lemma_joint_places();
        let rest = conditions.drop_last();
        assert forall|i: int| 0 <= i < rest.len() implies occurrences(#[trigger] rest[i], '?')
            == 1 by {
            assert(rest[i] == conditions[i]);
        }
        lemma_gap_places(rest);
        let head = with_gaps(rest, " AND "@);
        lemma_occurrences_add(head, " AND "@, '?');
        lemma_occurrences_add(head + " AND "@, conditions.last(), '?');
    }
}

proof fn lemma_statement_places(table: Seq<char>, conditions: Seq<Seq<char>>, tail: Seq<char>)
    requires
        forall|i: int|
            0 <= i < conditions.len() ==> occurrences(#[trigger] conditions[i], '?') == 1,
    ensures
        occurrences(select_text() + table + "] "@ + where_text(conditions) + tail, '?')
            == occurrences(table, '?') + conditions.len() + occurrences(tail, '?'),
{
    lemma_select_places();
    lemma_joint_places();
    lemma_gap_places(conditions);
    let list = with_gaps(conditions, " AND "@);
    lemma_occurrences_add("WHERE "@, list, '?');
    let a = select_text() + table;
    let b = a + "] "@;
    let c = b + where_text(conditions);
    lemma_occurrences_add(select_text(), table, '?');
    lemma_occurrences_add(a, "] "@, '?');
    lemma_occurrences_add(b, where_text(conditions), '?');
    lemma_occurrences_add(c, tail, '?');
}

/// The name of a message table holds no placeholder.
pub proof fn table_names_hold_no_place(s: Seq<char>)
    requires
        is_table_name(s),
    ensures
        occurrences(s, '?') == 0,
{
    reveal_strlit("Msg_");
    assert forall|i: int| 0 <= i < s.len() implies #[trigger] s[i] != '?' by {
        if i < 4 {
            assert(s.take(4)[i] == s[i]);
        }
    }
    lemma_no_occurrence(s, '?');
}

/// Every placeholder of the statement for a table's messages has its value,
/// and every value its placeholder, if the table's name holds none.
pub proof fn history_places_are_filled(
    table: Seq<char>,
    since: Option<i64>,
    until: Option<i64>,
    limit: usize,
    offset: usize,
)
    requires
        occurrences(table, '?') == 0,
    ensures
        occurrences(history_sql(table, since, until), '?') == history_params(
            since,
            until,
            limit,
            offset,
        ).len(),
{
    lemma_time_places(since, until);
    lemma_offset_places();
    lemma_statement_places(
        table,
        time_conditions(since, until),
        " ORDER BY create_time DESC LIMIT ? OFFSET ?"@,
    );
}

/// Every placeholder of the statement of a search has its value, and every
/// value its placeholder, if the table's name holds none.
pub proof fn search_places_are_filled(
    table: Seq<char>,
    keyword: Seq<char>,
    since: Option<i64>,
    until: Option<i64>,
    limit: usize,
)
    requires
        occurrences(table, '?') == 0,
    ensures
        occurrences(search_sql(table, since, until), '?') == search_params(
            keyword,
            since,
            until,
            limit,
        ).len(),
{
    lemma_time_places(since, until);
    lemma_pattern_places();
    lemma_limit_places();
    let conditions = search_conditions(since, until);
    assert forall|i: int| 0 <= i < conditions.len() implies occurrences(
        #[trigger] conditions[i],
        '?',
    ) == 1 by {
        if i > 0 {
            assert(conditions[i] == time_conditions(since, until)[i - 1]);
        }
    }
    lemma_statement_places(table, conditions, " ORDER BY create_time DESC LIMIT ?"@);
}

/// The text that a pattern stands for if it is read with `\\` as the escape
/// character and holds no wildcard: none if it holds one, or ends in an escape.
pub open spec fn like_literal(pattern: Seq<char>) -> Option<Seq<char>>
    decreases pattern.len(),
{
    if pattern.len() == 0 {
        Some(Seq::empty())
    } else if pattern.first() == '\\' {
        if pattern.len() == 1 {
            None
        } else {
            match like_literal(pattern.skip(2)) {
                Some(rest) => Some(seq![pattern[1]] + rest),
                None => None,
            }
        }
    } else if pattern.first() == '%' || pattern.first() == '_' {
        None
    } else {
        match like_literal(pattern.drop_first()) {
            Some(rest) => Some(seq![pattern.first()] + rest),
            None => None,
        }
    }
}

/// `s` with `new` in place of each character `c`.
spec fn spelled(s: Seq<char>, c: char, new: Seq<char>) -> Seq<char>
    decreases s.len(),
{
    if s.len() == 0 {
        Seq::empty()
    } else {
        (if s.first() == c {
            new
        } else {
            seq![s.first()]
        }) + spelled(s.drop_first(), c, new)
    }
}

proof fn lemma_spelled_add(a: Seq<char>, b: Seq<char>, c: char, new: Seq<char>)
    ensures
        spelled(a + b, c, new) == spelled(a, c, new) + spelled(b, c, new),
    decreases a.len(),
{
    if a.len() == 0 {
        assert(a + b =~= b);
        assert(spelled(a, c, new) + spelled(b, c, new) =~= spelled(b, c, new));
    } else {
        assert((a + b).drop_first() =~= a.drop_first() + b);
        lemma_spelled_add(a.drop_first(), b, c, new);
        assert(spelled(a + b, c, new) =~= spelled(a, c, new) + spelled(b, c, new));
    }
}

proof fn lemma_spelled_without(s: Seq<char>, c: char, new: Seq<char>)
    requires
        forall|i: int| 0 <= i < s.len() ==> #[trigger] s[i] != c,
    ensures
        spelled(s, c, new) == s,
    decreases s.len(),
{
    if s.len() > 0 {
        assert(s.first() == s[0]);
        let rest = s.drop_first();
        assert forall|i: int| 0 <= i < rest.len() implies #[trigger] rest[i] != c by {
            assert(rest[i] == s[i + 1]);
        }
        lemma_spelled_without(rest, c, new);
        assert(seq![s.first()] + rest =~= s);
    }
}

proof fn lemma_replaced_char(s: Seq<char>, c: char, new: Seq<char>)
    ensures
        replaced(s, seq![c], new) == spelled(s, c, new),
    decreases s.len(),
{
    let part = seq![c];
    lemma_find(s, part);
    match find(s, part) {
        Some(i) => {
            let head = s.take(i);
            let tail = s.skip(i + 1);
            assert(s.subrange(i, i + 1)[0] == s[i]);
            assert(s[i] == c);
            assert forall|j: int| 0 <= j < head.len() implies #[trigger] head[j] != c by {
                assert(!occurs_at(s, part, j));
                if s[j] == c {
                    assert(s.subrange(j, j + 1) =~= part);
                }
            }
            lemma_spelled_without(head, c, new);
            lemma_replaced_char(tail, c, new);
            assert(s =~= head + (part + tail));
            assert((part + tail).drop_first() =~= tail);
            lemma_spelled_add(head, part + tail, c, new);
            assert(replaced(s, part, new) =~= spelled(s, c, new));
        },
        None => {
            assert forall|j: int| 0 <= j < s.len() implies #[trigger] s[j] != c by {
                assert(!occurs_at(s, part, j));
                if s[j] == c {
                    assert(s.subrange(j, j + 1) =~= part);
                }
            }
            lemma_spelled_without(s, c, new);
        },
    }
}

/// A character as it stands in an escaped pattern.
pub open spec fn escaped_char(c: char) -> Seq<char> {
    if c == '\\' || c == '%' || c == '_' {
        seq!['\\', c]
    } else {
        seq![c]
    }
}

proof fn lemma_spelled_one(x: char, c: char, new: Seq<char>)
    ensures
        spelled(seq![x], c, new) == (if x == c {
            new
        } else {
            seq![x]
        }),
{
    let rest = seq![x].drop_first();
    assert(rest.len() == 0);
    assert(spelled(rest, c, new) =~= Seq::empty());
    assert(spelled(seq![x], c, new) =~= if x == c {
        new
    } else {
        seq![x]
    });
}

proof fn lemma_spelled_two(x: char, y: char, c: char, new: Seq<char>)
    ensures
        spelled(seq![x, y], c, new) == spelled(seq![x], c, new) + spelled(seq![y], c, new),
{
    assert(seq![x, y] =~= seq![x] + seq![y]);
    lemma_spelled_add(seq![x], seq![y], c, new);
}

/// A pattern as the three replacements make it.
spec fn spelled_out(s: Seq<char>) -> Seq<char> {
    spelled(
        spelled(spelled(s, '\\', seq!['\\', '\\']), '%', seq!['\\', '%']),
        '_',
        seq!['\\', '_'],
    )
}

proof fn lemma_spelled_out(s: Seq<char>)
    ensures
        like_escaped(s) == spelled_out(s),
{
    reveal_strlit("\\");
    reveal_strlit("\\\\");
    reveal_strlit("%");
    reveal_strlit("\\%");
    reveal_strlit("_");
    reveal_strlit("\\_");
    let bb = seq!['\\', '\\'];
    let bp = seq!['\\', '%'];
    let bu = seq!['\\', '_'];
    assert("\\"@ =~= seq!['\\']);
    assert("\\\\"@ =~= bb);
    assert("%"@ =~= seq!['%']);
    assert("\\%"@ =~= bp);
    assert("_"@ =~= seq!['_']);
    assert("\\_"@ =~= bu);
    let s1 = spelled(s, '\\', bb);
    let s2 = spelled(s1, '%', bp);
    lemma_replaced_char(s, '\\', bb);
    lemma_replaced_char(s1, '%', bp);
    lemma_replaced_char(s2, '_', bu);
}

proof fn lemma_spelled_out_add(a: Seq<char>, b: Seq<char>)
    ensures
        spelled_out(a + b) == spelled_out(a) + spelled_out(b),
{
    let bb = seq!['\\', '\\'];
    let bp = seq!['\\', '%'];
    let bu = seq!['\\', '_'];
    let a1 = spelled(a, '\\', bb);
    let b1 = spelled(b, '\\', bb);
    lemma_spelled_add(a, b, '\\', bb);
    lemma_spelled_add(a1, b1, '%', bp);
    lemma_spelled_add(spelled(a1, '%', bp), spelled(b1, '%', bp), '_', bu);
}

proof fn lemma_spelled_out_char(c: char)
    ensures
        spelled_out(seq![c]) == escaped_char(c),
{
    let bb = seq!['\\', '\\'];
    let bp = seq!['\\', '%'];
    let bu = seq!['\\', '_'];
    lemma_spelled_one(c, '\\', bb);
    lemma_spelled_one(c, '%', bp);
    lemma_spelled_one(c, '_', bu);
    lemma_spelled_one('\\', '%', bp);
    lemma_spelled_one('\\', '_', bu);
    lemma_spelled_one('%', '_', bu);
    lemma_spelled_two('\\', '\\', '%', bp);
    lemma_spelled_two('\\', '\\', '_', bu);
    lemma_spelled_two('\\', '%', '_', bu);
    assert(seq!['\\'] + seq!['\\'] =~= bb);
    assert(seq!['\\'] + seq!['%'] =~= bp);
}

/// Escaping goes character by character: the escape character and the two
/// wildcards get an escape character before them, and nothing else changes.
pub proof fn escaping_goes_by_character(s: Seq<char>)
    ensures
        like_escaped(s) == (if s.len() == 0 {
            Seq::empty()
        } else {
            escaped_char(s.first()) + like_escaped(s.drop_first())
        }),
{
    lemma_spelled_out(s);
    if s.len() == 0 {
        assert(spelled_out(s) =~= Seq::empty());
    } else {
        let rest = s.drop_first();
        lemma_spelled_out(rest);
        assert(s =~= seq![s.first()] + rest);
        lemma_spelled_out_add(seq![s.first()], rest);
        lemma_spelled_out_char(s.first());
    }
}

/// An escaped keyword stands for the keyword itself: it holds no wildcard, and
/// reading its escapes gives the keyword back.
pub proof fn escaped_keyword_is_literal(keyword: Seq<char>)
    ensures
        like_literal(like_escaped(keyword)) == Some(keyword),
    decreases keyword.len(),
{
    escaping_goes_by_character(keyword);
    if keyword.len() == 0 {
        assert(like_escaped(keyword) =~= Seq::empty());
        assert(keyword =~= Seq::empty());
    } else {
        let c = keyword.first();
        let rest = like_escaped(keyword.drop_first());
        escaped_keyword_is_literal(keyword.drop_first());
        let p = escaped_char(c) + rest;
        assert(seq![c] + keyword.drop_first() =~= keyword);
        if c == '\\' || c == '%' || c == '_' {
            assert(p.skip(2) =~= rest);
            assert(p[1] == c);
        } else {
            assert(p.drop_first() =~= rest);
        }
    }
}

// ---------------------------------------------------------------------------
// What the statements ask for

/// A message of time `t` passes a condition on its time with a value bound to it.
pub open spec fn time_passes(condition: Seq<char>, value: ParamView, t: int) -> bool {
    match value {
        ParamView::Integer(v) => {
            ||| condition == "create_time >= ?"@ && t >= v
            ||| condition == "create_time <= ?"@ && t <= v
        },
        ParamView::Text(_) => false,
    }
}

/// A message passes the conditions on its time exactly if it is not before the
/// lower bound, if there is one, and not after the upper one, if there is one.
pub proof fn time_conditions_bound_the_time(since: Option<i64>, until: Option<i64>, t: int)
    ensures
        time_conditions(since, until).len() == time_params(since, until).len(),
        (forall|i: int|
            0 <= i < time_conditions(since, until).len() ==> time_passes(
                #[trigger] time_conditions(since, until)[i],
                time_params(since, until)[i],
                t,
            )) <==> {
            &&& since matches Some(s) ==> s <= t
            &&& until matches Some(u) ==> t <= u
        },
{
    reveal_strlit("create_time >= ?");
    reveal_strlit("create_time <= ?");
    let conditions = time_conditions(since, until);
    let params = time_params(since, until);
    assert("create_time >= ?"@[12] == '>' && "create_time <= ?"@[12] == '<');
    if let Some(s) = since {
        assert(conditions[0] == "create_time >= ?"@);
        assert(time_passes(conditions[0], params[0], t) <==> s <= t);
        if let Some(u) = until {
            assert(conditions[1] == "create_time <= ?"@);
            assert(time_passes(conditions[1], params[1], t) <==> t <= u);
        }
    } else if let Some(u) = until {
        assert(conditions[0] == "create_time <= ?"@);
        assert(time_passes(conditions[0], params[0], t) <==> t <= u);
    }
}

/// A narrower range of time never lets more messages pass.
pub proof fn narrower_ranges_pass_less(
    since: Option<i64>,
    until: Option<i64>,
    later: i64,
    earlier: i64,
    t: int,
)
    requires
        since matches Some(s) ==> s <= later,
        until matches Some(u) ==> earlier <= u,
        forall|i: int|
            0 <= i < time_conditions(Some(later), Some(earlier)).len() ==> time_passes(
                #[trigger] time_conditions(Some(later), Some(earlier))[i],
                time_params(Some(later), Some(earlier))[i],
                t,
            ),
    ensures
        forall|i: int|
            0 <= i < time_conditions(since, until).len() ==> time_passes(
                #[trigger] time_conditions(since, until)[i],
                time_params(since, until)[i],
                t,
            ),
{
    time_conditions_bound_the_time(Some(later), Some(earlier), t);
    time_conditions_bound_the_time(since, until, t);
}

/// The conditions on the time, as they stand in a statement after a word.
pub open spec fn time_clause(lead: Seq<char>, since: bool, until: bool) -> Seq<char> {
    if since && until {
        lead + "create_time >= ?"@ + " AND "@ + "create_time <= ?"@
    } else if since {
        lead + "create_time >= ?"@
    } else if until {
        lead + "create_time <= ?"@
    } else {
        Seq::empty()
    }
}

/// The statement for a page asks the table for the columns of a message, for the
/// rows in the range of time, the latest first, so many and no more.
pub proof fn history_statements_ask_for_the_latest(
    table: Seq<char>,
    since: Option<i64>,
    until: Option<i64>,
    limit: usize,
    offset: usize,
)
    ensures
        history_sql(table, since, until)
            == "SELECT local_id, local_type, create_time, real_sender_id,"@
            + "\n                message_content, WCDB_CT_message_content"@ + "\n         FROM ["@
            + table + "] "@ + time_clause("WHERE "@, since is Some, until is Some)
            + " ORDER BY create_time DESC LIMIT ? OFFSET ?"@,
        ({
            let params = history_params(since, until, limit, offset);
            let n = time_params(since, until).len() as int;
            &&& params.len() == n + 2
            &&& params.take(n) == time_params(since, until)
            &&& params[n] == ParamView::Integer(limit as i64)
            &&& params[n + 1] == ParamView::Integer(offset as i64)
        }),
{
    lemma_time_clause(since, until);
    let params = history_params(since, until, limit, offset);
    assert(params.take(time_params(since, until).len() as int) =~= time_params(since, until));
}

proof fn lemma_time_clause(since: Option<i64>, until: Option<i64>)
    ensures
        where_text(time_conditions(since, until)) == time_clause(
            "WHERE "@,
            since is Some,
            until is Some,
        ),
{
    let conditions = time_conditions(since, until);
    if since is Some && until is Some {
        let a = "create_time >= ?"@;
        let b = "create_time <= ?"@;
        assert(conditions =~= seq![a, b]);
        assert(conditions.drop_last() =~= seq![a]);
        assert(with_gaps(seq![a], " AND "@) == a);
        assert(with_gaps(conditions, " AND "@) == a + " AND "@ + b);
        assert("WHERE "@ + (a + " AND "@ + b) =~= "WHERE "@ + a + " AND "@ + b);
    }
}

/// The statement of a search asks for the rows whose content is like the
/// pattern, in the range of time, the latest first, so many and no more.
pub proof fn search_statements_ask_for_the_keyword(
    table: Seq<char>,
    keyword: Seq<char>,
    since: Option<i64>,
    until: Option<i64>,
    limit: usize,
)
    ensures
        search_sql(table, since, until)
            == "SELECT local_id, local_type, create_time, real_sender_id,"@
            + "\n                message_content, WCDB_CT_message_content"@ + "\n         FROM ["@
            + table + "] "@ + "WHERE "@ + "message_content LIKE ? ESCAPE '\\'"@ + time_clause(
            " AND "@,
            since is Some,
            until is Some,
        ) + " ORDER BY create_time DESC LIMIT ?"@,
        ({
            let params = search_params(keyword, since, until, limit);
            let n = time_params(since, until).len() as int;
            &&& params.len() == n + 2
            &&& params[0] matches ParamView::Text(pattern) && {
                &&& pattern.len() >= 2
                &&& pattern[0] == '%'
                &&& pattern.last() == '%'
                &&& like_literal(pattern.subrange(1, pattern.len() - 1)) == Some(keyword)
            }
            &&& params.subrange(1, n + 1) == time_params(since, until)
            &&& params[n + 1] == ParamView::Integer(limit as i64)
        }),
{
    let like = "message_content LIKE ? ESCAPE '\\'"@;
    let times = time_conditions(since, until);
    let conditions = search_conditions(since, until);
    assert(conditions =~= seq![like] + times);
    let head = select_text() + table + "] "@;
    let tail = " ORDER BY create_time DESC LIMIT ?"@;
    if times.len() > 0 {
        gaps_follow_the_first(like, times, " AND "@);
        lemma_time_clause(since, until);
        let list = with_gaps(times, " AND "@);
        assert(where_text(times) == "WHERE "@ + list);
        lemma_clause_list(since, until);
        assert(head + where_text(conditions) + tail =~= head + "WHERE "@ + like + time_clause(
            " AND "@,
            since is Some,
            until is Some,
        ) + tail);
    } else {
        assert(conditions =~= seq![like]);
        assert(head + where_text(conditions) + tail =~= head + "WHERE "@ + like + time_clause(
            " AND "@,
            since is Some,
            until is Some,
        ) + tail);
    }
    reveal_strlit("%");
    let pattern = keyword_pattern(keyword);
    assert(pattern.subrange(1, pattern.len() - 1) =~= like_escaped(keyword));
    escaped_keyword_is_literal(keyword);
    let params = search_params(keyword, since, until, limit);
    let n = time_params(since, until).len() as int;
    assert(params.subrange(1, n + 1) =~= time_params(since, until));
}

proof fn lemma_clause_list(since: Option<i64>, until: Option<i64>)
    ensures
        time_conditions(since, until).len() > 0 ==> " AND "@ + with_gaps(
            time_conditions(since, until),
            " AND "@,
        ) == time_clause(" AND "@, since is Some, until is Some),
{
    let conditions = time_conditions(since, until);
    if since is Some && until is Some {
        let a = "create_time >= ?"@;
        let b = "create_time <= ?"@;
        assert(conditions =~= seq![a, b]);
        assert(conditions.drop_last() =~= seq![a]);
        assert(with_gaps(seq![a], " AND "@) == a);
        assert(with_gaps(conditions, " AND "@) == a + " AND "@ + b);
        assert(" AND "@ + (a + " AND "@ + b) =~= " AND "@ + a + " AND "@ + b);
    }
}

/// The statement for the sessions asks for the columns in the order in which a
/// session is read from them, for those with a time, the latest first.
pub proof fn sessions_statement_asks_for_the_latest()
    ensures
        occurs_at(sessions_sql(), "SELECT "@, 0),
        occurs_at(sessions_sql(), "username, "@, 7),
        occurs_at(sessions_sql(), "unread_count, "@, 17),
        occurs_at(sessions_sql(), "summary, "@, 31),
        occurs_at(sessions_sql(), "last_timestamp,"@, 40),
        occurs_at(sessions_sql(), "last_msg_type, "@, 76),
        occurs_at(sessions_sql(), "last_msg_sender, "@, 91),
        occurs_at(sessions_sql(), "last_sender_display_name\n"@, 108),
        occurs_at(sessions_sql(), "FROM SessionTable\n"@, 146),
        occurs_at(sessions_sql(), "WHERE last_timestamp > 0\n"@, 177),
        occurs_at(sessions_sql(), "ORDER BY last_timestamp DESC LIMIT ?"@, 215),
{
    let sql = sessions_sql();
    reveal_strlit("SELECT username, unread_count, summary, last_timestamp,\n                    last_msg_type, last_msg_sender, last_sender_display_name\n             FROM SessionTable\n             WHERE last_timestamp > 0\n             ORDER BY last_timestamp DESC LIMIT ?");
    reveal_strlit("SELECT ");
    reveal_strlit("username, ");
    reveal_strlit("unread_count, ");
    reveal_strlit("summary, ");
    reveal_strlit("last_timestamp,");
    reveal_strlit("last_msg_type, ");
    reveal_strlit("last_msg_sender, ");
    reveal_strlit("last_sender_display_name\n");
    reveal_strlit("FROM SessionTable\n");
    reveal_strlit("WHERE last_timestamp > 0\n");
    reveal_strlit("ORDER BY last_timestamp DESC LIMIT ?");
    assert(sql.subrange(0, 7) =~= "SELECT "@);
    assert(sql.subrange(7, 17) =~= "username, "@);
    assert(sql.subrange(17, 31) =~= "unread_count, "@);
    assert(sql.subrange(31, 40) =~= "summary, "@);
    assert(sql.subrange(40, 55) =~= "last_timestamp,"@);
    assert(sql.subrange(76, 91) =~= "last_msg_type, "@);
    assert(sql.subrange(91, 108) =~= "last_msg_sender, "@);
    assert(sql.subrange(108, 133) =~= "last_sender_display_name\n"@);
    assert(sql.subrange(146, 164) =~= "FROM SessionTable\n"@);
    assert(sql.subrange(177, 202) =~= "WHERE last_timestamp > 0\n"@);
    assert(sql.subrange(215, 251) =~= "ORDER BY last_timestamp DESC LIMIT ?"@);
}

/// The content of bound values is what they hold.
pub proof fn param_views_hold_the_values(params: Seq<SqlParam>, n: i64, t: String)
    ensures
        SqlParam::Integer(n)@ == ParamView::Integer(n),
        SqlParam::Text(t)@ == ParamView::Text(t@),
        param_views(params).len() == params.len(),
        forall|i: int| 0 <= i < params.len() ==> #[trigger] param_views(params)[i] == params[i]@,
{
}

} // verus!
