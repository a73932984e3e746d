//! The latest sessions.

use vstd::prelude::*;
use vstd::utf8::encode_utf8;

use crate::clock::{fmt_time, is_time_text};
use crate::codec::{decompress_or_str, stored_summary, undecodable_text_is_kept, zstd_decoded};
use crate::content::{
    base_type, fmt_type, group_message_reads_back, kind_name, sender_mark, strip_group_prefix,
    without_sender,
};
use crate::names::{shown_name, Names};
use crate::rows::{
    content_at, int_or_zero, row_values, session_in, session_row, sessions_are_read_by_column,
    text_at, text_or_empty, RowError, SessionRow, SessionRowView, SqlValue,
};
use crate::text::{contains, cut_at_the_first_mark, has_part, lemma_find};

verus! {

/// A session as shown.
pub struct Session {
    pub chat: String,
    pub username: String,
    pub is_group: bool,
    pub unread: i64,
    pub last_msg_type: String,
    pub last_sender: String,
    pub summary: String,
    pub timestamp: i64,
    pub time: String,
}

/// The content of a session.
pub struct SessionView {
    pub chat: Seq<char>,
    pub username: Seq<char>,
    pub is_group: bool,
    pub unread: i64,
    pub last_msg_type: Seq<char>,
    pub last_sender: Seq<char>,
    pub summary: Seq<char>,
    pub timestamp: i64,
    pub time: Seq<char>,
}

impl View for Session {
    type V = SessionView;

    open spec fn view(&self) -> SessionView {
        SessionView {
            chat: self.chat@,
            username: self.username@,
            is_group: self.is_group,
            unread: self.unread,
            last_msg_type: self.last_msg_type@,
            last_sender: self.last_sender@,
            summary: self.summary@,
            timestamp: self.timestamp,
            time: self.time@,
        }
    }
}

/// A user name is that of a group.
pub open spec fn is_group_name(username: Seq<char>) -> bool {
    has_part(username, "@chatroom"@)
}

/// Whether a user name is that of a group.
pub fn is_group(username: &str) -> (yes: bool)
    ensures
        yes == is_group_name(username@),
{
    contains(username, "@chatroom")
}

/// How the sender of the last message is shown: in groups only, by the name of
/// the contact, or the name stored with the session, or the user name.
pub open spec fn last_sender_shown(row: SessionRowView, map: Map<Seq<char>, Seq<char>>) -> Seq<
    char,
> {
    if is_group_name(row.username) && row.sender.len() > 0 {
        if map.contains_key(row.sender) {
            map[row.sender]
        } else if row.sender_name.len() > 0 {
            row.sender_name
        } else {
            row.sender
        }
    } else {
        Seq::empty()
    }
}

/// A session made from a row, the text of its summary, and its time as shown.
pub open spec fn session_of(
    row: SessionRowView,
    summary: Seq<char>,
    time: Seq<char>,
    map: Map<Seq<char>, Seq<char>>,
) -> SessionView {
    SessionView {
        chat: shown_name(map, row.username),
        username: row.username,
        is_group: is_group_name(row.username),
        unread: row.unread,
        last_msg_type: kind_name(base_type(row.msg_type)),
        last_sender: last_sender_shown(row, map),
        summary: without_sender(summary),
        timestamp: row.timestamp,
        time,
    }
}

/// Makes a session from a row, the text of its summary, and its time as shown.
pub fn session_from_row(row: SessionRow, summary: &str, time: String, names: &Names) -> (s: Session)
    ensures
        s@ == session_of(row@, summary@, time@, names.map@),
{
    let group = is_group(row.username.as_str());
    let last_sender = if group && !row.sender.as_str().is_empty() {
        match names.map.get(row.sender.as_str()) {
            Some(name) => name.clone(),
            None => if !row.sender_name.as_str().is_empty() {
                row.sender_name
            } else {
                row.sender
            },
        }
    } else {
        String::new()
    };
    Session {
        chat: names.display(row.username.as_str()),
        is_group: group,
        unread: row.unread,
        last_msg_type: fmt_type(row.msg_type),
        last_sender,
        summary: strip_group_prefix(summary),
        timestamp: row.timestamp,
        time,
        username: row.username,
    }
}

/// The row holds a session, and `s` is what it is shown as.
pub open spec fn shows_session(
    s: SessionView,
    row: Seq<SqlValue>,
    map: Map<Seq<char>, Seq<char>>,
) -> bool {
    match session_in(row) {
        Some(stored) => {
            &&& s == session_of(stored, stored_summary(stored.summary), s.time, map)
            &&& is_time_text(s.time, "%m-%d %H:%M"@, stored.timestamp as int)
        },
        None => false,
    }
}

/// Position `i` is that of the first row that holds no session.
pub open spec fn first_bad_session(rows: Seq<Seq<SqlValue>>, i: int) -> bool {
    &&& 0 <= i < rows.len()
    &&& session_in(rows[i]) is None
    &&& forall|j: int| 0 <= j < i ==> session_in(#[trigger] rows[j]) is Some
}

/// The sessions in rows of the session table, as shown and in order. A row
/// without a user name is an error.
pub fn q_sessions(names: &Names, rows: &Vec<Vec<SqlValue>>) -> (sessions: Result<
    Vec<Session>,
    RowError,
>)
    ensures
        match sessions {
            Ok(list) => {
                &&& list@.len() == rows@.len()
                &&& forall|i: int|
                    0 <= i < list@.len() ==> shows_session(
                        (#[trigger] list@[i])@,
                        row_values(rows@)[i],
                        names.map@,
                    )
            },
            Err(e) => first_bad_session(row_values(rows@), e.row as int) && e.column == 0,
        },
{
    let ghost all = row_values(rows@);
    let mut list: Vec<Session> = Vec::new();
    for i in 0..rows.len()
        invariant
            all == row_values(rows@),
            list@.len() == i,
            forall|j: int|
                0 <= j < i ==> shows_session((#[trigger] list@[j])@, all[j], names.map@),
    {
        assert(all[i as int] == rows@[i as int]@);
        match session_row(rows[i].as_slice()) {
            Some(row) => {
                let summary = decompress_or_str(row.summary.as_slice());
                let time = fmt_time(row.timestamp, "%m-%d %H:%M");
                list.push(session_from_row(row, summary.as_str(), time, names));
            },
            None => {
                proof {
                    assert forall|j: int| 0 <= j < i implies session_in(
                        #[trigger] all[j],
                    ) is Some by {
                        assert(shows_session(list@[j]@, all[j], names.map@));
                    }
                }
                return Err(RowError { row: i, column: 0 });
            },
        }
    }
    Ok(list)
}

// ---------------------------------------------------------------------------
// Laws

/// User names that hold `@chatroom` are those of groups, and no others are.
pub proof fn groups_are_told_by_part(username: Seq<char>)
    ensures
        is_group_name(username) <==> has_part(
            username,
            seq!['@', 'c', 'h', 'a', 't', 'r', 'o', 'o', 'm'],
        ),
{
    reveal_strlit("@chatroom");
    assert("@chatroom"@ =~= seq!['@', 'c', 'h', 'a', 't', 'r', 'o', 'o', 'm']);
}

/// A session is shown with the user name, the unread count and the time stamp of
/// its row, the name of the chat, whether it is a group's, and the name of the
/// kind of its last message; its time is shown without the year.
pub proof fn shown_sessions_hold_the_row(
    s: SessionView,
    row: Seq<SqlValue>,
    map: Map<Seq<char>, Seq<char>>,
)
    requires
        shows_session(s, row, map),
    ensures
        text_at(row, 0) == Some(s.username),
        s.chat == shown_name(map, s.username),
        s.is_group == has_part(s.username, seq!['@', 'c', 'h', 'a', 't', 'r', 'o', 'o', 'm']),
        s.unread == int_or_zero(row, 1),
        s.timestamp == int_or_zero(row, 3),
        s.last_msg_type == kind_name(int_or_zero(row, 4) as int % 0x1_0000_0000),
        is_time_text(s.time, "%m-%d %H:%M"@, int_or_zero(row, 3) as int),
{
    sessions_are_read_by_column(row);
    groups_are_told_by_part(s.username);
}

/// A summary without the mark is shown as it was stored, and one with the mark
/// without what stands before its first mark; in groups and in chats of two.
pub proof fn summaries_are_shown_without_sender(
    s: SessionView,
    row: Seq<SqlValue>,
    map: Map<Seq<char>, Seq<char>>,
    sender: Seq<char>,
    text: Seq<char>,
)
    requires
        shows_session(s, row, map),
        !has_part(sender, seq![':', '\n']),
    ensures
        stored_summary(content_at(row, 2)) == text && !has_part(text, seq![':', '\n']) ==> s.summary
            == text,
        stored_summary(content_at(row, 2)) == sender + seq![':', '\n'] + text ==> s.summary == text,
{
    sessions_are_read_by_column(row);
    reveal_strlit(":\n");
    assert(sender_mark() =~= seq![':', '\n']);
    group_message_reads_back(sender, text);
    cut_at_the_first_mark(text, sender_mark());
    lemma_find(text, sender_mark());
}

/// A summary that was stored as text, and that decompression makes nothing of, is
/// shown unchanged if it does not hold the mark.
pub proof fn plain_summaries_read_back(
    s: SessionView,
    row: Seq<SqlValue>,
    map: Map<Seq<char>, Seq<char>>,
    text: Seq<char>,
)
    requires
        shows_session(s, row, map),
        content_at(row, 2) == encode_utf8(text),
        !has_part(text, seq![':', '\n']),
    ensures
        zstd_decoded(encode_utf8(text)) is None ==> s.summary == text,
{
    if zstd_decoded(encode_utf8(text)) is None {
        undecodable_text_is_kept(text, 0);
        assert(!has_part(Seq::<char>::empty(), seq![':', '\n']));
        summaries_are_shown_without_sender(s, row, map, Seq::empty(), text);
    }
}

/// The last sender is shown in groups only: by the name entered for it, or else
/// by the name stored with the session, or else by the user name.
pub proof fn last_senders_are_shown_in_groups(
    s: SessionView,
    row: Seq<SqlValue>,
    map: Map<Seq<char>, Seq<char>>,
)
    requires
        shows_session(s, row, map),
    ensures
        ({
            let sender = text_or_empty(row, 5);
            let stored = text_or_empty(row, 6);
            &&& !s.is_group || sender.len() == 0 ==> s.last_sender.len() == 0
            &&& s.is_group && sender.len() > 0 && map.contains_key(sender) ==> s.last_sender
                == map[sender]
            &&& s.is_group && sender.len() > 0 && !map.contains_key(sender) && stored.len() > 0
                ==> s.last_sender == stored
            &&& s.is_group && sender.len() > 0 && !map.contains_key(sender) && stored.len() == 0
                ==> s.last_sender == sender
        }),
{
    sessions_are_read_by_column(row);
}

/// Every row with a user name is shown as some session, and one without is
/// reported, the first of them.
pub proof fn rows_without_user_name_are_bad(
    rows: Seq<Seq<SqlValue>>,
    i: int,
    s: SessionView,
    map: Map<Seq<char>, Seq<char>>,
)
    ensures
        first_bad_session(rows, i) <==> {
            &&& 0 <= i < rows.len()
            &&& text_at(rows[i], 0) is None
            &&& forall|j: int| 0 <= j < i ==> text_at(#[trigger] rows[j], 0) is Some
        },
        0 <= i < rows.len() && shows_session(s, rows[i], map) ==> text_at(rows[i], 0) is Some,
{
    if 0 <= i < rows.len() {
        sessions_are_read_by_column(rows[i]);
        assert forall|j: int| 0 <= j < i implies (session_in(#[trigger] rows[j]) is Some <==> text_at(
            rows[j],
            0,
        ) is Some) by {
            sessions_are_read_by_column(rows[j]);
        }
    }
}

/// A session made from a row keeps the time text that it is given, and what the
/// summary says.
pub proof fn given_session_texts_are_kept(
    row: SessionRowView,
    summary: Seq<char>,
    time: Seq<char>,
    map: Map<Seq<char>, Seq<char>>,
)
    ensures
        session_of(row, summary, time, map).time == time,
        !has_part(summary, seq![':', '\n']) ==> session_of(row, summary, time, map).summary
            == summary,
        session_of(row, summary, time, map).chat == shown_name(map, row.username),
        session_of(row, summary, time, map).username == row.username,
        session_of(row, summary, time, map).unread == row.unread,
        session_of(row, summary, time, map).timestamp == row.timestamp,
{
    reveal_strlit(":\n");
    assert(sender_mark() =~= seq![':', '\n']);
    cut_at_the_first_mark(summary, sender_mark());
    lemma_find(summary, sender_mark());
}

/// The content of a session is what its fields hold.
pub proof fn session_views_hold_the_fields(s: Session)
    ensures
        s@.chat == s.chat@ && s@.username == s.username@ && s@.is_group == s.is_group,
        s@.unread == s.unread && s@.last_msg_type == s.last_msg_type@,
        s@.last_sender == s.last_sender@ && s@.summary == s.summary@,
        s@.timestamp == s.timestamp && s@.time == s.time@,
{
}

} // verus!
