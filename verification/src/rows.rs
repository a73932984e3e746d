//! Rows as a database hands them out, and what the queries read from them.

use std::collections::HashMap;

use vstd::prelude::*;
use vstd::slice::slice_to_vec;
use vstd::utf8::{
    decode_utf8, decode_utf8_encode_utf8, encode_utf8, encode_utf8_decode_utf8,
    encode_utf8_valid_utf8, valid_utf8,
};

use crate::codec::utf8_text;

verus! {

/// A value in a column. Text is held as the bytes that were stored.
pub enum SqlValue {
    Null,
    Integer(i64),
    Real,
    Text(Vec<u8>),
    Blob(Vec<u8>),
}

/// A row that lacks a value that a query cannot do without.
#[derive(Clone, Copy, Debug, PartialEq, Eq, Structural)]
pub struct RowError {
    /// The position of the row.
    pub row: usize,
    /// The position of the column.
    pub column: usize,
}

// ---------------------------------------------------------------------------
// Columns

/// The integer in a column.
pub open spec fn int_at(row: Seq<SqlValue>, i: int) -> Option<i64> {
    if 0 <= i < row.len() {
        match row[i] {
            SqlValue::Integer(n) => Some(n),
            _ => None,
        }
    } else {
        None
    }
}

/// The text in a column.
pub open spec fn text_at(row: Seq<SqlValue>, i: int) -> Option<Seq<char>> {
    if 0 <= i < row.len() {
        match row[i] {
            SqlValue::Text(b) => if valid_utf8(b@) {
                Some(decode_utf8(b@))
            } else {
                None
            },
            _ => None,
        }
    } else {
        None
    }
}

/// The bytes in a column that holds text or a blob. Text that is not UTF-8,
/// and any other value, gives none.
pub open spec fn content_at(row: Seq<SqlValue>, i: int) -> Seq<u8> {
    if 0 <= i < row.len() {
        match row[i] {
            SqlValue::Blob(b) => b@,
            SqlValue::Text(b) => if valid_utf8(b@) {
                b@
            } else {
                Seq::empty()
            },
            _ => Seq::empty(),
        }
    } else {
        Seq::empty()
    }
}

/// The integer in a column, or zero.
pub open spec fn int_or_zero(row: Seq<SqlValue>, i: int) -> i64 {
    match int_at(row, i) {
        Some(n) => n,
        None => 0,
    }
}

/// The text in a column, or none.
pub open spec fn text_or_empty(row: Seq<SqlValue>, i: int) -> Seq<char> {
    match text_at(row, i) {
        Some(t) => t,
        None => Seq::empty(),
    }
}

/// The integer in a column.
pub fn get_integer(row: &[SqlValue], i: usize) -> (n: Option<i64>)
    ensures
        n == int_at(row@, i as int),
{
    if i < row.len() {
        match &row[i] {
            SqlValue::Integer(n) => Some(*n),
            _ => None,
        }
    } else {
        None
    }
}

/// The text in a column.
pub fn get_text(row: &[SqlValue], i: usize) -> (t: Option<String>)
    ensures
        match t {
            Some(s) => text_at(row@, i as int) == Some(s@),
            None => text_at(row@, i as int) is None,
        },
{
    if i < row.len() {
        match &row[i] {
            SqlValue::Text(b) => utf8_text(slice_to_vec(b.as_slice())),
            _ => None,
        }
    } else {
        None
    }
}

/// The bytes in a column that holds text or a blob.
pub fn get_content_bytes(row: &[SqlValue], i: usize) -> (bytes: Vec<u8>)
    ensures
        bytes@ == content_at(row@, i as int),
{
    if i < row.len() {
        match &row[i] {
            SqlValue::Blob(b) => return slice_to_vec(b.as_slice()),
            SqlValue::Text(b) => {
                let bytes = slice_to_vec(b.as_slice());
                if utf8_text(slice_to_vec(b.as_slice())).is_some() {
                    return bytes;
                }
            },
            _ => {},
        }
    }
    Vec::new()
}

fn get_integer_or_zero(row: &[SqlValue], i: usize) -> (n: i64)
    ensures
        n == int_or_zero(row@, i as int),
{
    match get_integer(row, i) {
        Some(n) => n,
        None => 0,
    }
}

fn get_text_or_empty(row: &[SqlValue], i: usize) -> (t: String)
    ensures
        t@ == text_or_empty(row@, i as int),
{
    match get_text(row, i) {
        Some(t) => t,
        None => String::new(),
    }
}

/// The rows as sequences of values.
pub open spec fn row_values(rows: Seq<Vec<SqlValue>>) -> Seq<Seq<SqlValue>> {
    rows.map_values(|r: Vec<SqlValue>| r@)
}

// ---------------------------------------------------------------------------
// Contacts

/// A contact as stored.
pub struct ContactRow {
    pub username: String,
    pub nick_name: String,
    pub remark: String,
}

/// The content of a contact row.
pub struct ContactView {
    pub username: Seq<char>,
    pub nick_name: Seq<char>,
    pub remark: Seq<char>,
}

impl View for ContactRow {
    type V = ContactView;

    open spec fn view(&self) -> ContactView {
        ContactView { username: self.username@, nick_name: self.nick_name@, remark: self.remark@ }
    }
}

/// The contact in a row of user name, nickname and remark. Only the user name
/// must be there.
pub open spec fn contact_in(row: Seq<SqlValue>) -> Option<ContactView> {
    match text_at(row, 0) {
        Some(username) => Some(
            ContactView {
                username,
                nick_name: text_or_empty(row, 1),
                remark: text_or_empty(row, 2),
            },
        ),
        None => None,
    }
}

/// Reads a contact from a row.
pub fn contact_row(row: &[SqlValue]) -> (c: Option<ContactRow>)
    ensures
        match c {
            Some(c) => contact_in(row@) == Some(c@),
            None => contact_in(row@) is None,
        },
{
    match get_text(row, 0) {
        Some(username) => Some(
            ContactRow {
                username,
                nick_name: get_text_or_empty(row, 1),
                remark: get_text_or_empty(row, 2),
            },
        ),
        None => None,
    }
}

// ---------------------------------------------------------------------------
// Sessions

/// A session as stored.
pub struct SessionRow {
    pub username: String,
    pub unread: i64,
    pub summary: Vec<u8>,
    pub timestamp: i64,
    pub msg_type: i64,
    pub sender: String,
    pub sender_name: String,
}

/// The content of a session row.
pub struct SessionRowView {
    pub username: Seq<char>,
    pub unread: i64,
    pub summary: Seq<u8>,
    pub timestamp: i64,
    pub msg_type: i64,
    pub sender: Seq<char>,
    pub sender_name: Seq<char>,
}

impl View for SessionRow {
    type V = SessionRowView;

    open spec fn view(&self) -> SessionRowView {
        SessionRowView {
            username: self.username@,
            unread: self.unread,
            summary: self.summary@,
            timestamp: self.timestamp,
            msg_type: self.msg_type,
            sender: self.sender@,
            sender_name: self.sender_name@,
        }
    }
}

/// The session in a row. Only the user name must be there.
pub open spec fn session_in(row: Seq<SqlValue>) -> Option<SessionRowView> {
    match text_at(row, 0) {
        Some(username) => Some(
            SessionRowView {
                username,
                unread: int_or_zero(row, 1),
                summary: content_at(row, 2),
                timestamp: int_or_zero(row, 3),
                msg_type: int_or_zero(row, 4),
                sender: text_or_empty(row, 5),
                sender_name: text_or_empty(row, 6),
            },
        ),
        None => None,
    }
}

/// Reads a session from a row.
pub fn session_row(row: &[SqlValue]) -> (s: Option<SessionRow>)
    ensures
        match s {
            Some(s) => session_in(row@) == Some(s@),
            None => session_in(row@) is None,
        },
{
    match get_text(row, 0) {
        Some(username) => Some(
            SessionRow {
                username,
                unread: get_integer_or_zero(row, 1),
                summary: get_content_bytes(row, 2),
                timestamp: get_integer_or_zero(row, 3),
                msg_type: get_integer_or_zero(row, 4),
                sender: get_text_or_empty(row, 5),
                sender_name: get_text_or_empty(row, 6),
            },
        ),
        None => None,
    }
}

// ---------------------------------------------------------------------------
// Messages

/// A message as stored.
pub struct MessageRow {
    pub local_id: i64,
    pub local_type: i64,
    pub timestamp: i64,
    pub real_sender_id: i64,
    pub content: Vec<u8>,
    pub ct: i64,
}

/// The content of a message row.
pub struct MessageRowView {
    pub local_id: i64,
    pub local_type: i64,
    pub timestamp: i64,
    pub real_sender_id: i64,
    pub content: Seq<u8>,
    pub ct: i64,
}

impl View for MessageRow {
    type V = MessageRowView;

    open spec fn view(&self) -> MessageRowView {
        MessageRowView {
            local_id: self.local_id,
            local_type: self.local_type,
            timestamp: self.timestamp,
            real_sender_id: self.real_sender_id,
            content: self.content@,
            ct: self.ct,
        }
    }
}

/// The message in a row. The first four columns must be integers.
pub open spec fn message_in(row: Seq<SqlValue>) -> Option<MessageRowView> {
    match (int_at(row, 0), int_at(row, 1), int_at(row, 2), int_at(row, 3)) {
        (Some(local_id), Some(local_type), Some(timestamp), Some(real_sender_id)) => Some(
            MessageRowView {
                local_id,
                local_type,
                timestamp,
                real_sender_id,
                content: content_at(row, 4),
                ct: int_or_zero(row, 5),
            },
        ),
        _ => None,
    }
}

/// The messages in rows; a row that holds none is passed over.
pub open spec fn messages_in(rows: Seq<Seq<SqlValue>>) -> Seq<MessageRowView>
    decreases rows.len(),
{
    if rows.len() == 0 {
        Seq::empty()
    } else {
        let rest = messages_in(rows.drop_last());
        match message_in(rows.last()) {
            Some(m) => rest.push(m),
            None => rest,
        }
    }
}

/// Reads a message from a row.
pub fn message_row(row: &[SqlValue]) -> (m: Option<MessageRow>)
    ensures
        match m {
            Some(m) => message_in(row@) == Some(m@),
            None => message_in(row@) is None,
        },
{
    match (get_integer(row, 0), get_integer(row, 1), get_integer(row, 2), get_integer(row, 3)) {
        (Some(local_id), Some(local_type), Some(timestamp), Some(real_sender_id)) => Some(
            MessageRow {
                local_id,
                local_type,
                timestamp,
                real_sender_id,
                content: get_content_bytes(row, 4),
                ct: get_integer_or_zero(row, 5),
            },
        ),
        _ => None,
    }
}

/// The content of message rows.
pub open spec fn message_views(rows: Seq<MessageRow>) -> Seq<MessageRowView> {
    rows.map_values(|m: MessageRow| m@)
}

/// Reads the messages from rows, passing over those that hold none.
pub fn message_rows(rows: &Vec<Vec<SqlValue>>) -> (found: Vec<MessageRow>)
    ensures
        message_views(found@) == messages_in(row_values(rows@)),
{
    let mut found: Vec<MessageRow> = Vec::new();
    assert(message_views(found@) =~= messages_in(row_values(rows@).take(0)));
    for i in 0..rows.len()
        invariant
            message_views(found@) == messages_in(row_values(rows@).take(i as int)),
    {
        let ghost before = found@;
        proof {
            assert(row_values(rows@).take(i + 1).drop_last() =~= row_values(rows@).take(i as int));
        }
        if let Some(m) = message_row(rows[i].as_slice()) {
            found.push(m);
            assert(message_views(found@) =~= message_views(before).push(m@));
        }
    }
    assert(row_values(rows@).take(rows@.len() as int) =~= row_values(rows@));
    found
}

// ---------------------------------------------------------------------------
// Sender ids

/// The text in a table from sender ids to user names.
pub open spec fn id_names(m: Map<i64, String>) -> Map<i64, Seq<char>> {
    m.map_values(|s: String| s@)
}

/// The user names by sender id in rows of id and user name. A row without
/// both is passed over; a later row for an id takes the place of an earlier.
pub open spec fn ids_in(rows: Seq<Seq<SqlValue>>) -> Map<i64, Seq<char>>
    decreases rows.len(),
{
    if rows.len() == 0 {
        Map::empty()
    } else {
        let rest = ids_in(rows.drop_last());
        match (int_at(rows.last(), 0), text_at(rows.last(), 1)) {
            (Some(id), Some(name)) => rest.insert(id, name),
            _ => rest,
        }
    }
}

/// Reads the user names by sender id.
pub fn load_id2u(rows: &Vec<Vec<SqlValue>>) -> (ids: HashMap<i64, String>)
    ensures
        id_names(ids@) == ids_in(row_values(rows@)),
{
    let mut ids: HashMap<i64, String> = HashMap::new();
    assert(id_names(ids@) =~= ids_in(row_values(rows@).take(0)));
    for i in 0..rows.len()
        invariant
            id_names(ids@) == ids_in(row_values(rows@).take(i as int)),
    {
        let ghost before = ids@;
        proof {
            assert(row_values(rows@).take(i + 1).drop_last() =~= row_values(rows@).take(i as int));
        }
        let row = rows[i].as_slice();
        match (get_integer(row, 0), get_text(row, 1)) {
            (Some(id), Some(name)) => {
                ids.insert(id, name);
                assert(id_names(ids@) =~= id_names(before).insert(id, name@));
            },
            _ => {},
        }
    }
    assert(row_values(rows@).take(rows@.len() as int) =~= row_values(rows@));
    ids
}

// ---------------------------------------------------------------------------
// Single values

/// The integer that a query for one value gave. No row, a null and a value of
/// another type count as none.
pub fn single_integer(row: Option<Vec<SqlValue>>) -> (n: Option<i64>)
    ensures
        n == match row {
            Some(r) => int_at(r@, 0),
            None => None,
        },
{
    match row {
        Some(r) => get_integer(r.as_slice(), 0),
        None => None,
    }
}

// ---------------------------------------------------------------------------
// Laws

/// Content is read alike whether it was stored as text or as a blob.
pub proof fn text_and_blob_read_alike(bytes: Vec<u8>, row: Seq<SqlValue>, i: int)
    requires
        valid_utf8(bytes@),
        0 <= i < row.len(),
    ensures
        content_at(row.update(i, SqlValue::Text(bytes)), i) == bytes@,
        content_at(row.update(i, SqlValue::Blob(bytes)), i) == bytes@,
{
}

/// A column holds an integer exactly if one is stored there.
pub proof fn integers_are_read_as_stored(row: Seq<SqlValue>, i: int, n: i64)
    ensures
        int_at(row, i) == Some(n) <==> 0 <= i < row.len() && row[i] == SqlValue::Integer(n),
        int_or_zero(row, i) == n <==> int_at(row, i) == Some(n) || (int_at(row, i) is None && n
            == 0),
{
}

/// A column holds text exactly if its bytes are stored there as text.
pub proof fn text_is_read_as_stored(row: Seq<SqlValue>, i: int, t: Seq<char>)
    ensures
        text_at(row, i) == Some(t) <==> 0 <= i < row.len() && (row[i] matches SqlValue::Text(b)
            && b@ == encode_utf8(t)),
        text_or_empty(row, i) == t <==> text_at(row, i) == Some(t) || (text_at(row, i) is None
            && t.len() == 0),
{
    encode_utf8_valid_utf8(t);
    encode_utf8_decode_utf8(t);
    if 0 <= i < row.len() {
        if let SqlValue::Text(b) = row[i] {
            if valid_utf8(b@) {
                decode_utf8_encode_utf8(b@);
            }
        }
    }
    if text_at(row, i) is None && t.len() == 0 {
        assert(t =~= Seq::empty());
    }
}

/// Content is what a blob holds, or text that is UTF-8, and nothing otherwise.
pub proof fn content_is_read_as_stored(row: Seq<SqlValue>, i: int)
    ensures
        0 <= i < row.len() ==> match row[i] {
            SqlValue::Blob(b) => content_at(row, i) == b@,
            SqlValue::Text(b) => if valid_utf8(b@) {
                content_at(row, i) == b@
            } else {
                content_at(row, i).len() == 0
            },
            _ => content_at(row, i).len() == 0,
        },
        !(0 <= i < row.len()) ==> content_at(row, i).len() == 0,
{
}

/// A contact is read from three columns; only the first must be text.
pub proof fn contacts_are_read_by_column(row: Seq<SqlValue>)
    ensures
        contact_in(row) is Some <==> text_at(row, 0) is Some,
        contact_in(row) matches Some(c) ==> {
            &&& text_at(row, 0) == Some(c.username)
            &&& text_or_empty(row, 1) == c.nick_name
            &&& text_or_empty(row, 2) == c.remark
        },
{
}

/// A session is read from seven columns; only the first must be text.
pub proof fn sessions_are_read_by_column(row: Seq<SqlValue>)
    ensures
        session_in(row) is Some <==> text_at(row, 0) is Some,
        session_in(row) matches Some(s) ==> {
            &&& text_at(row, 0) == Some(s.username)
            &&& int_or_zero(row, 1) == s.unread
            &&& content_at(row, 2) == s.summary
            &&& int_or_zero(row, 3) == s.timestamp
            &&& int_or_zero(row, 4) == s.msg_type
            &&& text_or_empty(row, 5) == s.sender
            &&& text_or_empty(row, 6) == s.sender_name
        },
{
}

/// A message is read from six columns; the first four must be integers.
pub proof fn messages_are_read_by_column(row: Seq<SqlValue>)
    ensures
        message_in(row) is Some <==> forall|i: int| 0 <= i < 4 ==> #[trigger] int_at(row, i) is Some,
        message_in(row) matches Some(m) ==> {
            &&& int_at(row, 0) == Some(m.local_id)
            &&& int_at(row, 1) == Some(m.local_type)
            &&& int_at(row, 2) == Some(m.timestamp)
            &&& int_at(row, 3) == Some(m.real_sender_id)
            &&& content_at(row, 4) == m.content
            &&& int_or_zero(row, 5) == m.ct
        },
{
    if forall|i: int| 0 <= i < 4 ==> #[trigger] int_at(row, i) is Some {
        assert(int_at(row, 0) is Some && int_at(row, 1) is Some && int_at(row, 2) is Some
            && int_at(row, 3) is Some);
    }
}

/// The messages in rows are those of the first rows and then those of the
/// others.
pub proof fn messages_come_row_by_row(a: Seq<Seq<SqlValue>>, b: Seq<Seq<SqlValue>>)
    ensures
        messages_in(a + b) == messages_in(a) + messages_in(b),
    decreases b.len(),
{
    if b.len() == 0 {
        assert(a + b =~= a);
        assert(messages_in(a) + messages_in(b) =~= messages_in(a));
    } else {
        assert((a + b).drop_last() =~= a + b.drop_last());
        messages_come_row_by_row(a, b.drop_last());
        assert(messages_in(a + b) =~= messages_in(a) + messages_in(b));
    }
}

/// A row gives its message, or none.
pub proof fn rows_give_their_message(row: Seq<SqlValue>)
    ensures
        messages_in(seq![row]).len() == (if message_in(row) is Some {
            1int
        } else {
            0
        }),
        message_in(row) matches Some(m) ==> messages_in(seq![row])[0] == m,
{
    assert(seq![row].drop_last() =~= Seq::empty());
    assert(messages_in(seq![row].drop_last()).len() == 0);
}

/// A row names the sender with the given id.
pub open spec fn names_sender(row: Seq<SqlValue>, id: i64) -> bool {
    int_at(row, 0) == Some(id) && text_at(row, 1) is Some
}

/// An id has a name exactly if some row names it.
pub proof fn named_senders_come_from_rows(rows: Seq<Seq<SqlValue>>, id: i64)
    ensures
        ids_in(rows).contains_key(id) <==> exists|i: int|
            0 <= i < rows.len() && names_sender(#[trigger] rows[i], id),
    decreases rows.len(),
{
    if rows.len() > 0 {
        let rest = rows.drop_last();
        named_senders_come_from_rows(rest, id);
        if ids_in(rest).contains_key(id) {
            let i = choose|i: int| 0 <= i < rest.len() && names_sender(#[trigger] rest[i], id);
            assert(names_sender(rows[i], id));
        }
        if names_sender(rows.last(), id) {
            assert(names_sender(rows[rows.len() - 1], id));
        }
        if exists|i: int| 0 <= i < rows.len() && names_sender(#[trigger] rows[i], id) {
            let i = choose|i: int| 0 <= i < rows.len() && names_sender(#[trigger] rows[i], id);
            if i < rest.len() {
                assert(names_sender(rest[i], id));
            }
        }
    }
}

/// The latest row for a sender id names the sender.
pub proof fn latest_row_names_sender(rows: Seq<Seq<SqlValue>>, id: i64, i: int)
    requires
        0 <= i < rows.len(),
        names_sender(rows[i], id),
        forall|j: int| i < j < rows.len() ==> !names_sender(#[trigger] rows[j], id),
    ensures
        ids_in(rows).contains_key(id),
        text_at(rows[i], 1) == Some(ids_in(rows)[id]),
    decreases rows.len(),
{
    let rest = rows.drop_last();
    if i < rest.len() {
        assert(!names_sender(rows[rows.len() - 1], id));
        assert forall|j: int| i < j < rest.len() implies !names_sender(#[trigger] rest[j], id) by {
            assert(rest[j] == rows[j]);
        }
        latest_row_names_sender(rest, id, i);
    }
}

/// The content of a row is what its fields hold.
pub proof fn row_views_hold_the_fields(c: ContactRow, s: SessionRow, m: MessageRow)
    ensures
        c@.username == c.username@ && c@.nick_name == c.nick_name@ && c@.remark == c.remark@,
        s@.username == s.username@ && s@.unread == s.unread && s@.summary == s.summary@,
        s@.timestamp == s.timestamp && s@.msg_type == s.msg_type && s@.sender == s.sender@,
        s@.sender_name == s.sender_name@,
        m@.local_id == m.local_id && m@.local_type == m.local_type && m@.timestamp == m.timestamp,
        m@.real_sender_id == m.real_sender_id && m@.content == m.content@ && m@.ct == m.ct,
{
}

/// Lists of rows are read row by row.
pub proof fn row_lists_hold_the_rows(
    rows: Seq<Vec<SqlValue>>,
    messages: Seq<MessageRow>,
    ids: Map<i64, String>,
)
    ensures
        row_values(rows).len() == rows.len(),
        forall|i: int| 0 <= i < rows.len() ==> #[trigger] row_values(rows)[i] == rows[i]@,
        message_views(messages).len() == messages.len(),
        forall|i: int|
            0 <= i < messages.len() ==> #[trigger] message_views(messages)[i] == messages[i]@,
        id_names(ids).dom() == ids.dom(),
        forall|id: i64| #[trigger]
            ids.contains_key(id) ==> id_names(ids)[id] == ids[id]@,
{
    assert(id_names(ids).dom() =~= ids.dom());
}

} // verus!
