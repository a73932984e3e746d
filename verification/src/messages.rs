//! Messages and search hits as they are shown, made from stored rows.

use std::collections::HashMap;

use vstd::prelude::*;
use vstd::utf8::encode_utf8;

use crate::clock::{fmt_time, is_time_text};
use crate::codec::{decompress_message, plain_text_reads_back, stored_text};
use crate::content::{
    base_type, content_text, fmt_content, fmt_type, kind_name, without_sender,
};
use crate::name_map::NameMap;
use crate::names::{sender_label, sender_of, sender_shown};
use crate::rows::{
    id_names, message_rows, message_views, messages_in, row_values, MessageRow, MessageRowView,
    SqlValue,
};

verus! {

/// A message as shown.
pub struct Message {
    pub timestamp: i64,
    pub time: String,
    pub sender: String,
    pub content: String,
    pub kind: String,
    pub local_id: i64,
}

/// The content of a message.
pub struct MessageView {
    pub timestamp: i64,
    pub time: Seq<char>,
    pub sender: Seq<char>,
    pub content: Seq<char>,
    pub kind: Seq<char>,
    pub local_id: i64,
}

impl View for Message {
    type V = MessageView;

    open spec fn view(&self) -> MessageView {
        MessageView {
            timestamp: self.timestamp,
            time: self.time@,
            sender: self.sender@,
            content: self.content@,
            kind: self.kind@,
            local_id: self.local_id,
        }
    }
}

/// The chat that messages belong to, with what senders are looked up in.
pub struct ChatContext {
    pub username: Seq<char>,
    pub is_group: bool,
    pub ids: Map<i64, Seq<char>>,
    pub map: Map<Seq<char>, Seq<char>>,
}

/// A message made from a row, the text of its content, and its time as shown.
pub open spec fn message_of(
    row: MessageRowView,
    text: Seq<char>,
    time: Seq<char>,
    chat: ChatContext,
) -> MessageView {
    MessageView {
        timestamp: row.timestamp,
        time,
        sender: sender_shown(
            sender_of(chat.ids, row.real_sender_id),
            text,
            chat.is_group,
            chat.username,
            chat.map,
        ),
        content: content_text(
            row.local_id as int,
            base_type(row.local_type),
            text,
            chat.is_group,
        ),
        kind: kind_name(base_type(row.local_type)),
        local_id: row.local_id,
    }
}

/// Makes a message from a row, the text of its content, and its time as shown.
pub fn message_from_row(
    row: &MessageRow,
    text: &str,
    time: String,
    chat_username: &str,
    is_group: bool,
    id2u: &HashMap<i64, String>,
    names_map: &NameMap,
) -> (m: Message)
    ensures
        m@ == message_of(
            row@,
            text@,
            time@,
            (ChatContext {
                username: chat_username@,
                is_group,
                ids: id_names(id2u@),
                map: names_map@,
            }),
        ),
{
    Message {
        timestamp: row.timestamp,
        time,
        sender: sender_label(
            row.real_sender_id,
            text,
            is_group,
            chat_username,
            id2u,
            names_map,
        ),
        content: fmt_content(row.local_id, row.local_type, text, is_group),
        kind: fmt_type(row.local_type),
        local_id: row.local_id,
    }
}

/// `m` is what a row of messages is shown as.
pub open spec fn shows_row(m: MessageView, row: MessageRowView, chat: ChatContext) -> bool {
    &&& m == message_of(row, stored_text(row.content, row.ct), m.time, chat)
    &&& is_time_text(m.time, "%Y-%m-%d %H:%M"@, row.timestamp as int)
}

/// The messages in the rows of a table, as shown. Rows that hold no message are
/// passed over.
pub fn query_messages(
    rows: &Vec<Vec<SqlValue>>,
    chat_username: &str,
    is_group: bool,
    id2u: &HashMap<i64, String>,
    names_map: &NameMap,
) -> (shown: Vec<Message>)
    ensures
        shown@.len() == messages_in(row_values(rows@)).len(),
        forall|i: int|
            0 <= i < shown@.len() ==> shows_row(
                (#[trigger] shown@[i])@,
                messages_in(row_values(rows@))[i],
                (ChatContext {
                    username: chat_username@,
                    is_group,
                    ids: id_names(id2u@),
                    map: names_map@,
                }),
            ),
{
    let found = message_rows(rows);
    let ghost stored = messages_in(row_values(rows@));
    let ghost chat = ChatContext {
        username: chat_username@,
        is_group,
        ids: id_names(id2u@),
        map: names_map@,
    };
    let mut shown: Vec<Message> = Vec::new();
    for i in 0..found.len()
        invariant
            stored == message_views(found@),
            chat == (ChatContext {
                username: chat_username@,
                is_group,
                ids: id_names(id2u@),
                map: names_map@,
            }),
            shown@.len() == i,
            forall|j: int| 0 <= j < i ==> shows_row((#[trigger] shown@[j])@, stored[j], chat),
    {
        let row = &found[i];
        let text = decompress_message(row.content.as_slice(), row.ct);
        let time = fmt_time(row.timestamp, "%Y-%m-%d %H:%M");
        assert(stored[i as int] == row@);
        shown.push(
            message_from_row(row, text.as_str(), time, chat_username, is_group, id2u, names_map),
        );
    }
    shown
}

// ---------------------------------------------------------------------------
// Search hits

/// A message found by a search, as shown.
pub struct SearchHit {
    pub timestamp: i64,
    pub time: String,
    pub chat: String,
    pub sender: String,
    pub content: String,
    pub kind: String,
}

/// The content of a search hit.
pub struct HitView {
    pub timestamp: i64,
    pub time: Seq<char>,
    pub chat: Seq<char>,
    pub sender: Seq<char>,
    pub content: Seq<char>,
    pub kind: Seq<char>,
}

impl View for SearchHit {
    type V = HitView;

    open spec fn view(&self) -> HitView {
        HitView {
            timestamp: self.timestamp,
            time: self.time@,
            chat: self.chat@,
            sender: self.sender@,
            content: self.content@,
            kind: self.kind@,
        }
    }
}

/// A message as a search hit, in a chat shown by the given name.
pub open spec fn hit_of(m: MessageView, chat: Seq<char>) -> HitView {
    HitView {
        timestamp: m.timestamp,
        time: m.time,
        chat,
        sender: m.sender,
        content: m.content,
        kind: m.kind,
    }
}

/// `hit` is what a row found by a search is shown as, in a chat shown by the
/// given name.
pub open spec fn hit_shows_row(
    hit: HitView,
    name: Seq<char>,
    row: MessageRowView,
    chat: ChatContext,
) -> bool {
    &&& hit == hit_of(
        message_of(row, stored_text(row.content, row.ct), hit.time, chat),
        name,
    )
    &&& is_time_text(hit.time, "%Y-%m-%d %H:%M"@, row.timestamp as int)
}

/// The hits in the rows that a search found in a table, without the name of the
/// chat. Rows that hold no message are passed over.
pub fn search_in_table(
    rows: &Vec<Vec<SqlValue>>,
    chat_username: &str,
    is_group: bool,
    id2u: &HashMap<i64, String>,
    names_map: &NameMap,
) -> (hits: Vec<SearchHit>)
    ensures
        hits@.len() == messages_in(row_values(rows@)).len(),
        forall|i: int|
            0 <= i < hits@.len() ==> hit_shows_row(
                (#[trigger] hits@[i])@,
                Seq::empty(),
                messages_in(row_values(rows@))[i],
                (ChatContext {
                    username: chat_username@,
                    is_group,
                    ids: id_names(id2u@),
                    map: names_map@,
                }),
            ),
{
    let ghost chat = ChatContext {
        username: chat_username@,
        is_group,
        ids: id_names(id2u@),
        map: names_map@,
    };
    let ghost stored = messages_in(row_values(rows@));
    let messages = query_messages(rows, chat_username, is_group, id2u, names_map);
    let ghost shown = messages@;
    let mut hits: Vec<SearchHit> = Vec::new();
    for m in it: messages
        invariant
            it.seq() == shown,
            shown.len() == stored.len(),
            forall|j: int|
                0 <= j < shown.len() ==> shows_row((#[trigger] shown[j])@, stored[j], chat),
            hits@.len() == it.index(),
            forall|j: int|
                0 <= j < hits@.len() ==> hit_shows_row(
                    (#[trigger] hits@[j])@,
                    Seq::empty(),
                    stored[j],
                    chat,
                ),
    {
        assert(shows_row(shown[it.index() as int]@, stored[it.index() as int], chat));
        hits.push(
            SearchHit {
                timestamp: m.timestamp,
                time: m.time,
                chat: String::new(),
                sender: m.sender,
                content: m.content,
                kind: m.kind,
            },
        );
        assert(hits@[it.index() as int]@ == hit_of(m@, Seq::empty()));
    }
    hits
}

/// The name of the chat that a hit is shown with: the name of the contact, or
/// that of the table if no contact is known for it.
pub open spec fn chat_label(display: Seq<char>, table: Seq<char>) -> Seq<char> {
    if display.len() == 0 {
        table
    } else {
        display
    }
}

/// A hit with the name of the chat filled in if it had none.
pub open spec fn with_chat(hit: HitView, display: Seq<char>, table: Seq<char>) -> HitView {
    HitView {
        chat: if hit.chat.len() == 0 {
            chat_label(display, table)
        } else {
            hit.chat
        },
        ..hit
    }
}

/// Fills in the name of the chat in the hits that have none.
pub fn name_chat(hits: Vec<SearchHit>, display: &str, table: &str) -> (named: Vec<SearchHit>)
    ensures
        named@.len() == hits@.len(),
        forall|i: int|
            0 <= i < named@.len() ==> (#[trigger] named@[i])@ == with_chat(
                hits@[i]@,
                display@,
                table@,
            ),
{
    let ghost all = hits@;
    let mut named: Vec<SearchHit> = Vec::new();
    for hit in it: hits
        invariant
            it.seq() == all,
            named@.len() == it.index(),
            forall|j: int|
                0 <= j < named@.len() ==> (#[trigger] named@[j])@ == with_chat(
                    all[j]@,
                    display@,
                    table@,
                ),
    {
        let mut hit = hit;
        if hit.chat.as_str().is_empty() {
            hit.chat =
            if display.is_empty() {
                table.to_owned()
            } else {
                display.to_owned()
            };
        }
        named.push(hit);
    }
    named
}

// ---------------------------------------------------------------------------
// Laws

/// A text message that was stored without compression is shown with the text
/// that was stored; in a group, without the sender before it.
pub proof fn text_message_reads_back(
    m: MessageView,
    row: MessageRowView,
    chat: ChatContext,
    text: Seq<char>,
)
    requires
        shows_row(m, row, chat),
        base_type(row.local_type) == 1,
        row.content == encode_utf8(text),
        row.ct != 4,
    ensures
        m.content == (if chat.is_group {
            without_sender(text)
        } else {
            text
        }),
        m.kind == "文本"@,
        m.timestamp == row.timestamp,
        m.local_id == row.local_id,
{
    plain_text_reads_back(text, row.ct);
}

/// Naming chats leaves no hit without a name, if the table has one.
pub proof fn every_hit_is_named(hit: HitView, display: Seq<char>, table: Seq<char>)
    requires
        table.len() > 0,
    ensures
        with_chat(hit, display, table).chat.len() > 0,
{
}

/// A message is shown with the time stamp and the id of its row, the name of its
/// kind, the sender, and what its content says; its time is shown with the year.
pub proof fn shown_messages_hold_the_row(m: MessageView, row: MessageRowView, chat: ChatContext)
    requires
        shows_row(m, row, chat),
    ensures
        ({
            let text = stored_text(row.content, row.ct);
            &&& m.timestamp == row.timestamp
            &&& m.local_id == row.local_id
            &&& m.kind == kind_name(row.local_type as int % 0x1_0000_0000)
            &&& m.content == content_text(
                row.local_id as int,
                row.local_type as int % 0x1_0000_0000,
                text,
                chat.is_group,
            )
            &&& m.sender == sender_shown(
                sender_of(chat.ids, row.real_sender_id),
                text,
                chat.is_group,
                chat.username,
                chat.map,
            )
            &&& is_time_text(m.time, "%Y-%m-%d %H:%M"@, row.timestamp as int)
        }),
{
}

/// A search hit is shown as the message is, with the name of the chat.
pub proof fn shown_hits_hold_the_row(
    hit: HitView,
    name: Seq<char>,
    row: MessageRowView,
    chat: ChatContext,
)
    requires
        hit_shows_row(hit, name, row, chat),
    ensures
        ({
            let text = stored_text(row.content, row.ct);
            &&& hit.timestamp == row.timestamp
            &&& hit.chat == name
            &&& hit.kind == kind_name(row.local_type as int % 0x1_0000_0000)
            &&& hit.content == content_text(
                row.local_id as int,
                row.local_type as int % 0x1_0000_0000,
                text,
                chat.is_group,
            )
            &&& hit.sender == sender_shown(
                sender_of(chat.ids, row.real_sender_id),
                text,
                chat.is_group,
                chat.username,
                chat.map,
            )
            &&& is_time_text(hit.time, "%Y-%m-%d %H:%M"@, row.timestamp as int)
        }),
{
}

/// A message and the hit for the same row at the same time say the same.
pub proof fn hits_say_what_messages_say(
    m: MessageView,
    hit: HitView,
    name: Seq<char>,
    row: MessageRowView,
    chat: ChatContext,
)
    requires
        shows_row(m, row, chat),
        hit_shows_row(hit, name, row, chat),
    ensures
        hit.timestamp == m.timestamp,
        hit.sender == m.sender,
        hit.content == m.content,
        hit.kind == m.kind,
{
}

/// A message made from a row keeps the time text that it is given.
pub proof fn given_times_are_kept(
    row: MessageRowView,
    text: Seq<char>,
    time: Seq<char>,
    chat: ChatContext,
    name: Seq<char>,
)
    ensures
        message_of(row, text, time, chat).time == time,
        hit_of(message_of(row, text, time, chat), name).time == time,
        hit_of(message_of(row, text, time, chat), name).chat == name,
{
}

/// A hit without a chat name gets the name of the contact, or that of the table
/// if there is none; a hit with one keeps it, and all else stays.
pub proof fn hits_are_named_after_contact_or_table(
    hit: HitView,
    display: Seq<char>,
    table: Seq<char>,
)
    ensures
        hit.chat.len() > 0 ==> with_chat(hit, display, table) == hit,
        hit.chat.len() == 0 && display.len() > 0 ==> with_chat(hit, display, table).chat == display,
        hit.chat.len() == 0 && display.len() == 0 ==> with_chat(hit, display, table).chat == table,
        with_chat(hit, display, table).timestamp == hit.timestamp,
        with_chat(hit, display, table).time == hit.time,
        with_chat(hit, display, table).sender == hit.sender,
        with_chat(hit, display, table).content == hit.content,
        with_chat(hit, display, table).kind == hit.kind,
        display.len() > 0 ==> chat_label(display, table) == display,
        display.len() == 0 ==> chat_label(display, table) == table,
{
}

/// The content of a message or a hit is what its fields hold.
pub proof fn message_views_hold_the_fields(m: Message, h: SearchHit)
    ensures
        m@.timestamp == m.timestamp && m@.time == m.time@ && m@.sender == m.sender@,
        m@.content == m.content@ && m@.kind == m.kind@ && m@.local_id == m.local_id,
        h@.timestamp == h.timestamp && h@.time == h.time@ && h@.chat == h.chat@,
        h@.sender == h.sender@ && h@.content == h.content@ && h@.kind == h.kind@,
{
}

} // verus!
