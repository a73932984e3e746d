use wechat_query::clock::fmt_time;
use wechat_query::names::{load_names, Names};
use wechat_query::rows::{RowError, SqlValue};
use wechat_query::sessions::{is_group, q_sessions};

fn text(s: &str) -> SqlValue {
    SqlValue::Text(s.as_bytes().to_vec())
}

fn names() -> Names {
    let rows = vec![
        vec![text("alice"), text("Alice"), text("")],
        vec![text("room@chatroom"), text("Room"), text("")],
    ];
    match load_names(&rows) {
        Ok(names) => names,
        Err(_) => panic!("a contact has no user name"),
    }
}

fn session(username: &str, summary: SqlValue, sender: &str, sender_name: &str) -> Vec<SqlValue> {
    vec![
        text(username),
        SqlValue::Integer(2),
        summary,
        SqlValue::Integer(1_700_000_000),
        SqlValue::Integer(1),
        text(sender),
        text(sender_name),
    ]
}

#[test]
fn sessions_are_shown() {
    let packed = zstd::encode_all("bob:\n晚上好".as_bytes(), 3).unwrap();
    let rows = vec![
        session("room@chatroom", SqlValue::Blob(packed), "alice", "x"),
        session("room@chatroom", text("hi"), "bob", "Bob"),
        session("room@chatroom", text("hi"), "bob", ""),
        session("room@chatroom", text("hi"), "", "Bob"),
        session("alice", text("hello"), "alice", "A"),
    ];
    let list = match q_sessions(&names(), &rows) {
        Ok(list) => list,
        Err(_) => panic!("a session has no user name"),
    };
    assert_eq!(list.len(), 5);
    let s = &list[0];
    assert_eq!((s.chat.as_str(), s.username.as_str(), s.is_group), ("Room", "room@chatroom", true));
    assert_eq!((s.unread, s.timestamp), (2, 1_700_000_000));
    assert_eq!((s.last_msg_type.as_str(), s.summary.as_str()), ("文本", "晚上好"));
    assert_eq!(s.time, fmt_time(1_700_000_000, "%m-%d %H:%M"));
    let senders: Vec<&str> = list.iter().map(|s| s.last_sender.as_str()).collect();
    assert_eq!(senders, vec!["Alice", "Bob", "bob", "", ""]);
    assert_eq!((list[4].chat.as_str(), list[4].is_group), ("Alice", false));
}

#[test]
fn missing_columns_count_as_nothing() {
    let rows = vec![vec![text("u"), SqlValue::Null]];
    let list = match q_sessions(&names(), &rows) {
        Ok(list) => list,
        Err(_) => panic!("a session has no user name"),
    };
    assert_eq!((list[0].unread, list[0].timestamp), (0, 0));
    assert_eq!((list[0].summary.as_str(), list[0].last_msg_type.as_str()), ("", "type=0"));
}

#[test]
fn session_without_user_name_is_an_error() {
    let rows = vec![session("alice", text(""), "", ""), vec![SqlValue::Null]];
    assert!(matches!(q_sessions(&names(), &rows), Err(RowError { row: 1, column: 0 })));
}

#[test]
fn groups_are_told_by_name() {
    assert!(is_group("1@chatroom"));
    assert!(is_group("@chatroom2"));
    assert!(!is_group("chatroom"));
}
