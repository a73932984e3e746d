use wechat_query::clock::fmt_time;
use wechat_query::history::{history_page, q_history, History, QueryError, TableRows};
use wechat_query::messages::Message;
use wechat_query::names::{load_names, Names};
use wechat_query::rows::SqlValue;

fn text(s: &str) -> SqlValue {
    SqlValue::Text(s.as_bytes().to_vec())
}

fn names() -> Names {
    let rows = vec![
        vec![text("alice"), text("Alice"), text("")],
        vec![text("room@chatroom"), text("Room"), text("")],
    ];
    match load_names(&rows) {
        Ok(names) => names,
        Err(_) => panic!("a contact has no user name"),
    }
}

fn message(local_id: i64, ts: i64, sender: i64, content: &str) -> Vec<SqlValue> {
    vec![
        SqlValue::Integer(local_id),
        SqlValue::Integer(1),
        SqlValue::Integer(ts),
        SqlValue::Integer(sender),
        text(content),
        SqlValue::Integer(0),
    ]
}

fn table(messages: Vec<Vec<SqlValue>>) -> TableRows {
    TableRows { ids: vec![vec![SqlValue::Integer(1), text("alice")]], messages }
}

fn found(history: Result<History, QueryError>) -> History {
    match history {
        Ok(h) => h,
        Err(e) => panic!("{}", e.message()),
    }
}

fn ids(h: &History) -> Vec<i64> {
    h.messages.iter().map(|m| m.local_id).collect()
}

fn shown(timestamp: i64, local_id: i64) -> Message {
    Message {
        timestamp,
        time: String::new(),
        sender: String::new(),
        content: String::new(),
        kind: String::new(),
        local_id,
    }
}

#[test]
fn history_of_a_group_in_two_tables() {
    let tables = vec![
        table(vec![message(3, 30, 1, "alice:\nthree"), message(1, 10, 9, "bob:\none")]),
        table(vec![message(2, 20, 1, "two")]),
    ];
    let h = found(q_history(&names(), "room", &tables, 10, 0));
    assert_eq!((h.chat.as_str(), h.username.as_str()), ("Room", "room@chatroom"));
    assert_eq!((h.is_group, h.count), (true, 3));
    assert_eq!(ids(&h), vec![1, 2, 3]);
    let m = &h.messages[2];
    assert_eq!((m.sender.as_str(), m.content.as_str(), m.kind.as_str()), ("Alice", "three", "文本"));
    assert_eq!((m.timestamp, m.time.as_str()), (30, fmt_time(30, "%Y-%m-%d %H:%M").as_str()));
    assert_eq!((h.messages[0].sender.as_str(), h.messages[0].content.as_str()), ("bob", "one"));
}

#[test]
fn pages_count_from_the_latest() {
    let tables = vec![
        table(vec![message(5, 50, 1, ""), message(3, 30, 1, ""), message(1, 10, 1, "")]),
        table(vec![message(4, 40, 1, ""), message(2, 20, 1, "")]),
    ];
    let page = |limit, offset| ids(&found(q_history(&names(), "alice", &tables, limit, offset)));
    assert_eq!(page(2, 0), vec![4, 5]);
    assert_eq!(page(2, 2), vec![2, 3]);
    assert_eq!(page(2, 4), vec![1]);
    assert_eq!(page(2, 5), Vec::<i64>::new());
    assert_eq!(page(0, 0), Vec::<i64>::new());
    assert_eq!(page(4, 0), vec![2, 3, 4, 5]);
    assert_eq!(page(usize::MAX, usize::MAX), Vec::<i64>::new());
}

#[test]
fn latest_messages_of_each_table_are_enough() {
    let newest = |rows: &[(i64, i64)], n: usize| {
        table(rows.iter().take(n).map(|r| message(r.0, r.1, 1, "")).collect())
    };
    let a = [(9, 90), (5, 50), (4, 40), (1, 10)];
    let b = [(8, 80), (7, 70), (6, 60), (2, 20)];
    for limit in 0..4 {
        for offset in 0..5 {
            let all = vec![newest(&a, 9), newest(&b, 9)];
            let cut = vec![newest(&a, limit + offset), newest(&b, limit + offset)];
            let want = ids(&found(q_history(&names(), "alice", &all, limit, offset)));
            assert_eq!(ids(&found(q_history(&names(), "alice", &cut, limit, offset))), want);
        }
    }
}

#[test]
fn messages_of_one_time_keep_their_order() {
    let page = history_page(vec![shown(5, 1), shown(7, 2), shown(5, 3), shown(7, 4)], 3, 0);
    let order: Vec<i64> = page.iter().map(|m| m.local_id).collect();
    assert_eq!(order, vec![1, 2, 4]);
}

#[test]
fn unknown_contact_is_an_error() {
    let e = q_history(&names(), "nobody", &vec![table(vec![])], 1, 0);
    match e {
        Err(e) => {
            assert_eq!(e.message(), "找不到联系人: nobody");
            assert!(matches!(e, QueryError::UnknownContact(_)));
        }
        Ok(_) => panic!("there is no such contact"),
    }
}

#[test]
fn contact_without_tables_is_an_error() {
    match q_history(&names(), "alice", &vec![], 1, 0) {
        Err(e) => {
            assert_eq!(e.message(), "找不到 Alice 的消息记录");
            assert!(matches!(e, QueryError::NoMessages(_)));
        }
        Ok(_) => panic!("there is no table"),
    }
    let h = found(q_history(&names(), "alice", &vec![table(vec![])], 1, 0));
    assert_eq!(h.count, 0);
}

#[test]
fn pages_join_where_no_time_is_cut_apart() {
    let tables = vec![
        table(vec![message(5, 50, 1, ""), message(3, 30, 1, ""), message(1, 10, 1, "")]),
        table(vec![message(4, 40, 1, ""), message(2, 20, 1, "")]),
    ];
    let page = |limit, offset| ids(&found(q_history(&names(), "alice", &tables, limit, offset)));
    for a in 0..6 {
        for b in 0..6 {
            let mut joined = page(b, a);
            joined.extend(page(a, 0));
            assert_eq!(page(a + b, 0), joined);
        }
    }
}

#[test]
fn messages_of_one_time_may_be_cut_apart() {
    let tables = vec![table(vec![message(1, 10, 1, ""), message(2, 10, 1, "")])];
    let page = |limit, offset| ids(&found(q_history(&names(), "alice", &tables, limit, offset)));
    assert_eq!(page(2, 0), vec![1, 2]);
    assert_eq!((page(1, 1), page(1, 0)), (vec![2], vec![1]));
}
