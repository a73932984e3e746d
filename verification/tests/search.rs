use wechat_query::names::{load_names, Names};
use wechat_query::rows::SqlValue;
use wechat_query::search::{q_search, FoundRows};
use wechat_query::targets::SearchTarget;

fn text(s: &str) -> SqlValue {
    SqlValue::Text(s.as_bytes().to_vec())
}

fn names() -> Names {
    match load_names(&vec![vec![text("alice"), text("Alice"), text("")]]) {
        Ok(names) => names,
        Err(_) => panic!("a contact has no user name"),
    }
}

fn rows(display: &str, username: &str, hits: &[(i64, &str)]) -> FoundRows {
    FoundRows {
        target: SearchTarget {
            path: "p".to_string(),
            table: "Msg_t".to_string(),
            display: display.to_string(),
            username: username.to_string(),
        },
        ids: vec![vec![SqlValue::Integer(1), text("alice")]],
        messages: hits
            .iter()
            .map(|h| {
                vec![
                    SqlValue::Integer(0),
                    SqlValue::Integer(1),
                    SqlValue::Integer(h.0),
                    SqlValue::Integer(1),
                    text(h.1),
                    SqlValue::Integer(0),
                ]
            })
            .collect(),
    }
}

#[test]
fn latest_hits_come_first() {
    let found = vec![
        rows("Room", "r@chatroom", &[(5, "bob:\na"), (3, "b")]),
        rows("", "", &[(9, "c"), (5, "d")]),
        rows("Alice", "alice", &[(5, "e:\nf")]),
    ];
    let reply = q_search(&names(), "k", &found, 4);
    assert_eq!((reply.keyword.as_str(), reply.count), ("k", 4));
    let hits: Vec<(i64, &str, &str, &str)> = reply
        .results
        .iter()
        .map(|h| (h.timestamp, h.chat.as_str(), h.sender.as_str(), h.content.as_str()))
        .collect();
    assert_eq!(
        hits,
        vec![
            (9, "Msg_t", "Alice", "c"),
            (5, "Room", "Alice", "a"),
            (5, "Msg_t", "Alice", "d"),
            (5, "Alice", "", "e:\nf"),
        ]
    );
    assert_eq!(reply.results[0].kind, "文本");
}

#[test]
fn order_of_tables_does_not_change_times() {
    let times = |found: Vec<FoundRows>| -> Vec<i64> {
        q_search(&names(), "k", &found, 3).results.iter().map(|h| h.timestamp).collect()
    };
    let a = || rows("", "", &[(9, "x"), (5, "y")]);
    let b = || rows("", "", &[(7, "z"), (5, "w")]);
    assert_eq!(times(vec![a(), b()]), vec![9, 7, 5]);
    assert_eq!(times(vec![b(), a()]), vec![9, 7, 5]);
}

#[test]
fn three_times_as_many_hits_are_enough() {
    let a: Vec<(i64, &str)> = (0..9).map(|i| (90 - 2 * i, "x")).collect();
    let b: Vec<(i64, &str)> = (0..9).map(|i| (81 - i, "y")).collect();
    let times = |n: usize| -> Vec<i64> {
        let found = vec![rows("", "", &a[..n]), rows("", "", &b[..n])];
        q_search(&names(), "k", &found, 2).results.iter().map(|h| h.timestamp).collect()
    };
    assert_eq!(times(9), vec![90, 88]);
    assert_eq!(times(6), vec![90, 88]);
}

#[test]
fn nothing_found() {
    let reply = q_search(&names(), "", &vec![], 4);
    assert_eq!((reply.keyword.as_str(), reply.count, reply.results.len()), ("", 0, 0));
}
