use std::collections::HashMap;

use wechat_query::name_map::NameMap;
use wechat_query::names::{load_names, pick_name, resolve_username, sender_label, Names};
use wechat_query::rows::{RowError, SqlValue};

fn text(s: &str) -> SqlValue {
    SqlValue::Text(s.as_bytes().to_vec())
}

fn contact(username: &str, nick_name: &str, remark: &str) -> Vec<SqlValue> {
    vec![text(username), text(nick_name), text(remark)]
}

fn names(contacts: Vec<Vec<SqlValue>>) -> Names {
    match load_names(&contacts) {
        Ok(names) => names,
        Err(_) => panic!("a contact has no user name"),
    }
}

#[test]
fn remark_goes_before_nickname_before_user_name() {
    let n = names(vec![
        contact("a", "nick", "remark"),
        contact("b", "nick", ""),
        contact("c", "", ""),
        vec![text("d"), SqlValue::Null, SqlValue::Integer(3)],
    ]);
    assert_eq!(n.display("a"), "remark");
    assert_eq!(n.display("b"), "nick");
    assert_eq!(n.display("c"), "c");
    assert_eq!(n.display("d"), "d");
    assert_eq!(n.display("unknown"), "unknown");
    assert!(n.msg_db_keys.is_empty());
}

#[test]
fn later_row_of_a_contact_counts() {
    let n = names(vec![contact("a", "one", ""), contact("b", "x", ""), contact("a", "two", "")]);
    assert_eq!(n.display("a"), "two");
    assert_eq!(n.map.len(), 2);
    assert_eq!(n.map.key(0), "a");
    assert_eq!(n.map.key(1), "b");
}

#[test]
fn contact_without_user_name_is_an_error() {
    let rows = vec![contact("a", "", ""), vec![SqlValue::Null, text("x"), text("y")]];
    assert!(matches!(load_names(&rows), Err(RowError { row: 1, column: 0 })));
    let blob = vec![vec![SqlValue::Blob(b"a".to_vec()), text("x"), text("y")]];
    assert!(matches!(load_names(&blob), Err(RowError { row: 0, column: 0 })));
    let broken = vec![vec![SqlValue::Text(vec![0xff]), text("x"), text("y")]];
    assert!(load_names(&broken).is_err());
}

#[test]
fn contacts_are_found_by_hash() {
    let n = names(vec![contact("alice", "A", ""), contact("wxid_bob", "B", "")]);
    assert_eq!(n.md5_to_uname.get("6384e2b2184bcbf58eccf10ca7a6563c").unwrap(), "alice");
    assert_eq!(n.md5_to_uname.get("8a7b11f2fd24e19a60664a5fe5d56342").unwrap(), "wxid_bob");
    assert!(n.md5_to_uname.get("d41d8cd98f00b204e9800998ecf8427e").is_none());
}

#[test]
fn user_names_resolve_to_themselves() {
    let n = names(vec![contact("alice", "Bob", ""), contact("bob", "Alice", "")]);
    assert_eq!(resolve_username("alice", &n).unwrap(), "alice");
    assert_eq!(resolve_username("1@chatroom", &n).unwrap(), "1@chatroom");
    assert_eq!(resolve_username("wxid_new", &n).unwrap(), "wxid_new");
}

#[test]
fn shown_names_resolve_exactly_before_in_part() {
    let n = names(vec![contact("u1", "Anna Maria", ""), contact("u2", "ANNA", ""), contact("u3", "Ärger", "")]);
    assert_eq!(resolve_username("anna", &n).unwrap(), "u2");
    assert_eq!(resolve_username("maria", &n).unwrap(), "u1");
    assert_eq!(resolve_username("äRG", &n).unwrap(), "u3");
    assert!(resolve_username("nobody", &n).is_none());
    assert_eq!(resolve_username("", &n).unwrap(), "u1");
}

#[test]
fn names_are_picked() {
    let list = vec!["abc".to_string(), "b".to_string()];
    assert_eq!(pick_name("b", &list), Some(1));
    assert_eq!(pick_name("c", &list), Some(0));
    assert_eq!(pick_name("d", &list), None);
}

#[test]
fn senders_are_labelled() {
    let mut ids: HashMap<i64, String> = HashMap::new();
    ids.insert(1, "alice".to_string());
    ids.insert(2, "room@chatroom".to_string());
    ids.insert(3, "stranger".to_string());
    let mut map = NameMap::new();
    map.insert("alice".to_string(), "Alice".to_string());
    let room = "room@chatroom";
    assert_eq!(sender_label(1, "x", true, room, &ids, &map), "Alice");
    assert_eq!(sender_label(3, "x", true, room, &ids, &map), "stranger");
    assert_eq!(sender_label(2, "alice:\nhi", true, room, &ids, &map), "Alice");
    assert_eq!(sender_label(9, "bob:\nhi", true, room, &ids, &map), "bob");
    assert_eq!(sender_label(9, "hi", true, room, &ids, &map), "");
    assert_eq!(sender_label(1, "x", false, "alice", &ids, &map), "");
    assert_eq!(sender_label(1, "x", false, "bob", &ids, &map), "Alice");
    assert_eq!(sender_label(9, "alice:\nhi", false, "bob", &ids, &map), "");
}

#[test]
fn names_are_cloned_whole() {
    let mut n = names(vec![contact("alice", "A", "")]);
    n.msg_db_keys.push("message/message_0.db".to_string());
    let copy = n.clone();
    assert_eq!(copy.display("alice"), "A");
    assert_eq!(copy.md5_to_uname.len(), 1);
    assert_eq!(copy.msg_db_keys, n.msg_db_keys);
}
