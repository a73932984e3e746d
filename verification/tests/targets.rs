use wechat_query::names::{load_names, Names};
use wechat_query::rows::SqlValue;
use wechat_query::targets::{
    chat_targets, group_by_path, resolve_chats, table_targets, SearchTarget,
};

fn text(s: &str) -> SqlValue {
    SqlValue::Text(s.as_bytes().to_vec())
}

fn names() -> Names {
    let rows = vec![
        vec![text("alice"), text("Alice"), text("")],
        vec![text("wxid_bob"), text("Bob"), text("")],
    ];
    match load_names(&rows) {
        Ok(names) => names,
        Err(_) => panic!("a contact has no user name"),
    }
}

fn parts(t: &SearchTarget) -> (&str, &str, &str, &str) {
    (t.path.as_str(), t.table.as_str(), t.display.as_str(), t.username.as_str())
}

#[test]
fn chats_that_stand_for_no_one_are_passed_over() {
    let chats = vec!["Bob".to_string(), "nobody".to_string(), "alice".to_string()];
    assert_eq!(resolve_chats(&names(), &chats), vec!["wxid_bob", "alice"]);
}

#[test]
fn targets_of_a_chat() {
    let tables = vec![("p1".to_string(), "t1".to_string()), ("p2".to_string(), "t2".to_string())];
    let targets = chat_targets(&names(), "alice", &tables);
    assert_eq!(targets.len(), 2);
    assert_eq!(parts(&targets[0]), ("p1", "t1", "Alice", "alice"));
    assert_eq!(parts(&targets[1]), ("p2", "t2", "Alice", "alice"));
}

#[test]
fn tables_lead_back_to_contacts() {
    let tables = vec![
        "Msg_6384e2b2184bcbf58eccf10ca7a6563c".to_string(),
        "Msg_Extra".to_string(),
        "Msg_d41d8cd98f00b204e9800998ecf8427e".to_string(),
        "Msg_8a7b11f2fd24e19a60664a5fe5d56342".to_string(),
    ];
    let targets = table_targets(&names(), "p", &tables);
    assert_eq!(targets.len(), 3);
    assert_eq!(parts(&targets[0]), ("p", tables[0].as_str(), "Alice", "alice"));
    assert_eq!(parts(&targets[1]), ("p", tables[2].as_str(), "", ""));
    assert_eq!(parts(&targets[2]), ("p", tables[3].as_str(), "Bob", "wxid_bob"));
}

#[test]
fn targets_are_grouped_by_path() {
    let target = |path: &str, table: &str| SearchTarget {
        path: path.to_string(),
        table: table.to_string(),
        display: String::new(),
        username: String::new(),
    };
    let groups = group_by_path(vec![target("b", "1"), target("a", "2"), target("b", "3")]);
    assert_eq!(groups.len(), 2);
    assert_eq!(groups[0].path, "b");
    let tables: Vec<&str> = groups[0].targets.iter().map(|t| t.table.as_str()).collect();
    assert_eq!(tables, vec!["1", "3"]);
    assert_eq!((groups[1].path.as_str(), groups[1].targets[0].table.as_str()), ("a", "2"));
    assert!(group_by_path(vec![]).is_empty());
}
