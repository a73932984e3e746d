use wechat_query::tables::{
    find_msg_tables, hash_of, is_msg_table, msg_table_name, table_of_digest,
};

#[test]
fn tables_are_named_by_hash() {
    assert_eq!(hash_of("alice"), "6384e2b2184bcbf58eccf10ca7a6563c");
    assert_eq!(hash_of(""), "d41d8cd98f00b204e9800998ecf8427e");
    assert_eq!(msg_table_name("12345@chatroom"), "Msg_1d37e1ab429f310fa42858f35c6fe134");
    assert_eq!(table_of_digest(&[0x0f, 0xa0]), "Msg_0fa0");
}

#[test]
fn message_tables_are_told_by_name() {
    assert!(is_msg_table("Msg_1d37e1ab429f310fa42858f35c6fe134"));
    assert!(!is_msg_table("Msg_1d37e1ab429f310fa42858f35c6fe13"));
    assert!(!is_msg_table("Msg_1d37e1ab429f310fa42858f35c6fe1345"));
    assert!(!is_msg_table("Msg_1D37E1AB429F310FA42858F35C6FE134"));
    assert!(!is_msg_table("Msg_1d37e1ab429f310fa42858f35c6fe134\n"));
    assert!(!is_msg_table("xMsg_1d37e1ab429f310fa42858f35c6fe134"));
    assert!(!is_msg_table("Msg_gd37e1ab429f310fa42858f35c6fe134"));
    assert!(!is_msg_table(""));
}

#[test]
fn tables_with_messages_come_latest_first() {
    let probes = vec![("a", Some(5)), ("b", None), ("c", Some(9)), ("d", Some(5)), ("e", Some(-1))];
    let found = find_msg_tables("alice", probes);
    let places: Vec<&str> = found.iter().map(|t| t.0).collect();
    assert_eq!(places, vec!["c", "a", "d", "e"]);
    for (_, table) in &found {
        assert_eq!(table, "Msg_6384e2b2184bcbf58eccf10ca7a6563c");
    }
    assert!(find_msg_tables("alice", vec![("a", None)]).is_empty());
}
