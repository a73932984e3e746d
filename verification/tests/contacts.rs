use wechat_query::contacts::{is_text_before, matches_query, q_contacts, ContactList};
use wechat_query::name_map::NameMap;
use wechat_query::names::Names;

fn names(pairs: &[(&str, &str)]) -> Names {
    let mut map = NameMap::new();
    for (username, display) in pairs {
        map.insert(username.to_string(), display.to_string());
    }
    Names { map, md5_to_uname: NameMap::new(), msg_db_keys: Vec::new() }
}

fn listed(list: &ContactList) -> Vec<(&str, &str)> {
    list.contacts.iter().map(|c| (c.username.as_str(), c.display.as_str())).collect()
}

const PAIRS: [(&str, &str); 6] = [
    ("u1", "Zoe"),
    ("gh_news", "News"),
    ("u2", "adam"),
    ("biz_shop", "Shop"),
    ("Bella_x", "Ann"),
    ("u4", "Zoe"),
];

#[test]
fn contacts_are_listed_by_name() {
    let n = names(&PAIRS);
    let list = q_contacts(&n, None, 10);
    assert_eq!(list.total, 4);
    assert_eq!(listed(&list), vec![("Bella_x", "Ann"), ("u1", "Zoe"), ("u4", "Zoe"), ("u2", "adam")]);
}

#[test]
fn a_query_narrows_the_list() {
    let n = names(&PAIRS);
    let list = q_contacts(&n, Some("BELLA"), 10);
    assert_eq!((list.total, listed(&list)), (1, vec![("Bella_x", "Ann")]));
    let list = q_contacts(&n, Some("zoe"), 1);
    assert_eq!((list.total, listed(&list)), (2, vec![("u1", "Zoe")]));
    let list = q_contacts(&n, Some("news"), 10);
    assert_eq!((list.total, list.contacts.len()), (0, 0));
    assert_eq!(q_contacts(&n, Some(""), 0).total, 4);
}

#[test]
fn names_listed_do_not_depend_on_the_order() {
    let mut reversed = PAIRS;
    reversed.reverse();
    let a = q_contacts(&names(&PAIRS), None, 10);
    let b = q_contacts(&names(&reversed), None, 10);
    let shown = |l: &ContactList| -> Vec<String> { l.contacts.iter().map(|c| c.display.clone()).collect() };
    assert_eq!(shown(&a), shown(&b));
}

#[test]
fn text_is_ordered_as_strings_are() {
    let texts = ["", "a", "ab", "b", "Z", "é", "中", "\u{ffff}", "\u{10000}"];
    for a in texts {
        for b in texts {
            assert_eq!(is_text_before(a, b), a < b);
        }
    }
}

#[test]
fn queries_match_either_name() {
    assert!(matches_query("b", "abc", "x"));
    assert!(matches_query("b", "x", "abc"));
    assert!(!matches_query("b", "x", "y"));
}

#[test]
fn empty_query_lists_what_no_query_lists() {
    let n = names(&PAIRS);
    for limit in 0..6 {
        let a = q_contacts(&n, Some(""), limit);
        let b = q_contacts(&n, None, limit);
        assert_eq!((a.total, listed(&a)), (b.total, listed(&b)));
    }
}

#[test]
fn smaller_limit_lists_the_first() {
    let n = names(&PAIRS);
    let all = q_contacts(&n, None, 9);
    for limit in 0..6 {
        let some = q_contacts(&n, None, limit);
        assert_eq!(some.total, all.total);
        assert_eq!(listed(&some), listed(&all)[..limit.min(all.total)].to_vec());
    }
}
