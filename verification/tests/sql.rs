use wechat_query::history::page_statement;
use wechat_query::search::hits_statement;
use wechat_query::sql::{
    contacts_sql, escape_like, history_statement, latest_sql, search_statement, senders_sql,
    sessions_statement, table_exists_statement, table_names_sql, SqlParam, Statement,
};

const COLUMNS: &str = "SELECT local_id, local_type, create_time, real_sender_id,\n                message_content, WCDB_CT_message_content\n         FROM ";

fn params(statement: &Statement) -> Vec<String> {
    statement
        .params
        .iter()
        .map(|p| match p {
            SqlParam::Integer(n) => n.to_string(),
            SqlParam::Text(t) => format!("'{}'", t),
        })
        .collect()
}

#[test]
fn history_without_range() {
    let s = history_statement("T", None, None, 20, 5);
    assert_eq!(s.sql, format!("{}[T]  ORDER BY create_time DESC LIMIT ? OFFSET ?", COLUMNS));
    assert_eq!(params(&s), vec!["20", "5"]);
}

#[test]
fn history_in_a_range() {
    let s = history_statement("T", Some(-3), Some(8), 20, 0);
    let range = "WHERE create_time >= ? AND create_time <= ?";
    assert_eq!(s.sql, format!("{}[T] {} ORDER BY create_time DESC LIMIT ? OFFSET ?", COLUMNS, range));
    assert_eq!(params(&s), vec!["-3", "8", "20", "0"]);
    let s = history_statement("T", None, Some(8), 20, 0);
    let range = "WHERE create_time <= ?";
    assert_eq!(s.sql, format!("{}[T] {} ORDER BY create_time DESC LIMIT ? OFFSET ?", COLUMNS, range));
    assert_eq!(params(&s), vec!["8", "20", "0"]);
}

#[test]
fn page_reads_the_latest_messages() {
    let s = page_statement("T", Some(1), None, 20, 5);
    assert_eq!(params(&s), vec!["1", "25", "0"]);
}

#[test]
fn wildcards_are_escaped() {
    assert_eq!(escape_like("50%_\\x"), "50\\%\\_\\\\x");
    assert_eq!(escape_like("你好"), "你好");
    assert_eq!(escape_like(""), "");
}

#[test]
fn search_in_a_range() {
    let s = search_statement("T", "a_b", Some(1), Some(2), 7);
    let range = "WHERE message_content LIKE ? ESCAPE '\\' AND create_time >= ? AND create_time <= ?";
    assert_eq!(s.sql, format!("{}[T] {} ORDER BY create_time DESC LIMIT ?", COLUMNS, range));
    assert_eq!(params(&s), vec!["'%a\\_b%'", "1", "2", "7"]);
    let s = hits_statement("T", "k", None, None, 7);
    assert_eq!(params(&s), vec!["'%k%'", "21"]);
}

#[test]
fn escaped_keyword_matches_literally() {
    let conn = rusqlite::Connection::open_in_memory().unwrap();
    let texts = ["50% off", "500 off", "a_b", "axb", "c\\d", "c\\\\d"];
    conn.execute("CREATE TABLE M (message_content TEXT)", []).unwrap();
    for t in texts {
        conn.execute("INSERT INTO M VALUES (?)", [t]).unwrap();
    }
    for (keyword, found) in [("50%", 1), ("a_b", 1), ("c\\d", 1), ("off", 2), ("\\\\", 1), ("%", 1)] {
        let s = search_statement("M", keyword, None, None, 1);
        let pattern = match &s.params[0] {
            SqlParam::Text(t) => t.clone(),
            SqlParam::Integer(_) => panic!("the first value is the pattern"),
        };
        let n: i64 = conn
            .query_row(
                "SELECT COUNT(*) FROM M WHERE message_content LIKE ? ESCAPE '\\'",
                [pattern],
                |row| row.get(0),
            )
            .unwrap();
        assert_eq!(n, found);
    }
}

#[test]
fn fixed_statements() {
    let s = sessions_statement(30);
    assert!(s.sql.starts_with("SELECT username, unread_count, summary, last_timestamp,\n"));
    assert!(s.sql.ends_with("WHERE last_timestamp > 0\n             ORDER BY last_timestamp DESC LIMIT ?"));
    assert_eq!(params(&s), vec!["30"]);
    assert_eq!(latest_sql("T"), "SELECT MAX(create_time) FROM [T]");
}

#[test]
fn statements_that_look_around() {
    assert_eq!(contacts_sql(), "SELECT username, nick_name, remark FROM contact");
    assert_eq!(senders_sql(), "SELECT rowid, user_name FROM Name2Id");
    let conn = rusqlite::Connection::open_in_memory().unwrap();
    conn.execute("CREATE TABLE Msg_a (x)", []).unwrap();
    conn.execute("CREATE TABLE Other (x)", []).unwrap();
    let name: String = conn.query_row(&table_names_sql(), [], |row| row.get(0)).unwrap();
    assert_eq!(name, "Msg_a");
    for (table, found) in [("Msg_a", true), ("Msg_b", false)] {
        let s = table_exists_statement(table);
        assert_eq!(params(&s), vec![format!("'{}'", table)]);
        let one: Result<i64, rusqlite::Error> = conn.query_row(&s.sql, [table], |row| row.get(0));
        assert_eq!(one.is_ok(), found);
    }
}

#[test]
fn placeholders_are_as_many_as_values() {
    let table = "Msg_1d37e1ab429f310fa42858f35c6fe134";
    for since in [None, Some(1)] {
        for until in [None, Some(2)] {
            let h = history_statement(table, since, until, 3, 4);
            assert_eq!(h.sql.matches('?').count(), h.params.len());
            let s = search_statement(table, "why?", since, until, 3);
            assert_eq!(s.sql.matches('?').count(), s.params.len());
        }
    }
}
