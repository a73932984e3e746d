use wechat_query::rows::{
    get_content_bytes, get_integer, get_text, load_id2u, message_rows, single_integer, SqlValue,
};

fn text(s: &str) -> SqlValue {
    SqlValue::Text(s.as_bytes().to_vec())
}

#[test]
fn columns_are_read_by_type() {
    let row = [
        SqlValue::Null,
        SqlValue::Integer(-5),
        SqlValue::Real,
        text("t"),
        SqlValue::Blob(vec![1, 2]),
        SqlValue::Text(vec![0xff]),
    ];
    let ints: Vec<Option<i64>> = (0..7).map(|i| get_integer(&row, i)).collect();
    assert_eq!(ints, vec![None, Some(-5), None, None, None, None, None]);
    let texts: Vec<Option<String>> = (0..7).map(|i| get_text(&row, i)).collect();
    assert_eq!(texts, vec![None, None, None, Some("t".to_string()), None, None, None]);
    let bytes: Vec<Vec<u8>> = (0..7).map(|i| get_content_bytes(&row, i)).collect();
    let none: Vec<u8> = Vec::new();
    assert_eq!(
        bytes,
        vec![none.clone(), none.clone(), none.clone(), b"t".to_vec(), vec![1, 2], none.clone(), none]
    );
}

#[test]
fn rows_that_hold_no_message_are_passed_over() {
    let int = |n: i64| SqlValue::Integer(n);
    let rows = vec![
        vec![int(1), int(2), int(3), int(4), text("a"), int(0)],
        vec![int(1), int(2), SqlValue::Null, int(4), text("b"), int(0)],
        vec![int(5), int(6), int(7), int(8), SqlValue::Null, SqlValue::Null],
    ];
    let found = message_rows(&rows);
    assert_eq!(found.len(), 2);
    assert_eq!(found[0].local_id, 1);
    assert_eq!(found[0].content, b"a".to_vec());
    assert_eq!((found[1].local_id, found[1].local_type), (5, 6));
    assert_eq!((found[1].timestamp, found[1].real_sender_id), (7, 8));
    assert!(found[1].content.is_empty());
    assert_eq!(found[1].ct, 0);
}

#[test]
fn sender_ids_are_loaded() {
    let rows = vec![
        vec![SqlValue::Integer(1), text("a")],
        vec![SqlValue::Integer(2), SqlValue::Null],
        vec![SqlValue::Null, text("x")],
        vec![SqlValue::Integer(1), text("b")],
    ];
    let ids = load_id2u(&rows);
    assert_eq!(ids.len(), 1);
    assert_eq!(ids[&1], "b");
}

#[test]
fn a_single_integer_may_be_missing() {
    assert_eq!(single_integer(Some(vec![SqlValue::Integer(9)])), Some(9));
    assert_eq!(single_integer(Some(vec![SqlValue::Null])), None);
    assert_eq!(single_integer(Some(vec![text("9")])), None);
    assert_eq!(single_integer(None), None);
}
