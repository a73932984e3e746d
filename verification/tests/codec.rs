use wechat_query::codec::{decompress_message, decompress_or_str, text_of_message, text_of_summary};

fn compressed(text: &[u8]) -> Vec<u8> {
    zstd::encode_all(text, 3).unwrap()
}

#[test]
fn plain_text_is_kept() {
    assert_eq!(decompress_message("你好".as_bytes(), 0), "你好");
    assert_eq!(decompress_message(b"", 4), "");
    assert_eq!(decompress_message(b"not a frame", 4), "not a frame");
    assert_eq!(decompress_or_str("你好".as_bytes()), "你好");
    assert_eq!(decompress_or_str(b""), "");
}

#[test]
fn compressed_text_is_read() {
    let data = compressed("压缩的消息".as_bytes());
    assert_eq!(decompress_message(&data, 4), "压缩的消息");
    assert_eq!(decompress_or_str(&data), "压缩的消息");
    assert_eq!(decompress_message(&data, 0), String::from_utf8_lossy(&data));
}

#[test]
fn broken_text_is_marked() {
    assert_eq!(decompress_message(b"a\xffb", 0), "a\u{fffd}b");
    assert_eq!(decompress_or_str(b"a\xffb"), "a\u{fffd}b");
    let data = compressed(b"a\xffb");
    assert_eq!(decompress_message(&data, 4), "a\u{fffd}b");
    assert_eq!(decompress_or_str(&data), String::from_utf8_lossy(&data));
}

#[test]
fn text_from_what_decompression_gave() {
    assert_eq!(text_of_message(b"raw", Some(b"dec".to_vec())), "dec");
    assert_eq!(text_of_message(b"raw", None), "raw");
    assert_eq!(text_of_summary(b"raw", Some(b"dec".to_vec())), "dec");
    assert_eq!(text_of_summary(b"raw", Some(b"\xff".to_vec())), "raw");
    assert_eq!(text_of_summary(b"raw", None), "raw");
}
