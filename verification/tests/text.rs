use wechat_query::digits::{decimal_text, hex_text};
use wechat_query::text::replace;
use wechat_query::words::{is_white, squeeze, trim};

#[test]
fn white_space_is_what_std_calls_white_space() {
    for n in 0..=0x10FFFFu32 {
        if let Some(c) = char::from_u32(n) {
            assert_eq!(is_white(c), c.is_whitespace());
        }
    }
}

#[test]
fn decimal_and_hex() {
    assert_eq!(decimal_text(i64::MIN), i64::MIN.to_string());
    assert_eq!(hex_text(&[0, 0xab, 0xff]), "00abff");
    assert_eq!(replace("aaa", "aa", "b"), "ba");
    assert_eq!(squeeze("  a \n b "), "a b");
    assert_eq!(trim(" \u{3000}x y\t"), "x y");
}
