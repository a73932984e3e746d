use chrono::{Local, TimeZone};
use wechat_query::clock::{fmt_time, time_or_seconds};

#[test]
fn local_time_is_shown() {
    for ts in [0, -1, 1_700_000_000, 951_782_400, 8_210_266_876_799, -8_334_601_228_800] {
        for layout in ["%m-%d %H:%M", "%Y-%m-%d %H:%M"] {
            let time = Local.timestamp_opt(ts, 0).single().unwrap();
            assert_eq!(fmt_time(ts, layout), time.format(layout).to_string());
        }
    }
}

#[test]
fn seconds_outside_the_calendar() {
    for ts in [8_210_266_876_800, -8_334_601_228_801, i64::MAX, i64::MIN] {
        assert_eq!(fmt_time(ts, "%m-%d %H:%M"), ts.to_string());
    }
}

#[test]
fn local_time_or_seconds() {
    assert_eq!(time_or_seconds(7, Some("noon".to_string())), "noon");
    assert_eq!(time_or_seconds(-7, None), "-7");
}
