//! Times as they are shown.

use chrono::TimeZone;
use vstd::prelude::*;

use crate::digits::{decimal, decimal_nat, decimal_text, digit};

verus! {

// ---------------------------------------------------------------------------
// The calendar

/// Year `y` of the Gregorian calendar is a leap year.
pub open spec fn is_leap(y: int) -> bool {
    y % 4 == 0 && (y % 100 != 0 || y % 400 == 0)
}

/// The days of month `m` of year `y`.
pub open spec fn days_in_month(y: int, m: int) -> int {
    if m == 2 {
        if is_leap(y) {
            29
        } else {
            28
        }
    } else if m == 4 || m == 6 || m == 9 || m == 11 {
        30
    } else {
        31
    }
}

/// The days of year `y` before month `m`.
pub open spec fn days_before_month(y: int, m: int) -> int
    decreases m,
{
    if m <= 1 {
        0
    } else {
        days_before_month(y, m - 1) + days_in_month(y, m - 1)
    }
}

/// The leap years after year 0 and before year `y`, counted backwards if `y`
/// lies before.
pub open spec fn leap_years_before(y: int) -> int {
    (y - 1) / 4 - (y - 1) / 100 + (y - 1) / 400
}

/// The number of a day, counted from 1 January 1970.
pub open spec fn day_number(y: int, m: int, d: int) -> int {
    365 * (y - 1970) + leap_years_before(y) - leap_years_before(1970) + days_before_month(y, m) + d
        - 1
}

/// Day `day`, counted from 1 January 1970, has the date `y`-`m`-`d`.
pub open spec fn is_date(day: int, y: int, m: int, d: int) -> bool {
    1 <= m <= 12 && 1 <= d <= days_in_month(y, m) && day == day_number(y, m, d)
}

// ---------------------------------------------------------------------------
// Layouts

/// A value below one hundred in two digits.
pub open spec fn two_digits(n: int) -> Seq<char> {
    seq![digit(n / 10), digit(n % 10)]
}

/// A natural number in at least four digits.
pub open spec fn four_digits(n: nat) -> Seq<char> {
    if n < 10 {
        seq!['0', '0', '0'] + decimal_nat(n)
    } else if n < 100 {
        seq!['0', '0'] + decimal_nat(n)
    } else if n < 1000 {
        seq!['0'] + decimal_nat(n)
    } else {
        decimal_nat(n)
    }
}

/// A year in at least four digits; years outside 0 to 9999 have a sign.
pub open spec fn year_text(y: int) -> Seq<char> {
    if y < 0 {
        seq!['-'] + four_digits((-y) as nat)
    } else if y > 9999 {
        seq!['+'] + four_digits(y as nat)
    } else {
        four_digits(y as nat)
    }
}

/// A date and time of day as `01-31 23:59`.
pub open spec fn short_layout(m: int, d: int, hour: int, minute: int) -> Seq<char> {
    two_digits(m) + seq!['-'] + two_digits(d) + seq![' '] + two_digits(hour) + seq![':']
        + two_digits(minute)
}

/// Whether `fmt` is the layout without the year.
pub open spec fn is_short(fmt: Seq<char>) -> bool {
    fmt == "%m-%d %H:%M"@
}

/// Whether `fmt` is the layout with the year.
pub open spec fn is_long(fmt: Seq<char>) -> bool {
    fmt == "%Y-%m-%d %H:%M"@
}

/// A date and time of day in one of the two layouts.
pub open spec fn laid_out(fmt: Seq<char>, y: int, m: int, d: int, hour: int, minute: int) -> Seq<
    char,
> {
    if is_short(fmt) {
        short_layout(m, d, hour, minute)
    } else {
        year_text(y) + seq!['-'] + short_layout(m, d, hour, minute)
    }
}

/// `text` shows the second `t`, counted from the start of 1970.
pub open spec fn shows_second(text: Seq<char>, fmt: Seq<char>, t: int) -> bool {
    exists|y: int, m: int, d: int| #[trigger]
        is_date(t / 86400, y, m, d) && text == laid_out(
            fmt,
            y,
            m,
            d,
            (t % 86400) / 3600,
            (t % 3600) / 60,
        )
}

/// `text` shows the time stamp `ts` in some time zone.
pub open spec fn shows_time(text: Seq<char>, fmt: Seq<char>, ts: int) -> bool {
    exists|offset: int| -86400 < offset < 86400 && #[trigger] shows_second(text, fmt, ts + offset)
}

// ---------------------------------------------------------------------------
// Time stamps

/// The time stamps that lie in the calendar of the clock: from the start of the
/// year -262143 to the end of the year 262142.
pub open spec fn in_calendar(ts: int) -> bool {
    -8334601228800 <= ts <= 8210266876799
}

/// `Local.timestamp_opt(ts, 0).single()`, and `DateTime::format` on what it
/// gives, in one of the two layouts. There is a time for every time stamp in
/// the calendar, and for no other; it shows the time stamp in the time zone of
/// the machine. Which zone that is, and what offset it has, is not stated; it is
/// taken to be less than a day from UTC, which chrono does not do without.
#[verifier::external_body]
fn local_time(ts: i64, fmt: &str) -> (text: Option<String>)
    requires
        is_short(fmt@) || is_long(fmt@),
    ensures
        match text {
            Some(s) => in_calendar(ts as int) && shows_time(s@, fmt@, ts as int),
            None => !in_calendar(ts as int),
        },
{
    let time = chrono::Local.timestamp_opt(ts, 0).single()?;
    Some(time.format(fmt).to_string())
}

/// The text for a time stamp, given its local time: the local time, or the
/// number of seconds if there is none.
pub open spec fn time_text(ts: int, local: Option<Seq<char>>) -> Seq<char> {
    match local {
        Some(s) => s,
        None => decimal(ts),
    }
}

/// The text for a time stamp, given its local time.
pub fn time_or_seconds(ts: i64, local: Option<String>) -> (text: String)
    ensures
        text@ == time_text(ts as int, crate::text::opt_text(local)),
{
    match local {
        Some(s) => s,
        None => decimal_text(ts),
    }
}

/// `text` is what a time stamp is shown as: a local time if the time stamp lies
/// in the calendar, the number of seconds otherwise.
pub open spec fn is_time_text(text: Seq<char>, fmt: Seq<char>, ts: int) -> bool {
    if in_calendar(ts) {
        shows_time(text, fmt, ts)
    } else {
        text == decimal(ts)
    }
}

/// What a time stamp is shown as. Inside the calendar the result depends on the
/// time zone of the machine.
pub fn fmt_time(ts: i64, fmt: &str) -> (text: String)
    requires
        is_short(fmt@) || is_long(fmt@),
    ensures
        is_time_text(text@, fmt@, ts as int),
{
    let local = local_time(ts, fmt);
    time_or_seconds(ts, local)
}

// ---------------------------------------------------------------------------
// Laws

/// A time stamp is shown as a time of the clock from the start of the year
/// -262143 to the end of the year 262142, and as its number outside.
pub proof fn time_stamps_are_shown_by_the_clock(text: Seq<char>, fmt: Seq<char>, ts: int)
    ensures
        -8334601228800 <= ts <= 8210266876799 ==> (is_time_text(text, fmt, ts) <==> exists|
            offset: int,
        |
            -86400 < offset < 86400 && #[trigger] shows_second(text, fmt, ts + offset)),
        ts < -8334601228800 || ts > 8210266876799 ==> (is_time_text(text, fmt, ts) <==> text
            == decimal(ts)),
        time_text(ts, None) == decimal(ts),
        time_text(ts, Some(text)) == text,
{
}

/// The number that two digits show.
pub open spec fn pair_value(text: Seq<char>, i: int) -> int {
    10 * (text[i] as int - '0' as int) + (text[i + 1] as int - '0' as int)
}

/// A time without the year shows month, day, hour and minute in two digits each,
/// as `01-31 23:59`.
pub proof fn short_times_show_day_and_minute(text: Seq<char>, t: int)
    requires
        shows_second(text, "%m-%d %H:%M"@, t),
    ensures
        text.len() == 11,
        text[2] == '-' && text[5] == ' ' && text[8] == ':',
        exists|y: int| #[trigger] is_date(t / 86400, y, pair_value(text, 0), pair_value(text, 3)),
        pair_value(text, 6) == t % 86400 / 3600,
        pair_value(text, 9) == t % 3600 / 60,
{
    let (y, m, d) = choose|y: int, m: int, d: int| #[trigger]
        is_date(t / 86400, y, m, d) && text == laid_out(
            "%m-%d %H:%M"@,
            y,
            m,
            d,
            (t % 86400) / 3600,
            (t % 3600) / 60,
        );
    assert(pair_value(text, 0) == m);
    assert(pair_value(text, 3) == d);
    assert(is_date(t / 86400, y, pair_value(text, 0), pair_value(text, 3)));
}

/// A time with the year shows the year, a hyphen, and then what a time without
/// it shows.
pub proof fn long_times_show_the_year(text: Seq<char>, t: int)
    requires
        shows_second(text, "%Y-%m-%d %H:%M"@, t),
    ensures
        text.len() >= 16,
        exists|y: int, m: int, d: int|
            {
                &&& #[trigger] is_date(t / 86400, y, m, d)
                &&& text.take(text.len() - 12) == year_text(y)
                &&& text[text.len() - 12] == '-'
                &&& pair_value(text, text.len() - 11) == m
                &&& pair_value(text, text.len() - 8) == d
            },
        text[text.len() - 6] == ' ' && text[text.len() - 3] == ':',
        pair_value(text, text.len() - 5) == t % 86400 / 3600,
        pair_value(text, text.len() - 2) == t % 3600 / 60,
{
    let (y, m, d) = choose|y: int, m: int, d: int| #[trigger]
        is_date(t / 86400, y, m, d) && text == laid_out(
            "%Y-%m-%d %H:%M"@,
            y,
            m,
            d,
            (t % 86400) / 3600,
            (t % 3600) / 60,
        );
    reveal_strlit("%Y-%m-%d %H:%M");
    reveal_strlit("%m-%d %H:%M");
    assert("%Y-%m-%d %H:%M"@.len() != "%m-%d %H:%M"@.len());
    let minutes = short_layout(m, d, (t % 86400) / 3600, (t % 3600) / 60);
    assert(minutes.len() == 11);
    assert(text == year_text(y) + seq!['-'] + minutes);
    lemma_year_len(y);
    let n = text.len() as int;
    assert(forall|i: int| 0 <= i < 11 ==> text[n - 11 + i] == #[trigger] minutes[i]);
    assert(minutes[0] == digit(m / 10) && minutes[1] == digit(m % 10));
    assert(minutes[3] == digit(d / 10) && minutes[4] == digit(d % 10));
    assert(minutes[5] == ' ' && minutes[8] == ':');
    assert(minutes[6] == digit((t % 86400) / 3600 / 10));
    assert(minutes[7] == digit((t % 86400) / 3600 % 10));
    assert(minutes[9] == digit((t % 3600) / 60 / 10));
    assert(minutes[10] == digit((t % 3600) / 60 % 10));
    assert(pair_value(text, n - 11) == m);
    assert(pair_value(text, n - 8) == d);
    assert(pair_value(text, n - 5) == t % 86400 / 3600);
    assert(pair_value(text, n - 2) == t % 3600 / 60);
    assert(text.take(n - 12) =~= year_text(y));
    assert(is_date(t / 86400, y, m, d));
}

proof fn lemma_year_len(y: int)
    ensures
        year_text(y).len() >= 4,
{
    let n = (if y < 0 {
        -y
    } else {
        y
    }) as nat;
    reveal_with_fuel(decimal_nat, 4);
    if n >= 1000 {
        assert(decimal_nat(n).len() >= 4);
    }
}

} // verus!
