use phototools::date::{Timestamp, parse_timestamp, format_timestamp, date_string};

fn ts(year: u64, month: u64, day: u64, hour: u64, minute: u64, second: u64) -> Timestamp {
    Timestamp { year, month, day, hour, minute, second }
}

#[test]
fn parse_accepts_well_formed() {
    assert_eq!(Some(ts(2019, 5, 1, 17, 40, 16)), parse_timestamp("2019-05-01 17:40:16"));
    assert_eq!(Some(ts(0, 1, 1, 0, 0, 0)), parse_timestamp("0000-01-01 00:00:00"));
    assert_eq!(Some(ts(9999, 12, 31, 23, 59, 59)), parse_timestamp("9999-12-31 23:59:59"));
}

#[test]
fn parse_rejects_bad_shape() {
    assert_eq!(None, parse_timestamp(""));
    assert_eq!(None, parse_timestamp("2019-05-01"));
    assert_eq!(None, parse_timestamp("2019-05-01T17:40:16"));
    assert_eq!(None, parse_timestamp("2019-05-01 17:40:16Z"));
    assert_eq!(None, parse_timestamp("2019-05-0a 17:40:16"));
}

#[test]
fn parse_rejects_bad_calendar() {
    assert_eq!(None, parse_timestamp("2019-13-01 00:00:00"));
    assert_eq!(None, parse_timestamp("2019-00-01 00:00:00"));
    assert_eq!(None, parse_timestamp("2019-04-31 00:00:00"));
    assert_eq!(None, parse_timestamp("2019-01-00 00:00:00"));
    assert_eq!(None, parse_timestamp("2019-01-01 24:00:00"));
    assert_eq!(None, parse_timestamp("2019-01-01 00:60:00"));
    assert_eq!(None, parse_timestamp("2019-01-01 00:00:60"));
}

#[test]
fn leap_years_follow_the_gregorian_rule() {
    assert_eq!(Some(ts(2020, 2, 29, 0, 0, 0)), parse_timestamp("2020-02-29 00:00:00"));
    assert_eq!(Some(ts(2000, 2, 29, 0, 0, 0)), parse_timestamp("2000-02-29 00:00:00"));
    assert_eq!(None, parse_timestamp("2019-02-29 00:00:00"));
    assert_eq!(None, parse_timestamp("1900-02-29 00:00:00"));
    assert_eq!(Some(ts(2019, 2, 28, 1, 2, 3)), parse_timestamp("2019-02-28 01:02:03"));
}

#[test]
fn format_and_parse_agree() {
    let t = ts(2017, 7, 1, 13, 0, 0);
    assert_eq!("2017-07-01 13:00:00", format_timestamp(&t));
    assert_eq!("2017-07-01", date_string(&t));
    assert_eq!(Some(t), parse_timestamp(&format_timestamp(&t)));
}
