use goose_http::date::{current_time, date_from_str, elapsed_nanos, time_since};

#[test]
fn three_date_formats() {
    let a = date_from_str("Sun, 06 Nov 1994 08:49:37 GMT").unwrap();
    assert_eq!((a.year, a.mon, a.mday, a.hour, a.min, a.sec, a.utcoff), (94, 10, 6, 8, 49, 37, 0));
    let b = date_from_str("Sunday, 06-Nov-94 08:49:37 GMT").unwrap();
    assert_eq!((b.mon, b.mday, b.hour), (10, 6, 8));
    let c = date_from_str("Sun Nov  6 08:49:37 1994").unwrap();
    assert_eq!((c.year, c.mon, c.mday, c.sec), (94, 10, 6, 37));
    assert_eq!(date_from_str("yesterday"), Err("Unable to parse date"));
}

#[test]
fn time_since_a_date() {
    let d = date_from_str("Sun, 06 Nov 1994 08:49:37 GMT").unwrap();
    assert_eq!(time_since(784_111_777, 0, &d), Some(0));
    assert_eq!(time_since(784_111_778, 5, &d), Some(1_000_000_005));
    assert_eq!(time_since(784_111_776, 999_999_999, &d), None);
}

#[test]
fn response_date_is_written_in_gmt() {
    assert_eq!(current_time(0), "Thu, 1 Jan 1970 00:00:00 GMT");
    assert_eq!(current_time(784_111_777), "Sun, 6 Nov 1994 08:49:37 GMT");
}

#[test]
fn dates_before_the_epoch_are_written_too() {
    assert_eq!(current_time(-86_400), "Wed, 31 Dec 1969 00:00:00 GMT");
    assert_eq!(current_time(goose_http::date::LAST_RFC2822_SECOND), "Fri, 31 Dec 9999 23:59:59 GMT");
    assert_eq!(current_time(goose_http::date::FIRST_RFC2822_SECOND), "Sat, 1 Jan 0000 00:00:00 GMT");
}

#[test]
fn elapsed_nanoseconds_between_time_stamps() {
    assert_eq!(elapsed_nanos(10, 5, 8, 7), Some(1_999_999_998));
    assert_eq!(elapsed_nanos(10, 1, 10, 1), Some(0));
    assert_eq!(elapsed_nanos(10, 0, 10, 1), None);
    assert_eq!(elapsed_nanos(8, 0, 10, 0), None);
    assert_eq!(elapsed_nanos(i64::MAX, 0, 0, 0), None);
    assert_eq!(elapsed_nanos(9_223_372_036_854_775, 0, 0, 0), Some(9_223_372_036_854_775_000_000_000));
}
