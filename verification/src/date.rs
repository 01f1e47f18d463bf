//! Dates in HTTP headers: reading them with the `time` crate, turning them
//! into seconds since the epoch, and writing the `Date` of a response with
//! `chrono`.
use vstd::prelude::*;
use crate::text::{replace_all, replace_str};

verus! {

/// A broken-down time, as `time::Tm` holds it.
#[derive(Debug, Clone, Copy, PartialEq, Eq, Structural)]
pub struct HttpDate {
    pub sec: i32,
    pub min: i32,
    pub hour: i32,
    pub mday: i32,
    pub mon: i32,
    pub year: i32,
    pub wday: i32,
    pub yday: i32,
    pub isdst: i32,
    pub utcoff: i32,
    pub nsec: i32,
}

/// What `time::strptime(s, fmt)` returns: the broken-down time, or `None`
/// where it gives an error.
pub uninterp spec fn strptime_result(s: Seq<char>, fmt: Seq<char>) -> Option<HttpDate>;

/// Parses `s` with `time::strptime` and the format `fmt`, one of the three
/// HTTP date formats (others, such as `%s`, can panic in the crate). The contract names
/// the result `strptime_result` and adds two facts that the crate's source
/// shows: the parse starts from a time whose offset from UTC and nanoseconds
/// are zero; only the `z` conversion sets a non-zero offset and only the `f`
/// conversion sets nanoseconds (`s` sets both to zero).
#[verifier::external_body]
fn strptime(s: &str, fmt: &str) -> (r: Option<HttpDate>)
    requires
        fmt@ == RFC1123_FORMAT@ || fmt@ == RFC850_FORMAT@ || fmt@ == ASCTIME_FORMAT@,
    ensures
        r == strptime_result(s@, fmt@),
        r matches Some(d) ==> (!fmt@.contains('z') ==> d.utcoff == 0),
        r matches Some(d) ==> (!fmt@.contains('f') ==> d.nsec == 0),
{
    match time::strptime(s, fmt) {
        Ok(t) => Some(HttpDate {
            sec: t.tm_sec, min: t.tm_min, hour: t.tm_hour, mday: t.tm_mday, mon: t.tm_mon,
            year: t.tm_year, wday: t.tm_wday, yday: t.tm_yday, isdst: t.tm_isdst,
            utcoff: t.tm_utcoff, nsec: t.tm_nsec,
        }),
        Err(_) => None,
    }
}

/// The RFC 1123 date format.
pub const RFC1123_FORMAT: &'static str = "%a, %d %b %Y %T %Z";

/// The RFC 850 date format.
pub const RFC850_FORMAT: &'static str = "%A, %d-%b-%y %T %Z";

/// The format of C's `asctime`.
pub const ASCTIME_FORMAT: &'static str = "%c";

/// The date that `s` writes in the first of the three HTTP date formats that
/// reads it.
pub open spec fn parsed_date(s: Seq<char>) -> Option<HttpDate> {
    match strptime_result(s, RFC1123_FORMAT@) {
        Some(d) => Some(d),
        None => match strptime_result(s, RFC850_FORMAT@) {
            Some(d) => Some(d),
            None => strptime_result(s, ASCTIME_FORMAT@),
        },
    }
}

/// A date as an HTTP header writes it, in the RFC 1123, RFC 850 or `asctime`
/// format, tried in that order.
pub fn date_from_str(s: &str) -> (r: Result<HttpDate, &'static str>)
    ensures
        match parsed_date(s@) {
            Some(d) => r == Ok::<HttpDate, &'static str>(d),
            None => r matches Err(e) && e@ == "Unable to parse date"@,
        },
        r matches Ok(d) ==> d.utcoff == 0 && d.nsec == 0,
{
    proof {
        reveal_strlit("%a, %d %b %Y %T %Z");
        reveal_strlit("%A, %d-%b-%y %T %Z");
        reveal_strlit("%c");
        assert(!RFC1123_FORMAT@.contains('z'));
        assert(!RFC1123_FORMAT@.contains('f'));
        assert(!RFC850_FORMAT@.contains('z'));
        assert(!RFC850_FORMAT@.contains('f'));
        assert(!ASCTIME_FORMAT@.contains('z'));
        assert(!ASCTIME_FORMAT@.contains('f'));
    }
    match strptime(s, RFC1123_FORMAT) {
        Some(d) => Ok(d),
        None => match strptime(s, RFC850_FORMAT) {
            Some(d) => Ok(d),
            None => match strptime(s, ASCTIME_FORMAT) {
                Some(d) => Ok(d),
                None => Err("Unable to parse date"),
            },
        },
    }
}

/// The seconds since the epoch that `time::Tm::to_timespec` computes for a
/// broken-down UTC time (with the C library's `timegm`).
pub uninterp spec fn utc_seconds(d: HttpDate) -> i64;

/// Converts a broken-down UTC time to a time stamp with
/// `time::Tm::to_timespec`. Where the offset from UTC is zero, the crate's
/// source computes the seconds with `timegm` and keeps the nanoseconds; the
/// contract names the seconds `utc_seconds`.
#[verifier::external_body]
fn utc_timespec(d: &HttpDate) -> (r: (i64, i32))
    requires
        d.utcoff == 0,
        0 <= d.nsec < 1_000_000_000,
    ensures
        r.0 == utc_seconds(*d),
        r.1 == d.nsec,
{
    let tm = time::Tm {
        tm_sec: d.sec, tm_min: d.min, tm_hour: d.hour, tm_mday: d.mday, tm_mon: d.mon,
        tm_year: d.year, tm_wday: d.wday, tm_yday: d.yday, tm_isdst: d.isdst,
        tm_utcoff: d.utcoff, tm_nsec: d.nsec,
    };
    let ts = tm.to_timespec();
    (ts.sec, ts.nsec)
}

/// Nanoseconds in a second.
pub const NANOS: i128 = 1_000_000_000;

/// The largest number of seconds that a `time::Duration` holds.
pub const MAX_DURATION_SECS: i128 = 9_223_372_036_854_775;

/// How long after the date `d` the time stamp `(now_sec, now_nsec)` lies, in
/// nanoseconds.
pub open spec fn nanos_since(now_sec: i64, now_nsec: i32, d: HttpDate) -> int {
    (now_sec - utc_seconds(d)) * 1_000_000_000 + (now_nsec - d.nsec)
}

/// The time stamp lies after the date, and `time` can hold the difference
/// in seconds.
pub open spec fn difference_fits(now_sec: i64, d: HttpDate) -> bool {
    -MAX_DURATION_SECS <= now_sec - utc_seconds(d) <= MAX_DURATION_SECS
}

/// How many nanoseconds lie between the time stamps `(sec, nsec)` and
/// `(now_sec, now_nsec)`, as `(now - then).to_std()` computes it: `None` where
/// the difference in seconds is beyond what a `time::Duration` holds, or the
/// difference is negative.
pub fn elapsed_nanos(now_sec: i64, now_nsec: i32, sec: i64, nsec: i32) -> (r: Option<u128>)
    ensures
        r matches Some(n) ==> -MAX_DURATION_SECS <= now_sec - sec <= MAX_DURATION_SECS
            && n == (now_sec - sec) * 1_000_000_000 + (now_nsec - nsec),
        r is None ==> !(-MAX_DURATION_SECS <= now_sec - sec <= MAX_DURATION_SECS)
            || (now_sec - sec) * 1_000_000_000 + (now_nsec - nsec) < 0,
{
    let ds: i128 = now_sec as i128 - sec as i128;
    if ds < -MAX_DURATION_SECS || ds > MAX_DURATION_SECS {
        return None;
    }
    let total: i128 = ds * NANOS + (now_nsec as i128 - nsec as i128);
    if total < 0 {
        None
    } else {
        Some(total as u128)
    }
}

/// How long ago, at the time stamp `(now_sec, now_nsec)`, the date `d` was, as
/// `(now - d.to_timespec()).to_std()` computes it: `None` where the date lies
/// in the future or the difference is beyond what `time::Duration` holds.
pub fn time_since(now_sec: i64, now_nsec: i32, d: &HttpDate) -> (r: Option<u128>)
    requires
        d.utcoff == 0,
        0 <= d.nsec < 1_000_000_000,
        0 <= now_nsec < 1_000_000_000,
    ensures
        r matches Some(n) ==> difference_fits(now_sec, *d) && n == nanos_since(now_sec, now_nsec, *d),
        r is None ==> !difference_fits(now_sec, *d) || nanos_since(now_sec, now_nsec, *d) < 0,
{
    let (sec, nsec) = utc_timespec(d);
    elapsed_nanos(now_sec, now_nsec, sec, nsec)
}

/// The RFC 2822 form of the UTC time `secs` seconds after the epoch, as
/// `chrono::DateTime::to_rfc2822` writes it.
pub uninterp spec fn rfc2822_text(secs: i64) -> Seq<char>;

/// The first second that RFC 2822 can write (the start of the year 0).
pub const FIRST_RFC2822_SECOND: i64 = -62_167_219_200;

/// The last second that RFC 2822 can write (the end of the year 9999).
pub const LAST_RFC2822_SECOND: i64 = 253_402_300_799;

/// Writes the UTC time `secs` seconds after the epoch with
/// `chrono::DateTime::from_timestamp` and `DateTime::to_rfc2822`. The crate
/// documents a panic for years before 0 and after 9999, which `requires`
/// leaves out; within them `from_timestamp` gives a date, so its `None` arm is
/// never taken.
#[verifier::external_body]
fn rfc2822_utc(secs: i64) -> (r: String)
    requires
        FIRST_RFC2822_SECOND <= secs <= LAST_RFC2822_SECOND,
    ensures
        r@ == rfc2822_text(secs),
{
    match chrono::DateTime::from_timestamp(secs, 0) {
        Some(d) => d.to_rfc2822(),
        None => String::new(),
    }
}

/// The `Date` value of a response sent `secs` seconds after the epoch: the
/// RFC 2822 form of that UTC time, with `+0000` written as `GMT`.
pub fn current_time(secs: i64) -> (r: String)
    requires
        FIRST_RFC2822_SECOND <= secs <= LAST_RFC2822_SECOND,
    ensures
        r@ == replace_all(rfc2822_text(secs), "+0000"@, "GMT"@),
{
    let t = rfc2822_utc(secs);
    proof {
        reveal_strlit("+0000");
    }
    replace_str(t.as_str(), "+0000", "GMT")
}

} // verus!
