//! Dates and times of day as the logs write them, read through `time::strptime`.
use vstd::prelude::*;
use vstd::utf8::valid_utf8;

verus! {

/// The fields of a broken-down time as `time::Tm` holds them: the year counts
/// from 1900 and the month from 0.
#[derive(Clone, Copy, Debug, PartialEq, Eq, Structural)]
pub struct BrokenDown {
    pub year: i32,
    pub mon: i32,
    pub mday: i32,
    pub hour: i32,
    pub min: i32,
    pub sec: i32,
}

/// A time of day; `second` may be 60, a leap second.
#[derive(Clone, Copy, Debug, PartialEq, Eq, Structural)]
pub struct TimeOfDay {
    pub hour: u8,
    pub minute: u8,
    pub second: u8,
}

/// A calendar date as a log file's name gives it.
#[derive(Clone, Copy, Debug, PartialEq, Eq, Structural)]
pub struct LogDate {
    pub year: u16,
    pub month: u8,
    pub day: u8,
}

/// A log date joined with the time of day of one line.
#[derive(Clone, Copy, Debug, PartialEq, Eq, Structural)]
pub struct Timestamp {
    pub date: LogDate,
    pub time: TimeOfDay,
}

impl TimeOfDay {
    pub open spec fn wf(self) -> bool {
        self.hour <= 23 && self.minute <= 59 && self.second <= 60
    }
}

impl LogDate {
    /// Four digits of year, a month and a day of month; the day is not held to
    /// the length of its month.
    pub open spec fn wf(self) -> bool {
        self.year <= 9999 && 1 <= self.month <= 12 && 1 <= self.day <= 31
    }
}

impl Timestamp {
    pub open spec fn wf(self) -> bool {
        self.date.wf() && self.time.wf()
    }
}

pub open spec fn is_digit(b: u8) -> bool {
    48 <= b && b <= 57
}

pub open spec fn digit_value(b: u8) -> int {
    b as int - 48
}

/// A field of one or two digits, read as `%H`, `%M`, `%S`, `%m` and `%d` are
/// read: as many digits as stand there, up to two, whose value must lie in
/// `lo..=hi`. Gives the value and the number of bytes read.
pub open spec fn short_field(s: Seq<u8>, lo: int, hi: int) -> Option<(int, int)> {
    if s.len() >= 2 && is_digit(s[0]) && is_digit(s[1]) {
        let v = 10 * digit_value(s[0]) + digit_value(s[1]);
        if lo <= v && v <= hi {
            Some((v, 2))
        } else {
            None
        }
    } else if s.len() >= 1 && is_digit(s[0]) {
        let v = digit_value(s[0]);
        if lo <= v && v <= hi {
            Some((v, 1))
        } else {
            None
        }
    } else {
        None
    }
}

/// A `%Y` field: exactly four digits.
pub open spec fn year_field(s: Seq<u8>) -> Option<int> {
    if s.len() >= 4 && is_digit(s[0]) && is_digit(s[1]) && is_digit(s[2]) && is_digit(s[3]) {
        Some(
            1000 * digit_value(s[0]) + 100 * digit_value(s[1]) + 10 * digit_value(s[2])
                + digit_value(s[3]),
        )
    } else {
        None
    }
}

/// What follows the separator `c` at the start of `s`.
pub open spec fn after_sep(s: Seq<u8>, c: u8) -> Option<Seq<u8>> {
    if s.len() >= 1 && s[0] == c {
        Some(s.skip(1))
    } else {
        None
    }
}

/// The fields that the format `%H:%M:%S` reads from the start of `s`; what
/// follows the seconds is not read.
pub open spec fn clock_fields(s: Seq<u8>) -> Option<BrokenDown> {
    match short_field(s, 0, 23) {
        None => None,
        Some((h, a)) => match after_sep(s.skip(a), 58) {
            None => None,
            Some(s1) => match short_field(s1, 0, 59) {
                None => None,
                Some((m, b)) => match after_sep(s1.skip(b), 58) {
                    None => None,
                    Some(s2) => match short_field(s2, 0, 60) {
                        None => None,
                        Some((sec, c)) => Some(
                            BrokenDown {
                                year: 0,
                                mon: 0,
                                mday: 0,
                                hour: h as i32,
                                min: m as i32,
                                sec: sec as i32,
                            },
                        ),
                    },
                },
            },
        },
    }
}

/// The fields that the format `%Y-%m-%d` reads from the start of `s`; what
/// follows the day is not read.
pub open spec fn day_fields(s: Seq<u8>) -> Option<BrokenDown> {
    match year_field(s) {
        None => None,
        Some(y) => match after_sep(s.skip(4), 45) {
            None => None,
            Some(s1) => match short_field(s1, 1, 12) {
                None => None,
                Some((mo, b)) => match after_sep(s1.skip(b), 45) {
                    None => None,
                    Some(s2) => match short_field(s2, 1, 31) {
                        None => None,
                        Some((d, c)) => Some(
                            BrokenDown {
                                year: (y - 1900) as i32,
                                mon: (mo - 1) as i32,
                                mday: d as i32,
                                hour: 0,
                                min: 0,
                                sec: 0,
                            },
                        ),
                    },
                },
            },
        },
    }
}

/// Relies on `time::strptime` (time 0.1.45) with the two formats that logs use.
/// For `%H:%M:%S` and `%Y-%m-%d` it reads each numeric field greedily (one or
/// two digits, exactly four for `%Y`), refuses a value out of the field's range,
/// matches `:` and `-` literally, leaves the fields that the format does not name
/// at zero and ignores whatever follows the last field. The bytes are read as
/// UTF-8 first, as a `&str` must be.
#[verifier::external_body]
fn strptime(s: &[u8], fmt: &str) -> (r: Option<BrokenDown>)
    requires
        fmt@ == "%H:%M:%S"@ || fmt@ == "%Y-%m-%d"@,
    ensures
        !valid_utf8(s@) ==> r.is_none(),
        valid_utf8(s@) && fmt@ == "%H:%M:%S"@ ==> r == clock_fields(s@),
        valid_utf8(s@) && fmt@ == "%Y-%m-%d"@ ==> r == day_fields(s@),
{
    let text = std::str::from_utf8(s).ok()?;
    let tm = time::strptime(text, fmt).ok()?;
    Some(BrokenDown {
        year: tm.tm_year,
        mon: tm.tm_mon,
        mday: tm.tm_mday,
        hour: tm.tm_hour,
        min: tm.tm_min,
        sec: tm.tm_sec,
    })
}

/// The time of day that `s` starts with, in the form `HH:MM:SS`.
pub open spec fn clock_of(s: Seq<u8>) -> Option<TimeOfDay> {
    if !valid_utf8(s) {
        None
    } else {
        match clock_fields(s) {
            None => None,
            Some(t) => Some(
                TimeOfDay { hour: t.hour as u8, minute: t.min as u8, second: t.sec as u8 },
            ),
        }
    }
}

/// The date that `s` starts with, in the form `YYYY-MM-DD`.
pub open spec fn date_of(s: Seq<u8>) -> Option<LogDate> {
    if !valid_utf8(s) {
        None
    } else {
        match day_fields(s) {
            None => None,
            Some(t) => Some(
                LogDate {
                    year: (t.year + 1900) as u16,
                    month: (t.mon + 1) as u8,
                    day: t.mday as u8,
                },
            ),
        }
    }
}

proof fn lemma_short_field_range(s: Seq<u8>, lo: int, hi: int)
    requires
        short_field(s, lo, hi) is Some,
    ensures
        lo <= (short_field(s, lo, hi)->0).0 <= hi,
        0 <= (short_field(s, lo, hi)->0).0 <= 99,
{
}

/// Reads a time of day `HH:MM:SS` from the start of `s`.
pub fn parse_clock(s: &[u8]) -> (r: Option<TimeOfDay>)
    ensures
        r == clock_of(s@),
        r matches Some(t) ==> t.wf(),
{
    match strptime(s, "%H:%M:%S") {
        None => None,
        Some(t) => {
            proof {
                let a = (short_field(s@, 0, 23)->0).1;
                let s1 = s@.skip(a).skip(1);
                let b = (short_field(s1, 0, 59)->0).1;
                let s2 = s1.skip(b).skip(1);
                lemma_short_field_range(s@, 0, 23);
                lemma_short_field_range(s1, 0, 59);
                lemma_short_field_range(s2, 0, 60);
            }
            Some(TimeOfDay { hour: t.hour as u8, minute: t.min as u8, second: t.sec as u8 })
        },
    }
}

/// Reads a date `YYYY-MM-DD` from the start of `s`, the stem of a log file's name.
pub fn parse_log_date(s: &[u8]) -> (r: Option<LogDate>)
    ensures
        r == date_of(s@),
        r matches Some(d) ==> d.wf(),
{
    match strptime(s, "%Y-%m-%d") {
        None => None,
        Some(t) => {
            proof {
                let s1 = s@.skip(4).skip(1);
                let b = (short_field(s1, 1, 12)->0).1;
                let s2 = s1.skip(b).skip(1);
                lemma_short_field_range(s1, 1, 12);
                lemma_short_field_range(s2, 1, 31);
            }
            Some(
                LogDate {
                    year: (t.year + 1900) as u16,
                    month: (t.mon + 1) as u8,
                    day: t.mday as u8,
                },
            )
        },
    }
}

/// Days from 1970-01-01 to the given date of the proleptic Gregorian calendar;
/// a day past the end of its month runs on into the next.
pub open spec fn days_from_civil(y: int, m: int, d: int) -> int {
    let yy = if m <= 2 {
        y - 1
    } else {
        y
    };
    let era = yy / 400;
    let yoe = yy - era * 400;
    let mp = if m > 2 {
        m - 3
    } else {
        m + 9
    };
    let doy = (153 * mp + 2) / 5 + d - 1;
    let doe = yoe * 365 + yoe / 4 - yoe / 100 + doy;
    era * 146097 + doe - 719468
}

/// Seconds from 1970-01-01 00:00:00 UTC to the given UTC date and time.
pub open spec fn civil_seconds(y: int, mo: int, d: int, h: int, mi: int, s: int) -> int {
    days_from_civil(y, mo, d) * 86400 + h * 3600 + mi * 60 + s
}

/// Days from 1970-01-01 to a date of a four-digit year, as `days_from_civil`
/// counts them.
pub fn days_since_epoch(y: u64, m: u64, d: u64) -> (r: i64)
    requires
        y <= 9999,
        1 <= m <= 12,
        1 <= d <= 31,
    ensures
        r == days_from_civil(y as int, m as int, d as int),
        -720000 <= r <= 3000000,
{
    // Counted from one era earlier, so that every quotient is of a non-negative number.
    let shifted: u64 = if m <= 2 {
        y + 399
    } else {
        y + 400
    };
    let era: u64 = shifted / 400;
    let yoe: u64 = shifted - era * 400;
    let mp: u64 = if m > 2 {
        m - 3
    } else {
        m + 9
    };
    let doy: u64 = (153 * mp + 2) / 5 + d - 1;
    let doe: u64 = yoe * 365 + yoe / 4 - yoe / 100 + doy;
    proof {
        let yy: int = if m <= 2 {
            y - 1
        } else {
            y as int
        };
        vstd::arithmetic::div_mod::lemma_div_plus_one(yy, 400);
        assert(era as int == yy / 400 + 1);
    }
    (era as i64 - 1) * 146097 + doe as i64 - 719468
}

impl Timestamp {
    /// The log date with the time of day overwritten onto it.
    pub fn combine(date: LogDate, time: TimeOfDay) -> (r: Timestamp)
        ensures
            r.date == date,
            r.time == time,
    {
        Timestamp { date, time }
    }

    /// Seconds since 1970-01-01 00:00:00 UTC, the time taken as UTC; a leap
    /// second, or a day past the end of its month, runs on into what follows.
    pub fn unix_seconds(&self) -> (r: i64)
        requires
            self.wf(),
        ensures
            r == civil_seconds(
                self.date.year as int,
                self.date.month as int,
                self.date.day as int,
                self.time.hour as int,
                self.time.minute as int,
                self.time.second as int,
            ),
    {
        let days = days_since_epoch(
            self.date.year as u64,
            self.date.month as u64,
            self.date.day as u64,
        );
        days * 86400 + self.time.hour as i64 * 3600 + self.time.minute as i64 * 60
            + self.time.second as i64
    }
}

} // verus!
