//! The time of day in UTC, and the health report that states it.

use std::time::{Duration, SystemTime, SystemTimeError};

use vstd::prelude::*;
use vstd::string::*;

use crate::text;
use crate::text::push_natural;

verus! {

/// A point in time of the system clock.
#[verifier::external_type_specification]
#[verifier::external_body]
pub struct ExSystemTime(std::time::SystemTime);

/// The error for a point in time that lies after another.
#[verifier::external_type_specification]
#[verifier::external_body]
pub struct ExSystemTimeError(std::time::SystemTimeError);

/// `SystemTime::now`: the time of the system clock, of which nothing is known.
pub assume_specification[ SystemTime::now ]() -> (result: SystemTime)
;

/// The whole seconds of a span of time.
pub uninterp spec fn span_seconds(span: Duration) -> u64;

/// The span from the start of 1970 to a point in time, where that is not before it.
pub uninterp spec fn epoch_span(time: SystemTime) -> Option<Duration>;

/// `Duration::as_secs`: the whole seconds of a span.
pub assume_specification[ Duration::as_secs ](span: &Duration) -> (result: u64)
    ensures
        result == span_seconds(*span),
;

/// `SystemTime::duration_since` the start of 1970: the span between the two, or an error
/// for a point in time before that.
#[verifier::external_body]
fn since_epoch(time: SystemTime) -> (result: Result<Duration, SystemTimeError>)
    ensures
        match result {
            Ok(span) => epoch_span(time) == Some(span),
            Err(_) => epoch_span(time) is None,
        },
{
    time.duration_since(std::time::UNIX_EPOCH)
}

/// The whole seconds from the start of 1970 to a point in time, where that is not before
/// it.
pub open spec fn elapsed_seconds(time: SystemTime) -> Option<u64> {
    match epoch_span(time) {
        Some(span) => Some(span_seconds(span)),
        None => None,
    }
}

/// A date and a time of day.
#[derive(Clone, Copy, Debug, PartialEq, Eq, Structural)]
pub struct Civil {
    pub year: u64,
    pub month: u64,
    pub day: u64,
    pub hour: u64,
    pub minute: u64,
    pub second: u64,
}

/// Whether the year has a leap day.
pub open spec fn is_leap(year: int) -> bool {
    (year % 4 == 0 && year % 100 != 0) || year % 400 == 0
}

/// The number of days of the year.
pub open spec fn year_days(year: int) -> int {
    if is_leap(year) {
        366
    } else {
        365
    }
}

/// The number of days of the month.
pub open spec fn month_days(year: int, month: int) -> int {
    if month == 2 {
        if is_leap(year) {
            29
        } else {
            28
        }
    } else if month == 4 || month == 6 || month == 9 || month == 11 {
        30
    } else {
        31
    }
}

/// The number of leap years before the year, from year one on.
pub open spec fn leaps_before(year: int) -> int {
    (year - 1) / 4 - (year - 1) / 100 + (year - 1) / 400
}

/// The number of days from the start of 1970 to the start of the year.
pub open spec fn days_to_year(year: int) -> int {
    365 * (year - 1970) + leaps_before(year) - leaps_before(1970)
}

/// The number of days from the start of the year to the start of the month.
pub open spec fn days_to_month(year: int, month: int) -> int
    decreases month,
{
    if month <= 1 {
        0
    } else {
        days_to_month(year, month - 1) + month_days(year, month - 1)
    }
}

impl Civil {
    /// Whether this is a date of the calendar, from 1970 on, with a time of day.
    pub open spec fn valid(self) -> bool {
        &&& self.year >= 1970
        &&& 1 <= self.month <= 12
        &&& 1 <= self.day <= month_days(self.year as int, self.month as int)
        &&& 0 <= self.hour < 24
        &&& 0 <= self.minute < 60
        &&& 0 <= self.second < 60
    }

    /// The days from the start of 1970 to this date.
    pub open spec fn days(self) -> int {
        days_to_year(self.year as int) + days_to_month(self.year as int, self.month as int)
            + self.day - 1
    }

    /// The seconds from the start of 1970 to this time.
    pub open spec fn seconds(self) -> int {
        86400 * self.days() + 3600 * self.hour + 60 * self.minute + self.second
    }
}

/// The decimal digits of `n`, filled up to `width` with zeros.
pub open spec fn padded(n: nat, width: nat) -> Seq<char> {
    let digits = text::natural_text(n);
    let fill = if width > digits.len() {
        (width - digits.len()) as nat
    } else {
        0
    };
    Seq::new(fill, |i: int| '0') + digits
}

/// The notation of RFC 3339.
pub open spec fn rfc3339_text(c: Civil) -> Seq<char> {
    padded(c.year as nat, 4) + "-"@ + padded(c.month as nat, 2) + "-"@ + padded(c.day as nat, 2)
        + "T"@ + padded(c.hour as nat, 2) + ":"@ + padded(c.minute as nat, 2) + ":"@ + padded(
        c.second as nat,
        2,
    ) + "Z"@
}

/// A year lasts as long as it has days.
proof fn lemma_next_year(year: int)
    requires
        year >= 1,
    ensures
        days_to_year(year + 1) == days_to_year(year) + year_days(year),
{
}

/// The months of a year last as long as the year.
proof fn lemma_months(year: int)
    ensures
        days_to_month(year, 13) == year_days(year),
{
    reveal_with_fuel(days_to_month, 14);
}

/// A later year starts after the end of an earlier one.
proof fn lemma_years_apart(a: int, b: int)
    requires
        1 <= a < b,
    ensures
        days_to_year(a) + year_days(a) <= days_to_year(b),
    decreases b - a,
{
    lemma_next_year(a);
    if a + 1 < b {
        lemma_years_apart(a + 1, b);
    }
}

/// A later month starts after the end of an earlier one.
proof fn lemma_months_apart(year: int, a: int, b: int)
    requires
        1 <= a < b,
    ensures
        days_to_month(year, a) + month_days(year, a) <= days_to_month(year, b),
    decreases b - a,
{
    if a + 1 < b {
        lemma_months_apart(year, a, b - 1);
    }
}

/// A count of seconds is in one way a number of days and a time of day.
proof fn lemma_time_of_day_is_unique(
    da: int,
    ha: int,
    ma: int,
    sa: int,
    db: int,
    hb: int,
    mb: int,
    sb: int,
)
    requires
        86400 * da + 3600 * ha + 60 * ma + sa == 86400 * db + 3600 * hb + 60 * mb + sb,
        0 <= ha < 24 && 0 <= ma < 60 && 0 <= sa < 60,
        0 <= hb < 24 && 0 <= mb < 60 && 0 <= sb < 60,
    ensures
        da == db && ha == hb && ma == mb && sa == sb,
{
    let ta = 3600 * ha + 60 * ma + sa;
    let tb = 3600 * hb + 60 * mb + sb;
    assert(0 <= ta < 86400);
    assert(0 <= tb < 86400);
    assert(da == db);
}

/// A day has one date.
proof fn lemma_date_is_unique(a: Civil, b: Civil)
    requires
        a.valid(),
        b.valid(),
        a.days() == b.days(),
    ensures
        a.year == b.year && a.month == b.month && a.day == b.day,
{
    lemma_date_within_year(a);
    lemma_date_within_year(b);
    if a.year < b.year {
        lemma_years_apart(a.year as int, b.year as int);
    } else if b.year < a.year {
        lemma_years_apart(b.year as int, a.year as int);
    } else if a.month < b.month {
        lemma_months_apart(a.year as int, a.month as int, b.month as int);
    } else if b.month < a.month {
        lemma_months_apart(a.year as int, b.month as int, a.month as int);
    }
}

/// A point in time has one date and time of day.
pub proof fn law_time_is_unique(a: Civil, b: Civil)
    requires
        a.valid(),
        b.valid(),
        a.seconds() == b.seconds(),
    ensures
        a == b,
{
    lemma_time_of_day_is_unique(
        a.days(),
        a.hour as int,
        a.minute as int,
        a.second as int,
        b.days(),
        b.hour as int,
        b.minute as int,
        b.second as int,
    );
    lemma_date_is_unique(a, b);
}

/// A date lies within its year.
proof fn lemma_date_within_year(c: Civil)
    requires
        c.valid(),
    ensures
        0 <= days_to_month(c.year as int, c.month as int) + c.day - 1 < year_days(c.year as int),
{
    lemma_months(c.year as int);
    lemma_months_apart(c.year as int, c.month as int, 13);
    lemma_month_starts_within(c.year as int, c.month as int);
}

/// No month starts before its year.
proof fn lemma_month_starts_within(year: int, month: int)
    ensures
        days_to_month(year, month) >= 0,
    decreases month,
{
    if month > 1 {
        lemma_month_starts_within(year, month - 1);
    }
}

/// Whether the year has a leap day.
fn leap(year: u64) -> (result: bool)
    ensures
        result == is_leap(year as int),
{
    (year % 4 == 0 && year % 100 != 0) || year % 400 == 0
}

/// The date and time of day at `secs` seconds after the start of 1970.
pub fn civil(secs: u64) -> (result: Civil)
    ensures
        result.valid(),
        result.seconds() == secs,
{
    let days: u64 = secs / 86400;
    let tod: u64 = secs % 86400;
    let mut year: u64 = 1970;
    let mut d: u64 = days;
    loop
        invariant
            0 <= d <= days,
            days <= 0x1_0000_0000_0000,
            year >= 1970,
            365 * (year - 1970) <= days - d,
            days_to_year(year as int) + d == days,
        ensures
            0 <= d < year_days(year as int),
            year >= 1970,
            days_to_year(year as int) + d == days,
        decreases d,
    {
        proof {
            lemma_next_year(year as int);
        }
        let len: u64 = if leap(year) {
            366
        } else {
            365
        };
        if d < len {
            break;
        }
        d = d - len;
        year = year + 1;
    }
    let feb: u64 = if leap(year) {
        29
    } else {
        28
    };
    let mut month: u64 = 1;
    let ghost into_year = d as int;
    proof {
        lemma_months(year as int);
    }
    loop
        invariant
            1 <= month <= 12,
            0 <= d,
            days_to_month(year as int, month as int) + d == into_year,
            into_year < year_days(year as int),
            days_to_month(year as int, 13) == year_days(year as int),
            feb == month_days(year as int, 2),
        ensures
            1 <= month <= 12,
            0 <= d < month_days(year as int, month as int),
            days_to_month(year as int, month as int) + d == into_year,
        decreases d,
    {
        let len: u64 = if month == 2 {
            feb
        } else if month == 4 || month == 6 || month == 9 || month == 11 {
            30
        } else {
            31
        };
        if d < len {
            break;
        }
        d = d - len;
        month = month + 1;
    }
    Civil {
        year,
        month,
        day: d + 1,
        hour: tod / 3600,
        minute: tod % 3600 / 60,
        second: tod % 60,
    }
}

/// How many digits small numbers have.
proof fn lemma_digit_count(n: nat)
    ensures
        n < 10 ==> text::natural_text(n).len() == 1,
        10 <= n < 100 ==> text::natural_text(n).len() == 2,
        100 <= n < 1000 ==> text::natural_text(n).len() == 3,
        1000 <= n < 10000 ==> text::natural_text(n).len() == 4,
        n >= 1000 ==> text::natural_text(n).len() >= 4,
{
    reveal_with_fuel(text::natural_text, 5);
}

/// Appends the digits of `n` to `out`, filled up to `width` with zeros.
fn push_padded(out: &mut String, n: u64, width: u64)
    requires
        width <= 4,
    ensures
        final(out)@ == old(out)@ + padded(n as nat, width as nat),
{
    proof {
        lemma_digit_count(n as nat);
        reveal_strlit("0");
    }
    let digits: u64 = if n < 10 {
        1
    } else if n < 100 {
        2
    } else if n < 1000 {
        3
    } else {
        4
    };
    let mut i: u64 = digits;
    while i < width
        invariant
            width <= 4,
            1 <= digits <= i,
            i <= width || i == digits,
            "0"@ == seq!['0'],
            out@ == old(out)@ + Seq::new((i - digits) as nat, |k: int| '0'),
        decreases width - i,
    {
        out.append("0");
        i = i + 1;
        assert(out@ =~= old(out)@ + Seq::new((i - digits) as nat, |k: int| '0'));
    }
    push_natural(out, n);
    assert(out@ =~= old(out)@ + padded(n as nat, width as nat));
}

/// The notation of RFC 3339 for a date and time of day in UTC.
pub fn format_rfc3339(c: Civil) -> (result: String)
    ensures
        result@ == rfc3339_text(c),
{
    let mut out = String::new();
    push_padded(&mut out, c.year, 4);
    out.append("-");
    push_padded(&mut out, c.month, 2);
    out.append("-");
    push_padded(&mut out, c.day, 2);
    out.append("T");
    push_padded(&mut out, c.hour, 2);
    out.append(":");
    push_padded(&mut out, c.minute, 2);
    out.append(":");
    push_padded(&mut out, c.second, 2);
    out.append("Z");
    assert(out@ =~= rfc3339_text(c));
    out
}

/// Whether `text` is the time at `secs` seconds after the start of 1970, in the notation
/// of RFC 3339.
pub open spec fn is_rfc3339_at(secs: u64, text: Seq<char>) -> bool {
    exists|c: Civil|
        c.valid() && #[trigger] c.seconds() == secs && text == rfc3339_text(c)
}

/// The seconds that a clock shows which stands `elapsed` whole seconds after the start
/// of 1970; zero for a clock that stands before it.
pub open spec fn clock_seconds(elapsed: Option<u64>) -> u64 {
    match elapsed {
        Some(secs) => secs,
        None => 0,
    }
}

/// The time at `elapsed` whole seconds after the start of 1970, in the notation of RFC
/// 3339. Without `elapsed`, for a clock that stands before it, the start of 1970.
pub fn rfc3339_at(elapsed: Option<u64>) -> (result: String)
    ensures
        is_rfc3339_at(clock_seconds(elapsed), result@),
{
    let secs: u64 = match elapsed {
        Some(secs) => secs,
        None => 0,
    };
    let c = civil(secs);
    assert(c.seconds() == clock_seconds(elapsed));
    format_rfc3339(c)
}

/// The time now, in the notation of RFC 3339: that of some point in time, which the
/// system clock picks.
pub fn now_rfc3339() -> (result: String)
    ensures
        exists|time: SystemTime|
            is_rfc3339_at(clock_seconds(#[trigger] elapsed_seconds(time)), result@),
{
    let time = SystemTime::now();
    let elapsed: Option<u64> = match since_epoch(time) {
        Ok(span) => Some(span.as_secs()),
        Err(_) => None,
    };
    assert(elapsed == elapsed_seconds(time));
    rfc3339_at(elapsed)
}

/// Up to the year 9999 the notation has twenty characters, with its separators at fixed
/// places.
pub proof fn law_rfc3339_shape(c: Civil)
    requires
        c.valid(),
        c.year <= 9999,
    ensures
        rfc3339_text(c).len() == 20,
        rfc3339_text(c)[4] == '-',
        rfc3339_text(c)[7] == '-',
        rfc3339_text(c)[10] == 'T',
        rfc3339_text(c)[13] == ':',
        rfc3339_text(c)[16] == ':',
        rfc3339_text(c)[19] == 'Z',
{
    lemma_digit_count(c.year as nat);
    lemma_digit_count(c.month as nat);
    lemma_digit_count(c.day as nat);
    lemma_digit_count(c.hour as nat);
    lemma_digit_count(c.minute as nat);
    lemma_digit_count(c.second as nat);
    reveal_strlit("-");
    reveal_strlit("T");
    reveal_strlit(":");
    reveal_strlit("Z");
}

/// The body of the health report.
pub open spec fn health_text(port: int, timestamp: Seq<char>) -> Seq<char> {
    "{\"status\": \"healthy\", \"type\": \"rust\", \"port\": "@ + text::decimal(port)
        + ", \"timestamp\": \""@ + timestamp + "\"}"@
}

/// The body of the health report of the service on `port`.
pub fn health_body(port: u16, timestamp: &str) -> (result: String)
    ensures
        result@ == health_text(port as int, timestamp@),
{
    let mut out = "{\"status\": \"healthy\", \"type\": \"rust\", \"port\": ".to_owned();
    push_natural(&mut out, port as u64);
    out.append(", \"timestamp\": \"");
    out.append(timestamp);
    out.append("\"}");
    assert(out@ =~= health_text(port as int, timestamp@));
    out
}

/// The months have the lengths of the Gregorian calendar, and February has a leap day in
/// every fourth year, but for those that end a century, of which every fourth has one.
pub proof fn law_month_lengths(year: int)
    ensures
        month_days(year, 1) == 31,
        month_days(year, 2) == if year % 4 != 0 {
            28int
        } else if year % 100 != 0 {
            29int
        } else if year % 400 != 0 {
            28int
        } else {
            29int
        },
        month_days(year, 3) == 31,
        month_days(year, 4) == 30,
        month_days(year, 5) == 31,
        month_days(year, 6) == 30,
        month_days(year, 7) == 31,
        month_days(year, 8) == 31,
        month_days(year, 9) == 30,
        month_days(year, 10) == 31,
        month_days(year, 11) == 30,
        month_days(year, 12) == 31,
{
}

/// The day of a date has a closed form without a table of months: in a year that is
/// counted from March on, month `m` starts at day `(153 * m + 2) / 5`.
pub proof fn law_days_have_a_closed_form(c: Civil)
    requires
        c.valid(),
    ensures
        c.days() == ({
            let (y, m) = if c.month > 2 {
                (c.year as int, c.month - 3)
            } else {
                (c.year - 1, c.month + 9)
            };
            365 * y + y / 4 - y / 100 + y / 400 + (153 * m + 2) / 5 + c.day - 719469
        }),
{
    let year = c.year as int;
    reveal_with_fuel(days_to_month, 13);
    lemma_next_year(year);
    assert(leaps_before(1970) == 477);
    let (y, m) = if c.month > 2 {
        (year, c.month - 3)
    } else {
        (year - 1, c.month + 9)
    };
    let lead = 365 * y + y / 4 - y / 100 + y / 400;
    if c.month > 2 {
        let past = days_to_month(year, c.month as int) - year_days(year);
        assert(past == (153 * m + 2) / 5 - 306);
        assert(days_to_year(year + 1) == lead - 719162);
    } else {
        assert(days_to_month(year, c.month as int) == (153 * m + 2) / 5 - 306);
        assert(days_to_year(year) == lead - 719162);
    }
}

/// A time is as many seconds after the start of 1970 as its days, hours, minutes and
/// seconds have, each within its bounds.
pub proof fn law_seconds_of_a_time(c: Civil)
    requires
        c.valid(),
    ensures
        c.seconds() == ((c.days() * 24 + c.hour) * 60 + c.minute) * 60 + c.second,
        c.year >= 1970,
        1 <= c.month <= 12,
        1 <= c.day <= 31,
        c.hour <= 23,
        c.minute <= 59,
        c.second <= 59,
{
}

/// A number with zeros in front of it is that number.
proof fn lemma_zeros_in_front(fill: nat, n: nat)
    requires
        n <= i64::MAX,
    ensures
        text::i64_value(Seq::new(fill, |i: int| '0') + text::natural_text(n)) == Some(n as i64),
    decreases fill,
{
    text::lemma_natural_text(n);
    let digits = text::natural_text(n);
    let s = Seq::new(fill, |i: int| '0') + digits;
    assert forall|i: int| 0 <= i < s.len() implies text::is_digit(#[trigger] s[i]) by {
        if i >= fill {
            assert(s[i] == digits[i - fill]);
        }
    }
    assert(text::is_digit(s[0]));
    lemma_value_of_zeros(fill, digits);
}

/// Zeros in front of digits do not change their value.
proof fn lemma_value_of_zeros(fill: nat, digits: Seq<char>)
    ensures
        text::digits_value(Seq::new(fill, |i: int| '0') + digits) == text::digits_value(digits),
    decreases fill + digits.len(),
{
    let zeros = Seq::new(fill, |i: int| '0');
    let s = zeros + digits;
    if digits.len() > 0 {
        assert(s.drop_last() =~= zeros + digits.drop_last());
        assert(s.last() == digits.last());
        lemma_value_of_zeros(fill, digits.drop_last());
    } else if fill > 0 {
        let fewer = Seq::new((fill - 1) as nat, |i: int| '0');
        assert(s.drop_last() =~= fewer + digits);
        assert(s.last() == '0');
        lemma_value_of_zeros((fill - 1) as nat, digits);
    } else {
        assert(s =~= digits);
    }
}

/// Up to the year 9999 the parts of a time can be read out of its notation, each at its
/// place.
pub proof fn law_rfc3339_reads_back(c: Civil)
    requires
        c.valid(),
        c.year <= 9999,
    ensures
        text::i64_value(rfc3339_text(c).subrange(0, 4)) == Some(c.year as i64),
        text::i64_value(rfc3339_text(c).subrange(5, 7)) == Some(c.month as i64),
        text::i64_value(rfc3339_text(c).subrange(8, 10)) == Some(c.day as i64),
        text::i64_value(rfc3339_text(c).subrange(11, 13)) == Some(c.hour as i64),
        text::i64_value(rfc3339_text(c).subrange(14, 16)) == Some(c.minute as i64),
        text::i64_value(rfc3339_text(c).subrange(17, 19)) == Some(c.second as i64),
{
    law_rfc3339_shape(c);
    let t = rfc3339_text(c);
    lemma_padded_reads_back(c.year as nat, 4);
    lemma_padded_reads_back(c.month as nat, 2);
    lemma_padded_reads_back(c.day as nat, 2);
    lemma_padded_reads_back(c.hour as nat, 2);
    lemma_padded_reads_back(c.minute as nat, 2);
    lemma_padded_reads_back(c.second as nat, 2);
    reveal_strlit("-");
    reveal_strlit("T");
    reveal_strlit(":");
    reveal_strlit("Z");
    assert(t.subrange(0, 4) =~= padded(c.year as nat, 4));
    assert(t.subrange(5, 7) =~= padded(c.month as nat, 2));
    assert(t.subrange(8, 10) =~= padded(c.day as nat, 2));
    assert(t.subrange(11, 13) =~= padded(c.hour as nat, 2));
    assert(t.subrange(14, 16) =~= padded(c.minute as nat, 2));
    assert(t.subrange(17, 19) =~= padded(c.second as nat, 2));
}

/// A number that was filled up to two or four digits reads back.
proof fn lemma_padded_reads_back(n: nat, width: nat)
    requires
        width == 2 && n < 100 || width == 4 && n < 10000,
    ensures
        padded(n, width).len() == width,
        text::i64_value(padded(n, width)) == Some(n as i64),
{
    lemma_digit_count(n);
    let digits = text::natural_text(n);
    lemma_zeros_in_front((width - digits.len()) as nat, n);
}

/// A later year than 9999 is written in full, and the rest is as for an earlier one.
pub proof fn law_far_years_are_written_in_full(c: Civil)
    requires
        c.valid(),
        c.year > 9999,
    ensures
        ({
            let near = Civil { year: 2000, ..c };
            rfc3339_text(c) == text::decimal(c.year as int) + rfc3339_text(near).skip(4)
        }),
{
    let near = Civil { year: 2000, ..c };
    lemma_digit_count(c.year as nat);
    lemma_digit_count(2000);
    assert(padded(c.year as nat, 4) =~= text::natural_text(c.year as nat));
    assert(padded(2000, 4).len() == 4);
    assert(rfc3339_text(c) =~= text::decimal(c.year as int) + rfc3339_text(near).skip(4));
}

/// The seconds that a notation of RFC 3339 stands for, up to the year 9999: the numbers
/// at their places in it, put into the closed form of the calendar.
pub open spec fn seconds_in(text: Seq<char>) -> int {
    let year = text::i64_value(text.subrange(0, 4))->0;
    let month = text::i64_value(text.subrange(5, 7))->0;
    let day = text::i64_value(text.subrange(8, 10))->0;
    let hour = text::i64_value(text.subrange(11, 13))->0;
    let minute = text::i64_value(text.subrange(14, 16))->0;
    let second = text::i64_value(text.subrange(17, 19))->0;
    let (y, m) = if month > 2 {
        (year as int, month - 3)
    } else {
        (year - 1, month + 9)
    };
    let days = 365 * y + y / 4 - y / 100 + y / 400 + (153 * m + 2) / 5 + day - 719469;
    ((days * 24 + hour) * 60 + minute) * 60 + second
}

/// The text of a time, up to the year 9999, stands for the seconds that the clock shows.
pub proof fn law_text_states_the_time(secs: u64, text: Seq<char>)
    requires
        is_rfc3339_at(secs, text),
        secs < 253402300800,
    ensures
        text.len() == 20,
        seconds_in(text) == secs,
{
    let c = choose|c: Civil| c.valid() && #[trigger] c.seconds() == secs && text == rfc3339_text(c);
    law_days_have_a_closed_form(c);
    law_seconds_of_a_time(c);
    if c.year > 9999 {
        lemma_years_apart(9999, c.year as int);
        lemma_month_starts_within(c.year as int, c.month as int);
        assert(days_to_year(9999) + year_days(9999) == 2932897);
    }
    law_rfc3339_shape(c);
    law_rfc3339_reads_back(c);
}

/// A clock that shows some seconds after the start of 1970 states that time, and one that
/// stands before it the start of 1970.
pub proof fn law_clock_before_the_epoch(time: SystemTime, secs: u64)
    ensures
        match epoch_span(time) {
            Some(span) => clock_seconds(elapsed_seconds(time)) == span_seconds(span),
            None => clock_seconds(elapsed_seconds(time)) == 0,
        },
        clock_seconds(Some(secs)) == secs,
        clock_seconds(None) == 0,
{
}

/// The health report states the port as a number and the time as a string.
pub proof fn law_health_report(port: u16, timestamp: Seq<char>)
    ensures
        health_text(port as int, timestamp)
            == "{\"status\": \"healthy\", \"type\": \"rust\", \"port\": "@ + text::decimal(
            port as int,
        ) + ", \"timestamp\": \""@ + timestamp + "\"}"@,
        text::i64_value(text::decimal(port as int)) == Some(port as i64),
{
    text::law_decimal_reads_back(port as i64);
}

} // verus!
