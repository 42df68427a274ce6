//! Calendar timestamps as plain values: the rotation-stamp precision is one
//! second, record timestamps add milliseconds. Validity mirrors the civil
//! calendar, leap years included.

use vstd::prelude::*;

use chrono::Datelike;
use chrono::Timelike;

verus! {

/// A local calendar timestamp.
#[derive(Clone, Copy, Debug, PartialEq, Eq, Structural)]
pub struct Timestamp {
    pub year: u32,
    pub month: u32,
    pub day: u32,
    pub hour: u32,
    pub minute: u32,
    pub second: u32,
    pub millis: u32,
}

/// A leap year in the proleptic Gregorian calendar.
pub open spec fn is_leap_year(y: int) -> bool {
    y % 4 == 0 && (y % 100 != 0 || y % 400 == 0)
}

/// Number of days of month `m` of year `y`.
pub open spec fn days_in_month(y: int, m: int) -> int {
    if m == 2 {
        if is_leap_year(y) {
            29
        } else {
            28
        }
    } else if m == 4 || m == 6 || m == 9 || m == 11 {
        30
    } else {
        31
    }
}

impl Timestamp {
    /// A representable civil date and time with a four-digit year.
    pub open spec fn valid(self) -> bool {
        &&& self.year <= 9999
        &&& 1 <= self.month <= 12
        &&& 1 <= self.day <= days_in_month(self.year as int, self.month as int)
        &&& self.hour <= 23
        &&& self.minute <= 59
        &&& self.second <= 59
        &&& self.millis <= 999
    }

    /// Chronological order, as a lexicographic order on the fields.
    pub open spec fn le_spec(self, other: Timestamp) -> bool {
        if self.year != other.year {
            self.year < other.year
        } else if self.month != other.month {
            self.month < other.month
        } else if self.day != other.day {
            self.day < other.day
        } else if self.hour != other.hour {
            self.hour < other.hour
        } else if self.minute != other.minute {
            self.minute < other.minute
        } else if self.second != other.second {
            self.second < other.second
        } else {
            self.millis <= other.millis
        }
    }

    /// Decide `le_spec` on concrete values.
    pub fn le(&self, other: &Timestamp) -> (r: bool)
        ensures
            r == self.le_spec(*other),
    {
        if self.year != other.year {
            self.year < other.year
        } else if self.month != other.month {
            self.month < other.month
        } else if self.day != other.day {
            self.day < other.day
        } else if self.hour != other.hour {
            self.hour < other.hour
        } else if self.minute != other.minute {
            self.minute < other.minute
        } else if self.second != other.second {
            self.second < other.second
        } else {
            self.millis <= other.millis
        }
    }
}

/// Byte value of the ASCII underscore, the separator of rotation stamps.
pub const UNDERSCORE: u8 = 95;

pub open spec fn is_digit(b: u8) -> bool {
    48 <= b <= 57
}

pub open spec fn digit_of(v: int) -> u8 {
    (48 + v) as u8
}

pub open spec fn two_digits(v: int) -> Seq<u8> {
    seq![digit_of(v / 10), digit_of(v % 10)]
}

pub open spec fn three_digits(v: int) -> Seq<u8> {
    seq![digit_of(v / 100), digit_of((v / 10) % 10), digit_of(v % 10)]
}

pub open spec fn four_digits(v: int) -> Seq<u8> {
    seq![digit_of(v / 1000), digit_of((v / 100) % 10), digit_of((v / 10) % 10), digit_of(v % 10)]
}

/// The rotation stamp: zero-padded year, month, day, hour, minute and
/// second, separated by underscores.
pub open spec fn rotated_stamp(t: Timestamp) -> Seq<u8> {
    four_digits(t.year as int) + seq![UNDERSCORE] + two_digits(t.month as int) + seq![UNDERSCORE]
        + two_digits(t.day as int) + seq![UNDERSCORE] + two_digits(t.hour as int)
        + seq![UNDERSCORE] + two_digits(t.minute as int) + seq![UNDERSCORE] + two_digits(
        t.second as int,
    )
}

/// The text shape of a rotation stamp: six zero-padded decimal fields
/// separated by underscores.
pub open spec fn stamp_text_shaped(s: Seq<u8>) -> bool {
    &&& s.len() == 19
    &&& s[4] == UNDERSCORE
    &&& s[7] == UNDERSCORE
    &&& s[10] == UNDERSCORE
    &&& s[13] == UNDERSCORE
    &&& s[16] == UNDERSCORE
    &&& forall|k: int|
        0 <= k < 19 && k != 4 && k != 7 && k != 10 && k != 13 && k != 16 ==> is_digit(#[trigger] s[k])
}

pub open spec fn num2(s: Seq<u8>, at: int) -> int {
    (s[at] - 48) * 10 + (s[at + 1] - 48)
}

pub open spec fn num4(s: Seq<u8>, at: int) -> int {
    (s[at] - 48) * 1000 + (s[at + 1] - 48) * 100 + (s[at + 2] - 48) * 10 + (s[at + 3] - 48)
}

/// The timestamp a shaped stamp text denotes.
pub open spec fn stamp_of_text(s: Seq<u8>) -> Timestamp {
    Timestamp {
        year: num4(s, 0) as u32,
        month: num2(s, 5) as u32,
        day: num2(s, 8) as u32,
        hour: num2(s, 11) as u32,
        minute: num2(s, 14) as u32,
        second: num2(s, 17) as u32,
        millis: 0,
    }
}

/// Decide leap years on concrete values.
pub fn leap_year(y: u32) -> (r: bool)
    ensures
        r == is_leap_year(y as int),
{
    y % 4 == 0 && (y % 100 != 0 || y % 400 == 0)
}

/// Number of days of a month, on concrete values.
pub fn month_days(y: u32, m: u32) -> (r: u32)
    ensures
        r == days_in_month(y as int, m as int),
{
    if m == 2 {
        if leap_year(y) {
            29
        } else {
            28
        }
    } else if m == 4 || m == 6 || m == 9 || m == 11 {
        30
    } else {
        31
    }
}

/// Parse a rotation stamp. Returns the timestamp exactly when the text is
/// shaped as a stamp and denotes a valid calendar date and time.
pub fn parse_stamp(s: &Vec<u8>) -> (r: Option<Timestamp>)
    ensures
        r == (if stamp_text_shaped(s@) && stamp_of_text(s@).valid() {
            Some(stamp_of_text(s@))
        } else {
            Option::<Timestamp>::None
        }),
{
    if s.len() != 19 {
        return None;
    }
    if s[4] != UNDERSCORE || s[7] != UNDERSCORE || s[10] != UNDERSCORE || s[13] != UNDERSCORE
        || s[16] != UNDERSCORE {
        return None;
    }
    let mut k: usize = 0;
    while k < 19
        invariant
            k <= 19,
            s@.len() == 19,
            forall|q: int|
                0 <= q < k && q != 4 && q != 7 && q != 10 && q != 13 && q != 16 ==> is_digit(
                    #[trigger] s@[q],
                ),
        decreases 19 - k,
    {
        if k != 4 && k != 7 && k != 10 && k != 13 && k != 16 {
            let b = s[k];
            if b < 48 || b > 57 {
                return None;
            }
        }
        k = k + 1;
    }
    let year = (s[0] - 48) as u32 * 1000 + (s[1] - 48) as u32 * 100 + (s[2] - 48) as u32 * 10 + (
    s[3] - 48) as u32;
    let month = (s[5] - 48) as u32 * 10 + (s[6] - 48) as u32;
    let day = (s[8] - 48) as u32 * 10 + (s[9] - 48) as u32;
    let hour = (s[11] - 48) as u32 * 10 + (s[12] - 48) as u32;
    let minute = (s[14] - 48) as u32 * 10 + (s[15] - 48) as u32;
    let second = (s[17] - 48) as u32 * 10 + (s[18] - 48) as u32;
    let t = Timestamp { year, month, day, hour, minute, second, millis: 0 };
    if month < 1 || month > 12 {
        return None;
    }
    if day < 1 || day > month_days(year, month) {
        return None;
    }
    if hour > 23 || minute > 59 || second > 59 {
        return None;
    }
    proof {
        assert(t == stamp_of_text(s@));
        assert(t.valid());
    }
    Some(t)
}

/// Append the bytes of `v`, zero-padded to two digits.
pub fn push_two_digits(out: &mut Vec<u8>, v: u32)
    requires
        v <= 99,
    ensures
        final(out)@ == old(out)@ + two_digits(v as int),
{
    out.push((48 + v / 10) as u8);
    out.push((48 + v % 10) as u8);
    proof {
        assert(final(out)@ =~= old(out)@ + two_digits(v as int));
    }
}

/// Render the rotation stamp of a timestamp.
pub fn format_rotated_stamp(t: &Timestamp) -> (r: Vec<u8>)
    requires
        t.valid(),
    ensures
        r@ == rotated_stamp(*t),
{
    let mut out: Vec<u8> = Vec::new();
    out.push((48 + t.year / 1000) as u8);
    out.push((48 + (t.year / 100) % 10) as u8);
    out.push((48 + (t.year / 10) % 10) as u8);
    out.push((48 + t.year % 10) as u8);
    out.push(UNDERSCORE);
    push_two_digits(&mut out, t.month);
    out.push(UNDERSCORE);
    push_two_digits(&mut out, t.day);
    out.push(UNDERSCORE);
    push_two_digits(&mut out, t.hour);
    out.push(UNDERSCORE);
    push_two_digits(&mut out, t.minute);
    out.push(UNDERSCORE);
    push_two_digits(&mut out, t.second);
    proof {
        assert(out@ =~= rotated_stamp(*t));
    }
    out
}

/// Relies on chrono's `Local::now`: reads the wall clock in the local time
/// zone and hands its calendar fields over as plain values. chrono
/// documents the month in `1..=12`, the day starting at 1 within the month,
/// the hour below 24 and minute and second below 60; nothing is promised of
/// the year or of the milliseconds (a leap second can push them past 999).
/// On a host whose clock predates 1970, chrono's `Utc::now` panics; that
/// panic propagates out of this call.
#[verifier::external_body]
fn now_local() -> (r: Timestamp)
    ensures
        1 <= r.month <= 12,
        1 <= r.day <= 31,
        r.hour <= 23,
        r.minute <= 59,
        r.second <= 59,
{
    let now = chrono::Local::now();
    Timestamp {
        year: now.year() as u32,
        month: now.month(),
        day: now.day(),
        hour: now.hour(),
        minute: now.minute(),
        second: now.second(),
        millis: now.timestamp_subsec_millis(),
    }
}

/// The current local time, clamped into a representable valid timestamp:
/// the year is capped at four digits, the day at the month's length, the
/// milliseconds at 999.
pub fn now_clamped() -> (r: Timestamp)
    ensures
        r.valid(),
{
    let t = now_local();
    let year = if t.year > 9999 {
        9999
    } else {
        t.year
    };
    let dmax = month_days(year, t.month);
    let day = if t.day > dmax {
        dmax
    } else {
        t.day
    };
    let millis = if t.millis > 999 {
        999
    } else {
        t.millis
    };
    Timestamp { year, month: t.month, day, hour: t.hour, minute: t.minute, second: t.second, millis }
}

/// Formatting a valid timestamp yields a shaped stamp text that denotes the
/// same timestamp again, up to the dropped milliseconds.
pub proof fn lemma_stamp_round_trip(t: Timestamp)
    requires
        t.valid(),
    ensures
        stamp_text_shaped(rotated_stamp(t)),
        stamp_of_text(rotated_stamp(t)) == (Timestamp { millis: 0, ..t }),
{
    let s = rotated_stamp(t);
    assert(stamp_text_shaped(s)) by {
        assert forall|k: int|
            0 <= k < 19 && k != 4 && k != 7 && k != 10 && k != 13 && k != 16 implies is_digit(
            #[trigger] s[k],
        ) by {
            assert(t.year / 1000 <= 9) by (nonlinear_arith)
                requires
                    t.year <= 9999,
            ;
            assert(0 <= t.year % 10 <= 9 && 0 <= (t.year / 10) % 10 <= 9 && 0 <= (t.year / 100) % 10
                <= 9);
            assert(t.month / 10 <= 9 && t.day / 10 <= 9 && t.hour / 10 <= 9 && t.minute / 10 <= 9
                && t.second / 10 <= 9);
        }
    }
    assert(num4(s, 0) == t.year) by {
        assert(s[0] == digit_of(t.year as int / 1000));
        assert(s[1] == digit_of((t.year as int / 100) % 10));
        assert(s[2] == digit_of((t.year as int / 10) % 10));
        assert(s[3] == digit_of(t.year as int % 10));
        assert(t.year as int == (t.year as int / 1000) * 1000 + ((t.year as int / 100) % 10) * 100
            + ((t.year as int / 10) % 10) * 10 + t.year as int % 10) by (nonlinear_arith)
            requires
                0 <= t.year as int <= 9999,
        ;
        assert(t.year / 1000 <= 9) by (nonlinear_arith)
            requires
                t.year <= 9999,
        ;
    }
    assert(num2(s, 5) == t.month) by {
        assert(s[5] == digit_of(t.month as int / 10));
        assert(s[6] == digit_of(t.month as int % 10));
    }
    assert(num2(s, 8) == t.day) by {
        assert(s[8] == digit_of(t.day as int / 10));
        assert(s[9] == digit_of(t.day as int % 10));
    }
    assert(num2(s, 11) == t.hour) by {
        assert(s[11] == digit_of(t.hour as int / 10));
        assert(s[12] == digit_of(t.hour as int % 10));
    }
    assert(num2(s, 14) == t.minute) by {
        assert(s[14] == digit_of(t.minute as int / 10));
        assert(s[15] == digit_of(t.minute as int % 10));
    }
    assert(num2(s, 17) == t.second) by {
        assert(s[17] == digit_of(t.second as int / 10));
        assert(s[18] == digit_of(t.second as int % 10));
    }
}

/// The order is total: any two timestamps compare one way or the other.
pub proof fn lemma_le_total(a: Timestamp, b: Timestamp)
    ensures
        a.le_spec(b) || b.le_spec(a),
        a.le_spec(b) && b.le_spec(a) ==> a.millis == b.millis,
{
}

} // verus!
