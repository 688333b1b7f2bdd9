use vstd::prelude::*;

use crate::commands::CommandError;
use crate::human_duration::{split_words, words_from};
use crate::models::UtcDateTime;
use crate::text::{is_digit, push_str};

verus! {

/// A day of the proleptic Gregorian calendar.
#[derive(Clone, Copy, Debug, PartialEq, Eq, Structural)]
pub struct CalendarDate {
    pub year: i32,
    pub month: u8,
    pub day: u8,
}

/// A time of day, to the second.
#[derive(Clone, Copy, Debug, PartialEq, Eq, Structural)]
pub struct TimeOfDay {
    pub hour: u8,
    pub minute: u8,
    pub second: u8,
}

/// A date and time given by a user: a date, a time or both, and a UTC offset in seconds.
#[derive(Clone, Copy, Debug, PartialEq, Eq, Structural)]
pub struct HumanDateTime {
    pub date: Option<CalendarDate>,
    pub time: Option<TimeOfDay>,
    pub utc_offset_seconds: i32,
}

/// What one token of a date-time text gives.
#[derive(Clone, Copy, Debug, PartialEq, Eq, Structural)]
pub enum TokenValue {
    Date(CalendarDate),
    Time(TimeOfDay),
    Offset(i32),
}

/// What the tokens read so far gave.
#[derive(Clone, Copy, Debug, PartialEq, Eq, Structural)]
pub struct Fields {
    pub date: Option<CalendarDate>,
    pub time: Option<TimeOfDay>,
    pub offset: Option<i32>,
}

pub open spec fn is_leap_year(y: int) -> bool {
    (y % 4 == 0 && y % 100 != 0) || y % 400 == 0
}

pub open spec fn days_in_month(y: int, m: int) -> int {
    if m == 2 {
        if is_leap_year(y) {
            29
        } else {
            28
        }
    } else if m == 4 || m == 6 || m == 9 || m == 11 {
        30
    } else {
        31
    }
}

pub open spec fn digit_at(t: Seq<char>, i: int) -> int {
    t[i] as int - '0' as int
}

/// The two-digit number at `t[i..i + 2]`.
pub open spec fn num2(t: Seq<char>, i: int) -> int {
    digit_at(t, i) * 10 + digit_at(t, i + 1)
}

pub open spec fn digits_at(t: Seq<char>, from: int, to: int) -> bool {
    forall|k: int| from <= k < to ==> is_digit(#[trigger] t[k])
}

/// `dddd-dd-dd`
pub open spec fn date_shape(t: Seq<char>) -> bool {
    t.len() == 10 && digits_at(t, 0, 4) && t[4] == '-' && digits_at(t, 5, 7) && t[7] == '-'
        && digits_at(t, 8, 10)
}

/// `dd:dd` or `dd:dd:dd`
pub open spec fn time_shape(t: Seq<char>) -> bool {
    (t.len() == 5 || t.len() == 8) && digits_at(t, 0, 2) && t[2] == ':' && digits_at(t, 3, 5) && (
    t.len() == 8 ==> t[5] == ':' && digits_at(t, 6, 8))
}

/// `UTC`, optionally followed by a sign, one or two digits of hours, and optionally `:` and two
/// digits of minutes. Gives the sign, hours and minutes.
pub open spec fn offset_parts(t: Seq<char>) -> Option<(int, int, int)> {
    if !(t.len() >= 3 && t[0] == 'U' && t[1] == 'T' && t[2] == 'C') {
        None
    } else if t.len() == 3 {
        Some((1, 0, 0))
    } else if !(t[3] == '+' || t[3] == '-') {
        None
    } else {
        let sign = if t[3] == '+' {
            1int
        } else {
            -1int
        };
        if t.len() == 5 && digits_at(t, 4, 5) {
            Some((sign, digit_at(t, 4), 0))
        } else if t.len() == 6 && digits_at(t, 4, 6) {
            Some((sign, num2(t, 4), 0))
        } else if t.len() == 8 && digits_at(t, 4, 5) && t[5] == ':' && digits_at(t, 6, 8) {
            Some((sign, digit_at(t, 4), num2(t, 6)))
        } else if t.len() == 9 && digits_at(t, 4, 6) && t[6] == ':' && digits_at(t, 7, 9) {
            Some((sign, num2(t, 4), num2(t, 7)))
        } else {
            None
        }
    }
}

/// Offset in seconds for signed hours and unsigned minutes; the minutes take the sign of the
/// hours, and count as positive where the hours are 0.
pub open spec fn offset_seconds(hours: int, minutes: int) -> int {
    hours * 3600 + if hours < 0 {
        -minutes * 60
    } else {
        minutes * 60
    }
}

/// What a token gives; `None` where it is malformed or out of range.
pub open spec fn token_value(t: Seq<char>) -> Option<TokenValue> {
    if date_shape(t) {
        let y = num2(t, 0) * 100 + num2(t, 2);
        let m = num2(t, 5);
        let d = num2(t, 8);
        if 1 <= m <= 12 && 1 <= d <= days_in_month(y, m) {
            Some(TokenValue::Date(CalendarDate { year: y as i32, month: m as u8, day: d as u8 }))
        } else {
            None
        }
    } else if time_shape(t) {
        let h = num2(t, 0);
        let mi = num2(t, 3);
        let s = if t.len() == 8 {
            num2(t, 6)
        } else {
            0
        };
        if h < 24 && mi < 60 && s < 60 {
            Some(TokenValue::Time(TimeOfDay { hour: h as u8, minute: mi as u8, second: s as u8 }))
        } else {
            None
        }
    } else {
        match offset_parts(t) {
            Some((sign, h, mi)) => if h <= 25 && mi <= 59 {
                Some(TokenValue::Offset(offset_seconds(sign * h, mi) as i32))
            } else {
                None
            },
            None => None,
        }
    }
}

/// Reads tokens from `i` on into `acc`; `None` at a bad token or at a second date, time or offset.
pub open spec fn read_tokens(ts: Seq<Seq<char>>, i: int, acc: Fields) -> Option<Fields>
    decreases ts.len() - i,
{
    if i < 0 || i >= ts.len() {
        Some(acc)
    } else {
        match token_value(ts[i]) {
            None => None,
            Some(TokenValue::Date(d)) => if acc.date is Some {
                None
            } else {
                read_tokens(ts, i + 1, Fields { date: Some(d), ..acc })
            },
            Some(TokenValue::Time(t)) => if acc.time is Some {
                None
            } else {
                read_tokens(ts, i + 1, Fields { time: Some(t), ..acc })
            },
            Some(TokenValue::Offset(o)) => if acc.offset is Some {
                None
            } else {
                read_tokens(ts, i + 1, Fields { offset: Some(o), ..acc })
            },
        }
    }
}

/// The date-time a text denotes: whitespace-separated tokens, each a date, a time or a UTC
/// offset, each at most once, with an offset and at least a date or a time.
pub open spec fn spec_human_datetime(s: Seq<char>) -> Option<HumanDateTime> {
    match read_tokens(words_from(s, Seq::empty(), false), 0, Fields { date: None, time: None, offset: None }) {
        Some(f) => if f.offset is None || (f.date is None && f.time is None) {
            None
        } else {
            Some(HumanDateTime { date: f.date, time: f.time, utc_offset_seconds: f.offset->0 })
        },
        None => None,
    }
}

fn digit(c: char) -> (r: bool)
    ensures
        r == is_digit(c),
{
    '0' <= c && c <= '9'
}

fn digits_exec(t: &Vec<char>, from: usize, to: usize) -> (r: bool)
    requires
        from <= to <= t@.len(),
    ensures
        r == digits_at(t@, from as int, to as int),
{
    let mut k = from;
    while k < to
        invariant
            from <= k <= to,
            to <= t@.len(),
            forall|j: int| from <= j < k ==> is_digit(#[trigger] t@[j]),
        decreases to - k,
    {
        if !digit(t[k]) {
            return false;
        }
        k += 1;
    }
    true
}

fn num2_exec(t: &Vec<char>, i: usize) -> (r: u32)
    requires
        i + 2 <= t@.len(),
        digits_at(t@, i as int, i + 2),
    ensures
        r == num2(t@, i as int),
        r < 100,
{
    assert(is_digit(t@[i as int]) && is_digit(t@[i + 1]));
    assert(48 <= (t@[i as int] as u32) <= 57 && 48 <= (t@[i + 1] as u32) <= 57);
    let n = t.len();
    let j = i + 1;
    assert(j < n);
    (t[i] as u32 - '0' as u32) * 10 + (t[j] as u32 - '0' as u32)
}

fn days_in_month_exec(y: u32, m: u32) -> (r: u32)
    ensures
        r == days_in_month(y as int, m as int),
{
    if m == 2 {
        if (y % 4 == 0 && y % 100 != 0) || y % 400 == 0 {
            29
        } else {
            28
        }
    } else if m == 4 || m == 6 || m == 9 || m == 11 {
        30
    } else {
        31
    }
}

fn offset_exec(t: &Vec<char>) -> (r: Option<(i32, u32, u32)>)
    ensures
        r is Some <==> offset_parts(t@) is Some,
        r matches Some(p) ==> offset_parts(t@) == Some((p.0 as int, p.1 as int, p.2 as int)) && p.1 < 100
            && p.2 < 100,
{
    let n = t.len();
    if !(n >= 3 && t[0] == 'U' && t[1] == 'T' && t[2] == 'C') {
        return None;
    }
    if n == 3 {
        return Some((1, 0, 0));
    }
    if !(t[3] == '+' || t[3] == '-') {
        return None;
    }
    let sign: i32 = if t[3] == '+' {
        1
    } else {
        -1
    };
    if n == 5 && digits_exec(t, 4, 5) {
        assert(is_digit(t@[4]));
        Some((sign, t[4] as u32 - '0' as u32, 0))
    } else if n == 6 && digits_exec(t, 4, 6) {
        Some((sign, num2_exec(t, 4), 0))
    } else if n == 8 && digits_exec(t, 4, 5) && t[5] == ':' && digits_exec(t, 6, 8) {
        assert(is_digit(t@[4]));
        Some((sign, t[4] as u32 - '0' as u32, num2_exec(t, 6)))
    } else if n == 9 && digits_exec(t, 4, 6) && t[6] == ':' && digits_exec(t, 7, 9) {
        Some((sign, num2_exec(t, 4), num2_exec(t, 7)))
    } else {
        None
    }
}

/// What a token gives.
fn token_exec(t: &Vec<char>) -> (r: Option<TokenValue>)
    ensures
        r == token_value(t@),
{
    let n = t.len();
    if n == 10 && digits_exec(t, 0, 4) && t[4] == '-' && digits_exec(t, 5, 7) && t[7] == '-' && digits_exec(
        t,
        8,
        10,
    ) {
        let y = num2_exec(t, 0) * 100 + num2_exec(t, 2);
        let m = num2_exec(t, 5);
        let d = num2_exec(t, 8);
        if 1 <= m && m <= 12 && 1 <= d && d <= days_in_month_exec(y, m) {
            return Some(TokenValue::Date(CalendarDate { year: y as i32, month: m as u8, day: d as u8 }));
        }
        return None;
    }
    if (n == 5 || n == 8) && digits_exec(t, 0, 2) && t[2] == ':' && digits_exec(t, 3, 5) && (n == 5 || (
    t[5] == ':' && digits_exec(t, 6, 8))) {
        let h = num2_exec(t, 0);
        let mi = num2_exec(t, 3);
        let s = if n == 8 {
            num2_exec(t, 6)
        } else {
            0
        };
        if h < 24 && mi < 60 && s < 60 {
            return Some(TokenValue::Time(TimeOfDay { hour: h as u8, minute: mi as u8, second: s as u8 }));
        }
        return None;
    }
    match offset_exec(t) {
        Some((sign, h, mi)) => {
            if h <= 25 && mi <= 59 {
                let hours = sign * (h as i32);
                let minutes = if hours < 0 {
                    -(mi as i32)
                } else {
                    mi as i32
                };
                Some(TokenValue::Offset(hours * 3600 + minutes * 60))
            } else {
                None
            }
        },
        None => None,
    }
}

proof fn lemma_token_value_valid(t: Seq<char>)
    ensures
        token_value(t) matches Some(TokenValue::Date(d)) ==> valid_date(d),
        token_value(t) matches Some(TokenValue::Time(x)) ==> x.hour < 24 && x.minute < 60 && x.second < 60,
        token_value(t) matches Some(TokenValue::Offset(o)) ==> -93600 <= o <= 93600,
{
    if date_shape(t) {
        assert(is_digit(t[0]) && is_digit(t[1]) && is_digit(t[2]) && is_digit(t[3]));
        assert(is_digit(t[5]) && is_digit(t[6]) && is_digit(t[8]) && is_digit(t[9]));
    } else if time_shape(t) {
        assert(is_digit(t[0]) && is_digit(t[1]) && is_digit(t[3]) && is_digit(t[4]));
        if t.len() == 8 {
            assert(is_digit(t[6]) && is_digit(t[7]));
        }
    } else if let Some((sign, h, mi)) = offset_parts(t) {
        if t.len() == 5 {
            assert(is_digit(t[4]));
        } else if t.len() == 6 {
            assert(is_digit(t[4]) && is_digit(t[5]));
        } else if t.len() == 8 {
            assert(is_digit(t[4]) && is_digit(t[6]) && is_digit(t[7]));
        } else if t.len() == 9 {
            assert(is_digit(t[4]) && is_digit(t[5]) && is_digit(t[7]) && is_digit(t[8]));
        }
        assert(sign == 1 || sign == -1);
        assert(h >= 0 && mi >= 0);
        if h <= 25 && mi <= 59 {
            if sign == 1 {
                assert(sign * h == h);
            } else {
                assert(sign * h == -h);
            }
            assert(-93600 <= offset_seconds(sign * h, mi) <= 93600);
        }
    }
}

fn invalid(text: &str) -> (r: CommandError)
    ensures
        r is User,
{
    let mut message = String::new();
    push_str(&mut message, text);
    push_str(&mut message, "\nDatetime examples: `2023-06-24 15:33:40 UTC+7`, `15:33 UTC`.");
    CommandError::User { message }
}

impl HumanDateTime {
    /// Parses a date (`2023-06-24`), a time (`15:33` or `15:33:40`) and a UTC offset (`UTC`,
    /// `UTC+7`, `UTC-2:30`), in any order, separated by whitespace.
    pub fn from_str(s: &str) -> (r: Result<HumanDateTime, CommandError>)
        ensures
            r is Ok <==> spec_human_datetime(s@) is Some,
            r matches Ok(d) ==> d == spec_human_datetime(s@)->0 && d.wf(),
            r matches Err(e) ==> e is User,
    {
        let tokens = split_words(s, false);
        let ghost ts = words_from(s@, Seq::empty(), false);
        let mut acc = Fields { date: None, time: None, offset: None };
        let n = tokens.len();
        let mut i: usize = 0;
        while i < n
            invariant
                n == tokens@.len(),
                n == ts.len(),
                ts == words_from(s@, Seq::empty(), false),
                forall|k: int| 0 <= k < n ==> (#[trigger] tokens@[k])@ == ts[k],
                i <= n,
                read_tokens(ts, 0, Fields { date: None, time: None, offset: None }) == read_tokens(ts, i as int, acc),
                acc.date matches Some(d) ==> valid_date(d),
                acc.time matches Some(t) ==> t.hour < 24 && t.minute < 60 && t.second < 60,
                acc.offset matches Some(o) ==> -93600 <= o <= 93600,
            decreases n - i,
        {
            proof {
                assert(tokens@[i as int]@ == ts[i as int]);
            }
            let value = token_exec(&tokens[i]);
            proof {
                lemma_token_value_valid(tokens@[i as int]@);
            }
            match value {
                None => {
                    return Err(invalid("Invalid token."));
                },
                Some(TokenValue::Date(d)) => {
                    if acc.date.is_some() {
                        return Err(invalid("Duplicate date."));
                    }
                    acc = Fields { date: Some(d), ..acc };
                },
                Some(TokenValue::Time(t)) => {
                    if acc.time.is_some() {
                        return Err(invalid("Duplicate time."));
                    }
                    acc = Fields { time: Some(t), ..acc };
                },
                Some(TokenValue::Offset(o)) => {
                    if acc.offset.is_some() {
                        return Err(invalid("Duplicate UTC offset."));
                    }
                    acc = Fields { offset: Some(o), ..acc };
                },
            }
            i += 1;
        }
        match acc.offset {
            None => Err(invalid("No UTC offset is provided.")),
            Some(offset) => {
                if acc.date.is_none() && acc.time.is_none() {
                    Err(invalid("Neither date nor time is provided."))
                } else {
                    Ok(HumanDateTime { date: acc.date, time: acc.time, utc_offset_seconds: offset })
                }
            },
        }
    }
}


/// A valid calendar date within the years the `time` crate handles.
pub open spec fn valid_date(d: CalendarDate) -> bool {
    -9999 <= d.year <= 9999 && 1 <= d.month <= 12 && 1 <= d.day <= days_in_month(d.year as int, d.month as int)
}

/// Days of the year before the first of `month`, in a common year.
pub open spec fn days_before_month(month: int) -> int {
    if month <= 1 {
        0
    } else if month == 2 {
        31
    } else if month == 3 {
        59
    } else if month == 4 {
        90
    } else if month == 5 {
        120
    } else if month == 6 {
        151
    } else if month == 7 {
        181
    } else if month == 8 {
        212
    } else if month == 9 {
        243
    } else if month == 10 {
        273
    } else if month == 11 {
        304
    } else {
        334
    }
}

/// Day of the year, from 1.
pub open spec fn ordinal_of(year: int, month: int, day: int) -> int {
    days_before_month(month) + (if is_leap_year(year) && month > 2 {
        1int
    } else {
        0
    }) + day
}

/// The Julian day number of a date: days before the year (counted from a year shifted to be
/// non-negative) plus the day of the year, less the shift.
pub open spec fn julian_day_of(year: int, month: int, day: int) -> int {
    let shifted = year + 999_999;
    let century = shifted / 100;
    (1461 * shifted) / 4 - century + century / 4 + ordinal_of(year, month, day) - 363_521_075
}

/// Relies on `time::Date::from_calendar_date` and `time::Date::to_julian_day`: the Julian day
/// number of a valid date, by the formula above (`to_julian_day` over the ordinal date that
/// `from_calendar_date` stores).
#[verifier::external_body]
fn julian_day(date: CalendarDate) -> (r: i32)
    requires
        valid_date(date),
    ensures
        r == julian_day_of(date.year as int, date.month as int, date.day as int),
{
    let month = time::Month::try_from(date.month).unwrap();
    time::Date::from_calendar_date(date.year, month, date.day).unwrap().to_julian_day()
}

/// Nanoseconds in a day.
pub const DAY_NANOS: i128 = 86_400_000_000_000;

/// Largest distance from the epoch, in nanoseconds, of the instants `materialize` takes.
pub const MAX_INSTANT_NANOS: i128 = 1_000_000_000_000_000_000_000_000_000_000;

pub open spec fn tod_nanos(t: TimeOfDay) -> int {
    (t.hour * 3600 + t.minute * 60 + t.second) * 1_000_000_000
}

/// Start of `d` in UTC, in nanoseconds since the epoch.
pub open spec fn date_start(d: CalendarDate) -> int {
    (julian_day_of(d.year as int, d.month as int, d.day as int) - julian_day_of(1970, 1, 1)) * DAY_NANOS
}

/// The instant a user's date-time denotes at `base` (nanoseconds since the epoch), read in the
/// user's offset: the given date and time; the given date at `base`'s time of day; or the next
/// occurrence after `base` of the given time.
pub open spec fn spec_materialize(h: HumanDateTime, base: int) -> int {
    let off = h.utc_offset_seconds * 1_000_000_000;
    let local = base + off;
    let day = local / (DAY_NANOS as int);
    let tod = local % (DAY_NANOS as int);
    match (h.date, h.time) {
        (Some(d), Some(t)) => date_start(d) + tod_nanos(t) - off,
        (Some(d), None) => date_start(d) + tod - off,
        (None, Some(t)) => (if tod_nanos(t) <= tod {
            day + 1
        } else {
            day
        }) * DAY_NANOS + tod_nanos(t) - off,
        (None, None) => base,
    }
}

impl HumanDateTime {
    /// A parsed date-time: a valid date where there is one, a time of day, an offset within a
    /// day, and a date or a time.
    pub open spec fn wf(&self) -> bool {
        &&& (self.date matches Some(d) ==> valid_date(d))
        &&& (self.time matches Some(t) ==> t.hour < 24 && t.minute < 60 && t.second < 60)
        &&& -93600 <= self.utc_offset_seconds <= 93600
        &&& (self.date is Some || self.time is Some)
    }

    /// The instant this date-time denotes at `base`.
    pub fn materialize(&self, base: UtcDateTime) -> (r: UtcDateTime)
        requires
            self.wf(),
            -MAX_INSTANT_NANOS <= base.unix_nanos <= MAX_INSTANT_NANOS,
        ensures
            r.unix_nanos == spec_materialize(*self, base.unix_nanos as int),
    {
        let off = self.utc_offset_seconds as i128 * 1_000_000_000;
        let local = base.unix_nanos + off;
        let mut day = local / DAY_NANOS;
        let mut tod = local % DAY_NANOS;
        if tod < 0 {
            day = day - 1;
            tod = tod + DAY_NANOS;
        }
        proof {
            assert(day == local as int / DAY_NANOS as int);
            assert(tod == local as int % DAY_NANOS as int);
        }
        let at = match (self.date, self.time) {
            (Some(d), Some(t)) => {
                let start = (julian_day(d) as i128 - julian_day(CalendarDate { year: 1970, month: 1, day: 1 }) as i128)
                    * DAY_NANOS;
                start + (t.hour as i128 * 3600 + t.minute as i128 * 60 + t.second as i128) * 1_000_000_000 - off
            },
            (Some(d), None) => {
                let start = (julian_day(d) as i128 - julian_day(CalendarDate { year: 1970, month: 1, day: 1 }) as i128)
                    * DAY_NANOS;
                start + tod - off
            },
            (None, Some(t)) => {
                let clock = (t.hour as i128 * 3600 + t.minute as i128 * 60 + t.second as i128) * 1_000_000_000;
                let next = if clock <= tod {
                    day + 1
                } else {
                    day
                };
                proof {
                    assert(-20_000_000_000_000_000 <= next <= 20_000_000_000_000_000);
                    assert(next * 86_400_000_000_000 <= 20_000_000_000_000_000 * 86_400_000_000_000int) by (nonlinear_arith)
                        requires next <= 20_000_000_000_000_000int;
                    assert(next * 86_400_000_000_000 >= -20_000_000_000_000_000 * 86_400_000_000_000int) by (nonlinear_arith)
                        requires next >= -20_000_000_000_000_000int;
                }
                next * DAY_NANOS + clock - off
            },
            (None, None) => base.unix_nanos,
        };
        UtcDateTime::from_unix_nanos(at)
    }
}

} // verus!
