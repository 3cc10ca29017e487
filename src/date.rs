//! Calendar dates carried by deployment signatures (`YYYYMMDD-...`).
use chrono::Datelike;
use vstd::prelude::*;
use vstd::string::StrSliceExecFns;

verus! {

/// A calendar date read from the leading `YYYYMMDD` segment of a signature.
#[derive(Clone, Copy, Debug, PartialEq, Eq, Structural)]
pub struct Date {
    pub year: i32,
    pub month: u32,
    pub day: u32,
}

pub open spec fn is_digit(c: char) -> bool {
    '0' <= c <= '9'
}

pub open spec fn digit_value(c: char) -> int {
    c as int - '0' as int
}

pub open spec fn is_leap_year(y: int) -> bool {
    (y % 4 == 0 && y % 100 != 0) || y % 400 == 0
}

pub open spec fn days_in_month(y: int, m: int) -> int {
    if m == 2 {
        if is_leap_year(y) {
            29
        } else {
            28
        }
    } else if m == 4 || m == 6 || m == 9 || m == 11 {
        30
    } else {
        31
    }
}

/// `(y, m, d)` names a day of the proleptic Gregorian calendar.
pub open spec fn is_calendar_date(y: int, m: int, d: int) -> bool {
    1 <= m <= 12 && 1 <= d <= days_in_month(y, m)
}

/// The first eight characters are ASCII digits.
pub open spec fn starts_with_eight_digits(s: Seq<char>) -> bool {
    s.len() >= 8 && forall|i: int| 0 <= i < 8 ==> is_digit(#[trigger] s[i])
}

pub open spec fn year_digits(s: Seq<char>) -> int {
    1000 * digit_value(s[0]) + 100 * digit_value(s[1]) + 10 * digit_value(s[2]) + digit_value(
        s[3],
    )
}

pub open spec fn month_digits(s: Seq<char>) -> int {
    10 * digit_value(s[4]) + digit_value(s[5])
}

pub open spec fn day_digits(s: Seq<char>) -> int {
    10 * digit_value(s[6]) + digit_value(s[7])
}

/// The segment before the first `-` (the whole string when there is none).
pub open spec fn first_segment(s: Seq<char>) -> Seq<char>
    decreases s.len(),
{
    if s.len() == 0 || s[0] == '-' {
        Seq::empty()
    } else {
        seq![s[0]] + first_segment(s.drop_first())
    }
}

/// The first segment of `s` is exactly eight ASCII digits.
pub open spec fn has_date_segment(s: Seq<char>) -> bool {
    starts_with_eight_digits(s) && (s.len() == 8 || s[8] == '-')
}

/// The date a signature carries: its first segment is eight digits `YYYYMMDD`
/// that name a calendar date.
pub open spec fn signature_date(s: Seq<char>) -> Option<Date> {
    if has_date_segment(s) && is_calendar_date(year_digits(s), month_digits(s), day_digits(s)) {
        Some(
            Date {
                year: year_digits(s) as i32,
                month: month_digits(s) as u32,
                day: day_digits(s) as u32,
            },
        )
    } else {
        None
    }
}

/// `a` is the same day as `b` or an earlier one.
pub open spec fn date_le(a: Date, b: Date) -> bool {
    a.year < b.year || (a.year == b.year && (a.month < b.month || (a.month == b.month && a.day
        <= b.day)))
}

proof fn lemma_first_segment_shape(s: Seq<char>)
    ensures
        first_segment(s).len() <= s.len(),
        first_segment(s) =~= s.subrange(0, first_segment(s).len() as int),
        forall|i: int| 0 <= i < first_segment(s).len() ==> s[i] != '-',
        first_segment(s).len() < s.len() ==> s[first_segment(s).len() as int] == '-',
    decreases s.len(),
{
    if s.len() == 0 || s[0] == '-' {
    } else {
        lemma_first_segment_shape(s.drop_first());
        assert forall|i: int| 0 <= i < first_segment(s).len() implies s[i] != '-' by {
            if i > 0 {
                assert(s[i] == s.drop_first()[i - 1]);
            }
        }
    }
}

/// Date extraction reads exactly the first `-`-separated segment: a signature carries
/// a date if and only if that segment is eight digits naming a calendar date, and the
/// date is the one those digits spell.
pub proof fn lemma_signature_date_reads_first_segment(s: Seq<char>)
    ensures
        signature_date(s) is Some <==> ({
            let seg = first_segment(s);
            seg.len() == 8 && starts_with_eight_digits(seg) && is_calendar_date(
                year_digits(seg),
                month_digits(seg),
                day_digits(seg),
            )
        }),
        signature_date(s) matches Some(d) ==> ({
            let seg = first_segment(s);
            d.year == year_digits(seg) && d.month == month_digits(seg) && d.day == day_digits(
                seg,
            )
        }),
{
    lemma_first_segment_shape(s);
    let seg = first_segment(s);
    if has_date_segment(s) {
        if seg.len() < 8 {
            assert(is_digit(s[seg.len() as int]));
        }
        assert(seg.len() == 8);
        assert forall|i: int| 0 <= i < 8 implies is_digit(#[trigger] seg[i]) by {
            assert(seg[i] == s[i]);
        }
        assert(seg[0] == s[0] && seg[1] == s[1] && seg[2] == s[2] && seg[3] == s[3]);
        assert(seg[4] == s[4] && seg[5] == s[5] && seg[6] == s[6] && seg[7] == s[7]);
    }
    if seg.len() == 8 && starts_with_eight_digits(seg) {
        assert forall|i: int| 0 <= i < 8 implies is_digit(#[trigger] s[i]) by {
            assert(seg[i] == s[i]);
        }
        assert(seg[0] == s[0] && seg[1] == s[1] && seg[2] == s[2] && seg[3] == s[3]);
        assert(seg[4] == s[4] && seg[5] == s[5] && seg[6] == s[6] && seg[7] == s[7]);
        assert(has_date_segment(s));
    }
}

impl Date {
    pub fn year(&self) -> (r: i32)
        ensures
            r == self.year,
    {
        self.year
    }

    pub fn month(&self) -> (r: u32)
        ensures
            r == self.month,
    {
        self.month
    }

    pub fn day(&self) -> (r: u32)
        ensures
            r == self.day,
    {
        self.day
    }

    /// Whether `self` falls on `other` or later.
    pub fn is_on_or_after(&self, other: &Date) -> (r: bool)
        ensures
            r == date_le(*other, *self),
    {
        if self.year != other.year {
            self.year > other.year
        } else if self.month != other.month {
            self.month > other.month
        } else {
            self.day >= other.day
        }
    }
}

/// Relies on chrono's `NaiveDate::parse_from_str` with the format `%Y%m%d`, and on its
/// `Datelike` accessors: on eight ASCII digits `%Y` takes the first four, `%m` the next
/// two and `%d` the last two, and the parse succeeds exactly when they name a calendar
/// date (chrono's range of years holds every four-digit year).
#[verifier::external_body]
fn parse_compact_date(s: &str) -> (r: Option<Date>)
    requires
        s@.len() == 8,
        starts_with_eight_digits(s@),
    ensures
        r is Some <==> is_calendar_date(year_digits(s@), month_digits(s@), day_digits(s@)),
        r matches Some(d) ==> d.year == year_digits(s@) && d.month == month_digits(s@) && d.day
            == day_digits(s@),
{
    match chrono::NaiveDate::parse_from_str(s, "%Y%m%d") {
        Ok(d) => Some(Date { year: d.year(), month: d.month(), day: d.day() }),
        Err(_) => None,
    }
}

/// Reads the date of a signature; `None` when its first segment is not eight digits
/// naming a calendar date.
pub fn date_from_signature(signature: &str) -> (r: Option<Date>)
    ensures
        r == signature_date(signature@),
{
    let n = signature.unicode_len();
    if n < 8 {
        return None;
    }
    let mut i: usize = 0;
    while i < 8
        invariant
            0 <= i <= 8,
            n == signature@.len(),
            n >= 8,
            forall|k: int| 0 <= k < i ==> is_digit(#[trigger] signature@[k]),
        decreases 8 - i,
    {
        let c = signature.get_char(i);
        if !('0' <= c && c <= '9') {
            return None;
        }
        i = i + 1;
    }
    if n > 8 && signature.get_char(8) != '-' {
        return None;
    }
    let segment = signature.substring_char(0, 8);
    assert(segment@ =~= signature@.subrange(0, 8));
    parse_compact_date(segment)
}

} // verus!
