//! Calendar dates, validated against a fixed, non-leap-aware days-in-month
//! table, and ordered lexicographically by (year, month, day).

use vstd::prelude::*;

use crate::errors::ValidationError;
use crate::text::{
    digit_char, digit_str, find_sep, lemma_split_first, lemma_split_len, lemma_split_none,
    parse_seg, seg_val, split_on, two_digits,
};
use vstd::string::StringExecFns;

verus! {

/// Days in each month of the fixed calendar. February always has 28 days:
/// leap years are deliberately not accounted for.
pub open spec fn days_in_month(month: int) -> int {
    if month == 1 {
        31
    } else if month == 2 {
        28
    } else if month == 3 {
        31
    } else if month == 4 {
        30
    } else if month == 5 {
        31
    } else if month == 6 {
        30
    } else if month == 7 {
        31
    } else if month == 8 {
        31
    } else if month == 9 {
        30
    } else if month == 10 {
        31
    } else if month == 11 {
        30
    } else if month == 12 {
        31
    } else {
        0
    }
}

/// A (year, month, day) triple is a real calendar day: the year is 1970 or
/// later (and fits a `u16`), the month is 1..=12, and the day fits the month.
pub open spec fn valid_date(year: int, month: int, day: int) -> bool {
    &&& 1970 <= year < 0x10000
    &&& 1 <= month <= 12
    &&& 1 <= day <= days_in_month(month)
}

/// A calendar day. Values are only constructed through validating factories,
/// so every `Date` in a running program satisfies [`date_wf`].
#[derive(Clone, Copy, Debug, PartialEq, Eq, Structural, PartialOrd)]
pub struct Date {
    year: u16,
    month: u8,
    day: u8,
}

impl View for Date {
    type V = (int, int, int);

    closed spec fn view(&self) -> (int, int, int) {
        (self.year as int, self.month as int, self.day as int)
    }
}

/// The date's fields form a real calendar day.
pub open spec fn date_wf(d: Date) -> bool {
    valid_date(d@.0, d@.1, d@.2)
}

/// A single integer that orders dates exactly as the lexicographic order on
/// (year, month, day) does, for every representable field value.
pub open spec fn date_val(d: Date) -> int {
    d@.0 * 0x10000 + d@.1 * 0x100 + d@.2
}

/// Two dates with the same view are the same date.
pub proof fn lemma_date_view_injective(a: Date, b: Date)
    ensures
        (a@ == b@) <==> (a == b),
{
}

impl Date {
    /// Validating factory: succeeds exactly on real calendar days.
    pub fn new(year: u16, month: u8, day: u8) -> (r: Result<Date, ValidationError>)
        ensures
            r is Ok <==> valid_date(year as int, month as int, day as int),
            r matches Ok(d) ==> d@ == (year as int, month as int, day as int),
    {
        if day == 0 || month == 0 || year < 1970 || month > 12 {
            Err(ValidationError)
        } else if day > days_in_month_of(month) {
            Err(ValidationError)
        } else {
            Ok(Date { year, month, day })
        }
    }

    /// The date's fields, plainly.
    pub fn parts(&self) -> (r: (u16, u8, u8))
        ensures
            (r.0 as int, r.1 as int, r.2 as int) == self@,
    {
        (self.year, self.month, self.day)
    }

    /// Strict lexicographic order on (year, month, day).
    pub fn before(&self, other: &Date) -> (r: bool)
        ensures
            r == (date_val(*self) < date_val(*other)),
    {
        if self.year != other.year {
            self.year < other.year
        } else if self.month != other.month {
            self.month < other.month
        } else {
            self.day < other.day
        }
    }

    /// Strictly between `start` and `end`: exclusive on both ends.
    pub fn is_between(&self, start: &Date, end: &Date) -> (r: bool)
        ensures
            r == (date_val(*start) < date_val(*self) && date_val(*self) < date_val(*end)),
    {
        start.before(self) && self.before(end)
    }

    /// The date a wall-clock reading stands for: the reading itself when it
    /// is a day of the fixed calendar, and the epoch day 1970-01-01 when it
    /// is not (a year before 1970 or past the `u16` range, or February 29,
    /// which the non-leap table does not know).
    pub fn from_clock(year: i32, month: u32, day: u32) -> (r: Date)
        ensures
            valid_date(year as int, month as int, day as int) ==> r@ == (
                year as int,
                month as int,
                day as int,
            ),
            !valid_date(year as int, month as int, day as int) ==> r@ == (1970int, 1int, 1int),
            date_wf(r),
    {
        if 1970 <= year && year <= 0xFFFF && 1 <= month && month <= 12 {
            let m = month as u8;
            if 1 <= day && day <= days_in_month_of(m) as u32 {
                return Date { year: year as u16, month: m, day: day as u8 };
            }
        }
        Date { year: 1970, month: 1, day: 1 }
    }

    /// Today's date, read from the wall clock. The clock alone decides the
    /// value; only its well-formedness is promised.
    pub fn today() -> (r: Date)
        ensures
            date_wf(r),
    {
        let (year, month, day) = crate::clock::now_date_parts();
        Date::from_clock(year, month, day)
    }
}

impl crate::interval::Boundary for Date {
    open spec fn bval(self) -> int {
        date_val(self)
    }

    fn bval_lt(self, other: Self) -> (r: bool) {
        self.before(&other)
    }
}

/// The year as four decimal digits, or five for years past 9999.
pub open spec fn year_digits(y: int) -> Seq<char> {
    if y < 10000 {
        seq![
            digit_char(y / 1000 % 10),
            digit_char(y / 100 % 10),
            digit_char(y / 10 % 10),
            digit_char(y % 10),
        ]
    } else {
        seq![
            digit_char(y / 10000),
            digit_char(y / 1000 % 10),
            digit_char(y / 100 % 10),
            digit_char(y / 10 % 10),
            digit_char(y % 10),
        ]
    }
}

/// The date's text: zero-padded year, month and day, dash-separated.
pub open spec fn date_text(v: (int, int, int)) -> Seq<char> {
    year_digits(v.0) + seq!['-'] + two_digits(v.1) + seq!['-'] + two_digits(v.2)
}

/// What a text parses to: the values of its three dash-separated all-digit
/// parts, if it has exactly that shape.
pub open spec fn date_from_text(s: Seq<char>) -> Option<(int, int, int)> {
    let parts = split_on(s, '-');
    if parts.len() == 3 && seg_val(parts[0]) is Some && seg_val(parts[1]) is Some && seg_val(
        parts[2],
    ) is Some {
        Some((seg_val(parts[0])->Some_0, seg_val(parts[1])->Some_0, seg_val(parts[2])->Some_0))
    } else {
        None
    }
}

/// Days before each month in the fixed, non-leap calendar.
pub open spec fn month_offset(m: int) -> int {
    if m <= 1 {
        0
    } else if m == 2 {
        31
    } else if m == 3 {
        59
    } else if m == 4 {
        90
    } else if m == 5 {
        120
    } else if m == 6 {
        151
    } else if m == 7 {
        181
    } else if m == 8 {
        212
    } else if m == 9 {
        243
    } else if m == 10 {
        273
    } else if m == 11 {
        304
    } else {
        334
    }
}

/// The month and day of a day-of-year between 1 and 365.
pub open spec fn month_day_of(x: int) -> (int, int) {
    if x <= 31 {
        (1, x)
    } else if x <= 59 {
        (2, x - 31)
    } else if x <= 90 {
        (3, x - 59)
    } else if x <= 120 {
        (4, x - 90)
    } else if x <= 151 {
        (5, x - 120)
    } else if x <= 181 {
        (6, x - 151)
    } else if x <= 212 {
        (7, x - 181)
    } else if x <= 243 {
        (8, x - 212)
    } else if x <= 273 {
        (9, x - 243)
    } else if x <= 304 {
        (10, x - 273)
    } else if x <= 334 {
        (11, x - 304)
    } else {
        (12, x - 334)
    }
}

/// `month_day_of` inverts `month_offset` plus a day of the month.
pub proof fn lemma_month_day_of(m: int, d: int)
    requires
        1 <= m <= 12,
        1 <= d <= days_in_month(m),
    ensures
        month_day_of(month_offset(m) + d) == (m, d),
{
}

/// What adding days means: move forward within the fixed 365-day year,
/// carrying into the month but never into the year; days that would cross
/// the year's end do not fit.
pub open spec fn add_days_spec(v: (int, int, int), n: int) -> Option<(int, int, int)> {
    let doy = month_offset(v.1) + v.2 + n;
    if doy <= 365 {
        Some((v.0, month_day_of(doy).0, month_day_of(doy).1))
    } else {
        None
    }
}

/// Executable counterpart of [`days_in_month`].
pub fn days_in_month_of(month: u8) -> (r: u8)
    ensures
        r as int == days_in_month(month as int),
{
    match month {
        1 => 31,
        2 => 28,
        3 => 31,
        4 => 30,
        5 => 31,
        6 => 30,
        7 => 31,
        8 => 31,
        9 => 30,
        10 => 31,
        11 => 30,
        12 => 31,
        _ => 0,
    }
}

impl Date {
    /// The date's text, as in 2010-06-01.
    pub fn as_string(self) -> (r: String)
        requires
            date_wf(self),
        ensures
            r@ == date_text(self@),
    {
        let (y, mo, da) = self.parts();
        let mut out = String::new();
        if y >= 10000 {
            out.append(digit_str((y / 10000) as u8));
        }
        out.append(digit_str((y / 1000 % 10) as u8));
        out.append(digit_str((y / 100 % 10) as u8));
        out.append(digit_str((y / 10 % 10) as u8));
        out.append(digit_str((y % 10) as u8));
        out.append("-");
        out.append(digit_str((mo / 10) as u8));
        out.append(digit_str((mo % 10) as u8));
        out.append("-");
        out.append(digit_str((da / 10) as u8));
        out.append(digit_str((da % 10) as u8));
        proof {
            reveal_strlit("-");
            assert(out@ =~= date_text(self@));
        }
        out
    }

    /// Parse a date from text of exactly the shape YYYY-MM-DD: three
    /// dash-separated all-digit parts that name a real calendar day;
    /// anything else is rejected.
    pub fn parse(s: &str) -> (r: Result<Date, ValidationError>)
        ensures
            r is Ok <==> (date_from_text(s@) matches Some(v) && valid_date(v.0, v.1, v.2)),
            r matches Ok(d) ==> (date_from_text(s@) matches Some(v) && d@ == v),
    {
        let n = s.unicode_len();
        let i1 = match find_sep(s, 0, '-') {
            Some(i) => i,
            None => {
                proof {
                    lemma_split_none(s@, '-');
                }
                return Err(ValidationError);
            },
        };
        let i2 = match find_sep(s, i1 + 1, '-') {
            Some(i) => i,
            None => {
                proof {
                    lemma_split_first(s@, '-', i1 as int);
                    lemma_split_none(s@.skip(i1 as int + 1), '-');
                }
                return Err(ValidationError);
            },
        };
        match find_sep(s, i2 + 1, '-') {
            Some(i3) => {
                proof {
                    lemma_split_first(s@, '-', i1 as int);
                    lemma_split_first(s@.skip(i1 as int + 1), '-', i2 as int - i1 - 1);
                    lemma_split_first(s@.skip(i2 as int + 1), '-', i3 as int - i2 - 1);
                    lemma_split_len(s@.skip(i2 as int + 1).skip(i3 as int - i2), '-');
                    assert(s@.skip(i1 as int + 1)[i2 as int - i1 - 1] == s@[i2 as int]);
                    assert(s@.skip(i2 as int + 1)[i3 as int - i2 - 1] == s@[i3 as int]);
                    assert(s@.skip(i1 as int + 1).skip(i2 as int - i1) =~= s@.skip(i2 as int + 1));
                }
                return Err(ValidationError);
            },
            None => {},
        };
        proof {
            lemma_split_first(s@, '-', i1 as int);
            lemma_split_first(s@.skip(i1 as int + 1), '-', i2 as int - i1 - 1);
            lemma_split_none(s@.skip(i2 as int + 1), '-');
            assert(s@.skip(i1 as int + 1)[i2 as int - i1 - 1] == s@[i2 as int]);
            assert(s@.skip(i1 as int + 1).skip(i2 as int - i1) =~= s@.skip(i2 as int + 1));
            assert(split_on(s@, '-') =~~= seq![
                s@.subrange(0, i1 as int),
                s@.subrange(i1 as int + 1, i2 as int),
                s@.subrange(i2 as int + 1, n as int),
            ]);
        }
        let y = match parse_seg(s, 0, i1) {
            Some(v) => v,
            None => {
                return Err(ValidationError);
            },
        };
        let mo = match parse_seg(s, i1 + 1, i2) {
            Some(v) => v,
            None => {
                return Err(ValidationError);
            },
        };
        let da = match parse_seg(s, i2 + 1, n) {
            Some(v) => v,
            None => {
                return Err(ValidationError);
            },
        };
        if y <= 0xFFFF && mo <= 0xFF && da <= 0xFF {
            Date::new(y as u16, mo as u8, da as u8)
        } else {
            Err(ValidationError)
        }
    }

    /// Move the date forward by whole days, carrying into the month with
    /// the same non-leap table but never into the year: days that would
    /// cross December 31 are rejected rather than wrapped.
    pub fn plus_days(self, days: usize) -> (r: Result<Date, ValidationError>)
        requires
            date_wf(self),
        ensures
            r is Ok <==> add_days_spec(self@, days as int) is Some,
            r matches Ok(d) ==> add_days_spec(self@, days as int) == Some(d@) && date_wf(d),
    {
        if days > 365 {
            return Err(ValidationError);
        }
        let mut m: u8 = self.month;
        let mut d: u8 = self.day;
        let mut left: u32 = days as u32;
        let mut dim: u8 = days_in_month_of(m);
        while (d as u32) + left > dim as u32
            invariant
                1 <= m <= 12,
                1 <= d as int <= days_in_month(m as int),
                dim as int == days_in_month(m as int),
                left <= 365,
                month_offset(m as int) + d + left == month_offset(self@.1) + self@.2 + days,
            decreases 12 - m,
        {
            if m == 12 {
                return Err(ValidationError);
            }
            left = left - ((dim - d) as u32 + 1);
            d = 1;
            m = m + 1;
            dim = days_in_month_of(m);
        }
        let nd = ((d as u32) + left) as u8;
        let out = Date { year: self.year, month: m, day: nd };
        proof {
            lemma_month_day_of(m as int, nd as int);
        }
        Ok(out)
    }
}

} // verus!
