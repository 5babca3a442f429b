//! Times of day in 24-hour style, validated and ordered lexicographically by
//! (hour, minute).

use vstd::prelude::*;

use crate::errors::ValidationError;
use crate::text::{
    digit_str, find_sep, lemma_split_first, lemma_split_len, lemma_split_none, parse_seg, seg_val,
    split_on, two_digits,
};
use vstd::string::StringExecFns;

verus! {

/// An (hour, minute) pair is a real time of day.
pub open spec fn valid_time(hour: int, minute: int) -> bool {
    0 <= hour <= 23 && 0 <= minute <= 59
}

/// A time of day. Values are only constructed through the validating
/// factory, so every `Time` in a running program satisfies [`time_wf`].
#[derive(Clone, Copy, Debug, PartialEq, Eq, Structural, PartialOrd)]
pub struct Time {
    hour: u8,
    minute: u8,
}

impl View for Time {
    type V = (int, int);

    closed spec fn view(&self) -> (int, int) {
        (self.hour as int, self.minute as int)
    }
}

/// The time's fields form a real time of day.
pub open spec fn time_wf(t: Time) -> bool {
    valid_time(t@.0, t@.1)
}

/// A single integer that orders times exactly as the lexicographic order on
/// (hour, minute) does, for every representable field value.
pub open spec fn time_val(t: Time) -> int {
    t@.0 * 0x100 + t@.1
}

/// Two times with the same view are the same time.
pub proof fn lemma_time_view_injective(a: Time, b: Time)
    ensures
        (a@ == b@) <==> (a == b),
{
}

impl Time {
    /// Validating factory: succeeds exactly on real times of day.
    pub fn new(hour: u8, minute: u8) -> (r: Result<Time, ValidationError>)
        ensures
            r is Ok <==> valid_time(hour as int, minute as int),
            r matches Ok(t) ==> t@ == (hour as int, minute as int),
    {
        if hour > 23 || minute > 59 {
            Err(ValidationError)
        } else {
            Ok(Time { hour, minute })
        }
    }

    /// The time's fields, plainly.
    pub fn parts(&self) -> (r: (u8, u8))
        ensures
            (r.0 as int, r.1 as int) == self@,
    {
        (self.hour, self.minute)
    }

    /// Strict lexicographic order on (hour, minute).
    pub fn before(self, other: Time) -> (r: bool)
        ensures
            r == (time_val(self) < time_val(other)),
    {
        if self.hour != other.hour {
            self.hour < other.hour
        } else {
            self.minute < other.minute
        }
    }

    /// Strictly between `start` and `end`: exclusive on both ends.
    pub fn is_between(self, start: Time, end: Time) -> (r: bool)
        ensures
            r == (time_val(start) < time_val(self) && time_val(self) < time_val(end)),
    {
        start.before(self) && self.before(end)
    }
}

/// The time's text: zero-padded hour and minute, colon-separated.
pub open spec fn time_text(v: (int, int)) -> Seq<char> {
    two_digits(v.0) + seq![':'] + two_digits(v.1)
}

/// What a text parses to: the values of its two colon-separated all-digit
/// parts, if it has exactly that shape.
pub open spec fn time_from_text(s: Seq<char>) -> Option<(int, int)> {
    let parts = split_on(s, ':');
    if parts.len() == 2 && seg_val(parts[0]) is Some && seg_val(parts[1]) is Some {
        Some((seg_val(parts[0])->Some_0, seg_val(parts[1])->Some_0))
    } else {
        None
    }
}

impl Time {
    /// The time's text, as in 09:05.
    pub fn as_string(self) -> (r: String)
        requires
            time_wf(self),
        ensures
            r@ == time_text(self@),
    {
        let (h, mi) = self.parts();
        let mut out = String::new();
        out.append(digit_str(h / 10));
        out.append(digit_str(h % 10));
        out.append(":");
        out.append(digit_str(mi / 10));
        out.append(digit_str(mi % 10));
        proof {
            reveal_strlit(":");
            assert(out@ =~= time_text(self@));
        }
        out
    }

    /// Parse a time from text of exactly the shape HH:MM: two
    /// colon-separated all-digit parts that name a real time of day;
    /// anything else is rejected.
    pub fn parse(s: &str) -> (r: Result<Time, ValidationError>)
        ensures
            r is Ok <==> (time_from_text(s@) matches Some(v) && valid_time(v.0, v.1)),
            r matches Ok(t) ==> (time_from_text(s@) matches Some(v) && t@ == v),
    {
        let n = s.unicode_len();
        let i1 = match find_sep(s, 0, ':') {
            Some(i) => i,
            None => {
                proof {
                    lemma_split_none(s@, ':');
                }
                return Err(ValidationError);
            },
        };
        match find_sep(s, i1 + 1, ':') {
            Some(i2) => {
                proof {
                    lemma_split_first(s@, ':', i1 as int);
                    lemma_split_first(s@.skip(i1 as int + 1), ':', i2 as int - i1 - 1);
                    lemma_split_len(s@.skip(i1 as int + 1).skip(i2 as int - i1), ':');
                    assert(s@.skip(i1 as int + 1)[i2 as int - i1 - 1] == s@[i2 as int]);
                }
                return Err(ValidationError);
            },
            None => {},
        };
        proof {
            lemma_split_first(s@, ':', i1 as int);
            lemma_split_none(s@.skip(i1 as int + 1), ':');
            assert(split_on(s@, ':') =~~= seq![
                s@.subrange(0, i1 as int),
                s@.subrange(i1 as int + 1, n as int),
            ]);
        }
        let h = match parse_seg(s, 0, i1) {
            Some(v) => v,
            None => {
                return Err(ValidationError);
            },
        };
        let mi = match parse_seg(s, i1 + 1, n) {
            Some(v) => v,
            None => {
                return Err(ValidationError);
            },
        };
        if h <= 0xFF && mi <= 0xFF {
            Time::new(h as u8, mi as u8)
        } else {
            Err(ValidationError)
        }
    }
}

impl crate::interval::Boundary for Time {
    open spec fn bval(self) -> int {
        time_val(self)
    }

    fn bval_lt(self, other: Self) -> (r: bool) {
        self.before(other)
    }
}

} // verus!
