//! Days of the week. A fixed weekday subset {Sunday..Thursday} reflects the
//! five-day instructional week of this domain.

use vstd::prelude::*;

use crate::errors::ValidationError;
use crate::text::{lower, matches_lower};

verus! {

/// A day of the week.
#[derive(Clone, Copy, Debug, PartialEq, Eq, Structural, PartialOrd)]
pub enum Day {
    Sunday,
    Monday,
    Tuesday,
    Wednesday,
    Thursday,
    Friday,
    Saturday,
}

/// Each day's number, counting from Sunday as 0. Injective over the seven
/// variants, so it serves as the partition key of the merge engine.
pub open spec fn day_index(d: Day) -> int {
    match d {
        Day::Sunday => 0,
        Day::Monday => 1,
        Day::Tuesday => 2,
        Day::Wednesday => 3,
        Day::Thursday => 4,
        Day::Friday => 5,
        Day::Saturday => 6,
    }
}

/// Days with equal indices are the same day.
pub proof fn lemma_day_index_injective(a: Day, b: Day)
    ensures
        day_index(a) == day_index(b) ==> a == b,
{
}

impl Day {
    /// Executable counterpart of [`day_index`].
    pub fn index(self) -> (r: u8)
        ensures
            r as int == day_index(self),
            r <= 6,
    {
        match self {
            Day::Sunday => 0,
            Day::Monday => 1,
            Day::Tuesday => 2,
            Day::Wednesday => 3,
            Day::Thursday => 4,
            Day::Friday => 5,
            Day::Saturday => 6,
        }
    }

    /// The day with the given index, counting from Sunday as 0.
    pub fn from_index(k: u8) -> (r: Day)
        requires
            k <= 6,
        ensures
            day_index(r) == k as int,
    {
        match k {
            0 => Day::Sunday,
            1 => Day::Monday,
            2 => Day::Tuesday,
            3 => Day::Wednesday,
            4 => Day::Thursday,
            5 => Day::Friday,
            _ => Day::Saturday,
        }
    }

    /// What day it is today, read from the wall clock. The clock alone
    /// decides which of the seven comes back.
    pub fn today() -> Day {
        Day::from_index(crate::clock::now_weekday_from_sunday() as u8)
    }

    /// The day's English name.
    pub fn as_str(&self) -> (r: &'static str)
        ensures
            r@ == day_name(*self),
    {
        match self {
            Day::Sunday => "Sunday",
            Day::Monday => "Monday",
            Day::Tuesday => "Tuesday",
            Day::Wednesday => "Wednesday",
            Day::Thursday => "Thursday",
            Day::Friday => "Friday",
            Day::Saturday => "Saturday",
        }
    }

    /// Parse a day of the week from its English name, letter case
    /// disregarded; any other text is rejected.
    pub fn parse(s: &str) -> (r: Result<Day, ValidationError>)
        ensures
            r is Ok <==> day_from_text(s@) is Some,
            r matches Ok(d) ==> day_from_text(s@) == Some(d),
    {
        if matches_lower(s, "sunday") {
            Ok(Day::Sunday)
        } else if matches_lower(s, "monday") {
            Ok(Day::Monday)
        } else if matches_lower(s, "tuesday") {
            Ok(Day::Tuesday)
        } else if matches_lower(s, "wednesday") {
            Ok(Day::Wednesday)
        } else if matches_lower(s, "thursday") {
            Ok(Day::Thursday)
        } else if matches_lower(s, "friday") {
            Ok(Day::Friday)
        } else if matches_lower(s, "saturday") {
            Ok(Day::Saturday)
        } else {
            Err(ValidationError)
        }
    }

    /// The instructional week: Sunday through Thursday.
    pub fn weekdays() -> (r: [Day; 5])
        ensures
            r@ == seq![Day::Sunday, Day::Monday, Day::Tuesday, Day::Wednesday, Day::Thursday],
    {
        [Day::Sunday, Day::Monday, Day::Tuesday, Day::Wednesday, Day::Thursday]
    }
}

/// What a text parses to: the day whose English name it is, letter case
/// disregarded; anything else does not parse.
pub open spec fn day_from_text(s: Seq<char>) -> Option<Day> {
    if lower(s) == "sunday"@ {
        Some(Day::Sunday)
    } else if lower(s) == "monday"@ {
        Some(Day::Monday)
    } else if lower(s) == "tuesday"@ {
        Some(Day::Tuesday)
    } else if lower(s) == "wednesday"@ {
        Some(Day::Wednesday)
    } else if lower(s) == "thursday"@ {
        Some(Day::Thursday)
    } else if lower(s) == "friday"@ {
        Some(Day::Friday)
    } else if lower(s) == "saturday"@ {
        Some(Day::Saturday)
    } else {
        None
    }
}

/// The English name of each day, as a character sequence.
pub open spec fn day_name(d: Day) -> Seq<char> {
    match d {
        Day::Sunday => "Sunday"@,
        Day::Monday => "Monday"@,
        Day::Tuesday => "Tuesday"@,
        Day::Wednesday => "Wednesday"@,
        Day::Thursday => "Thursday"@,
        Day::Friday => "Friday"@,
        Day::Saturday => "Saturday"@,
    }
}

} // verus!
