//! The wall-clock collaborator: the only window onto "now". What comes back
//! depends on the machine's clock, so the contracts state only what holds of
//! every reading; the callers validate the values themselves.

use vstd::prelude::*;

verus! {

/// Relies on chrono's `Local::now` and the `Datelike` accessors `year`,
/// `month` and `day`: chrono documents that `month` ranges over 1..=12 and
/// `day` over 1..=31. Nothing is promised of the year: the machine's clock
/// chooses it.
#[verifier::external_body]
pub(crate) fn now_date_parts() -> (r: (i32, u32, u32))
    ensures
        1 <= r.1 <= 12,
        1 <= r.2 <= 31,
{
    let now = chrono::Local::now();
    (
        chrono::Datelike::year(&now),
        chrono::Datelike::month(&now),
        chrono::Datelike::day(&now),
    )
}

/// Relies on chrono's `Local::now`, `Datelike::weekday` and
/// `Weekday::num_days_from_sunday`: chrono documents that the latter ranges
/// over 0..=6, with Sunday as 0.
#[verifier::external_body]
pub(crate) fn now_weekday_from_sunday() -> (r: u32)
    ensures
        r <= 6,
{
    chrono::Datelike::weekday(&chrono::Local::now()).num_days_from_sunday()
}

} // verus!
