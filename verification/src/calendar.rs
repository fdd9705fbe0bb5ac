//! Calendar dates read from text, as day numbers (1 January of year 1 of the
//! proleptic Gregorian calendar being day 1, a Monday).
use vstd::prelude::*;

verus! {

/// The day number of the date that chrono reads from `text` under the
/// strftime-style `format`, or `None` where chrono refuses the text.
pub uninterp spec fn parsed_day_number(text: Seq<char>, format: Seq<char>) -> Option<i32>;

/// Reads a date with chrono's `NaiveDate::parse_from_str(text, format)` and
/// numbers it with `Datelike::num_days_from_ce`.  The contract claims only that
/// the result depends on the two texts alone; which texts chrono accepts, and
/// which date it reads from them, are left unsaid.
#[verifier::external_body]
pub(crate) fn parse_day_number(text: &str, format: &str) -> (r: Option<i32>)
    ensures
        r == parsed_day_number(text@, format@),
{
    match chrono::NaiveDate::parse_from_str(text, format) {
        Ok(date) => Some(chrono::Datelike::num_days_from_ce(&date)),
        Err(_) => None,
    }
}

/// The day number of 1 January 1970, the first day of the Unix epoch.
pub const EPOCH_DAY_NUMBER: i64 = 719_163;

} // verus!
