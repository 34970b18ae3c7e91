//! Dates of purchase as a transaction history writes them.

use vstd::prelude::*;
use crate::record::Record;

verus! {

/// The day number of the date that `text` spells as month, day and year with
/// slashes between them, counted from day 1 on 1 January of the year 1; or
/// `None` where `text` spells no date.
pub uninterp spec fn date_days(text: Seq<char>) -> Option<i32>;

/// Reads a date with chrono.
///
/// Trusted: the body calls `chrono::NaiveDate::parse_from_str` with the
/// pattern `%m/%d/%Y` and turns a date into its day number with
/// `chrono::Datelike::num_days_from_ce`. Nothing is claimed of which texts
/// are dates, only that the text alone decides the outcome.
#[verifier::external_body]
fn parse_days(text: &str) -> (days: Option<i32>)
    ensures
        days == date_days(text@),
{
    match chrono::NaiveDate::parse_from_str(text, "%m/%d/%Y") {
        Ok(date) => Some(chrono::Datelike::num_days_from_ce(&date)),
        Err(_) => None,
    }
}

impl Record {
    /// A lot bought on the date that `date` spells; `None` where it spells
    /// no date.
    pub fn dated(date: &str, fund: u64, num_shares: u64, share_price: u32) -> (lot: Option<Record>)
        ensures
            lot == match date_days(date@) {
                Some(day) => Some(Record { date: day, fund, num_shares, share_price }),
                None => None,
            },
    {
        match parse_days(date) {
            Some(day) => Some(Record { date: day, fund, num_shares, share_price }),
            None => None,
        }
    }
}

} // verus!
