//! Calendar dates as plain numbers, and the one place where a date is read
//! from text.

use chrono::Datelike;
use vstd::prelude::*;

verus! {

/// A calendar date: year, month of the year, day of the month.
#[derive(Clone, Copy, Debug, PartialEq, Eq, Structural)]
pub struct Date {
    pub year: i32,
    pub month: u32,
    pub day: u32,
}

impl Date {
    /// `self` lies strictly earlier in the calendar than `other`.
    pub open spec fn precedes(self, other: Date) -> bool {
        ||| self.year < other.year
        ||| (self.year == other.year && self.month < other.month)
        ||| (self.year == other.year && self.month == other.month && self.day < other.day)
    }

    /// Whether `self` lies strictly earlier in the calendar than `other`.
    pub fn is_before(&self, other: &Date) -> (r: bool)
        ensures
            r == self.precedes(*other),
    {
        if self.year != other.year {
            self.year < other.year
        } else if self.month != other.month {
            self.month < other.month
        } else {
            self.day < other.day
        }
    }
}

/// chrono's error for text that is no date. Nothing is known of its inside.
#[verifier::external_type_specification]
#[verifier::external_body]
pub struct ExParseError(chrono::ParseError);

/// The date that chrono reads from `text` under the strftime-style pattern
/// `format`, or `None` where chrono rejects the text.
pub uninterp spec fn parsed_date(text: Seq<char>, format: Seq<char>) -> Option<Date>;

/// Calls `chrono::NaiveDate::parse_from_str` and hands the date out as
/// year, month and day (`Datelike::year`, `month`, `day`).
///
/// Nothing is proved of this function. Its contract only gives the outcome a
/// name, `parsed_date`: chrono's parser looks at the two strings and at
/// nothing else, so equal arguments give equal outcomes.
#[verifier::external_body]
pub(crate) fn parse_date(text: &str, format: &str) -> (r: Result<Date, chrono::ParseError>)
    ensures
        match r {
            Ok(d) => parsed_date(text@, format@) == Some(d),
            Err(_) => parsed_date(text@, format@).is_none(),
        },
{
    match chrono::NaiveDate::parse_from_str(text, format) {
        Ok(d) => Ok(Date { year: d.year(), month: d.month(), day: d.day() }),
        Err(e) => Err(e),
    }
}

} // verus!
