//! Local time, as `chrono` tells it.

use vstd::prelude::*;

use chrono::{Datelike, Timelike};

use crate::calendar::{day_text, has_plain_year, lemma_plain_years};

verus! {

/// A moment on the local calendar.
#[derive(Debug)]
pub struct LocalStamp {
    /// The local day, YYYY-MM-DD.
    pub day: String,
    /// The local day, counted from the first of January of the year one.
    pub number: i32,
    /// The hour of the local day.
    pub hour: u32,
}

impl LocalStamp {
    /// Whether the hour is one.
    pub open spec fn is_valid(self) -> bool {
        self.hour < 24
    }

    /// Whether this can be the local time of a moment in milliseconds from the epoch: the text is
    /// that of the day, and the hour at most 24 away from the hour in UTC.
    pub open spec fn tells(self, ms: u64) -> bool {
        &&& self.is_valid()
        &&& self.day@ == day_text(self.number)
        &&& ms <= 8_000_000_000_000_000 ==> -24 <= (self.number * 24 + self.hour) - (17_259_912 + ms
            / 3_600_000) <= 24
    }
}

/// The local date and hour of a moment in milliseconds from the epoch. This is
/// `chrono::DateTime::from_timestamp_millis`, the epoch where that has no such moment, seen in the
/// zone `chrono::Local`: the day by `format` with `%Y-%m-%d`, its number by `num_days_from_ce`, the
/// hour by `hour`. The text is the date of the number, its year in four digits or with a sign.
/// The zone is the machine's, so which of the hours around the moment comes out is not said; a
/// zone is less than a day ahead or behind.
#[verifier::external_body]
pub(crate) fn local_datetime(ms: u64) -> (r: LocalStamp)
    ensures
        r.day@ == day_text(r.number),
        r.tells(ms),
{
    let at = chrono::DateTime::from_timestamp_millis(ms as i64)
        .unwrap_or_default()
        .with_timezone(&chrono::Local);
    LocalStamp {
        day: at.format("%Y-%m-%d").to_string(),
        number: at.num_days_from_ce(),
        hour: at.hour(),
    }
}

/// Whether a text is a day that the local time of a moment can fall on.
pub open spec fn is_day_of(text: Seq<char>, ms: u64) -> bool {
    exists|number: i32|
        text == #[trigger] day_text(number) && (ms <= 8_000_000_000_000_000 ==> -1 <= number - (
        719_163 + ms / 86_400_000) <= 1)
}

/// The local day of a moment, YYYY-MM-DD. Which of the days around the moment that is, is up to
/// the machine's zone.
pub fn local_day(ms: u64) -> (r: String)
    ensures
        is_day_of(r@, ms),
{
    let stamp = local_datetime(ms);
    assert(stamp.day@ == day_text(stamp.number));
    stamp.day
}

/// The local time of a moment before the last day of the year 9999 is in a year of four digits.
pub proof fn lemma_told_in_plain_year(stamp: LocalStamp, ms: u64)
    requires
        stamp.tells(ms),
        ms < 253_402_214_400_000,
    ensures
        has_plain_year(stamp.number),
{
    lemma_plain_years(stamp.number);
}

} // verus!
