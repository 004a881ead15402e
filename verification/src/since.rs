//! The start of the window that a report covers.

use vstd::prelude::*;
use vstd::string::*;

use chrono::Datelike;

use crate::calendar::{day_text, has_plain_year, lemma_day_text_shape};
use crate::text::{
    count_of, dec, is_digit, is_white, lemma_dec_reads_back, monus, parse_count, quote, quoted,
    text_of, trim_chars, trimmed,
};

verus! {

/// The number of the epoch's day, counted from the first of January of the year one.
pub const EPOCH_DAY: i32 = 719_163;

/// The number of the day that a text names as a date, counted from the first of January of the
/// year one, if it names one.
pub uninterp spec fn date_number(text: Seq<char>) -> Option<i32>;

/// Reads a date. This is `chrono::NaiveDate::parse_from_str` with the format `%Y-%m-%d`, the date
/// then counted by `num_days_from_ce`: which texts name a date, and which day that is, depends on
/// the text alone, and the text YYYY-MM-DD of a day names that day. What other texts name one,
/// with fewer digits or with a sign, is not said here.
#[verifier::external_body]
fn parse_date(text: &str) -> (r: Option<i32>)
    ensures
        r == date_number(text@),
        forall|n: i32| has_plain_year(n) && text@ == #[trigger] day_text(n) ==> r == Some(n),
{
    chrono::NaiveDate::parse_from_str(text, "%Y-%m-%d").ok().map(|date| date.num_days_from_ce())
}

/// Why a start is not understood.
#[derive(Clone, Copy, Debug, PartialEq, Eq, Structural)]
pub enum SinceError {
    /// What stands before the `d` is no count.
    BadDays,
    /// What stands before the `h` is no count.
    BadHours,
    /// Neither a count of days or hours nor a date.
    BadDate,
    /// A date before the epoch.
    BeforeEpoch,
}

impl SinceError {
    /// What to tell the user of the start `spec`.
    pub fn message(&self, spec: &str) -> (r: String)
        ensures
            r@ == (match *self {
                SinceError::BadDays => "bad --since day count"@,
                SinceError::BadHours => "bad --since hour count"@,
                SinceError::BadDate => "bad --since value "@ + quoted(trimmed(spec@))
                    + " (use YYYY-MM-DD, Nd, or Nh)"@,
                SinceError::BeforeEpoch => "--since before epoch"@,
            }),
    {
        match *self {
            SinceError::BadDays => "bad --since day count".to_owned(),
            SinceError::BadHours => "bad --since hour count".to_owned(),
            SinceError::BadDate => {
                let v = trim_chars(spec);
                let given = text_of(&v, 0, v.len());
                assert(given@ =~= v@);
                let mut text = "bad --since value ".to_owned();
                text.append(quote(given.as_str()).as_str());
                text.append(" (use YYYY-MM-DD, Nd, or Nh)");
                text
            },
            SinceError::BeforeEpoch => "--since before epoch".to_owned(),
        }
    }
}

/// The moment `secs` seconds ago, and not before the epoch.
pub fn ago_ms(secs: u64, now_ms: u64) -> (r: u64)
    requires
        secs * 1000 <= u64::MAX,
    ensures
        r == monus(now_ms, (secs * 1000) as u64),
{
    now_ms.saturating_sub(secs * 1000)
}

/// The start that a date gives, by the number of its day.
pub open spec fn date_start(number: Option<i32>) -> Result<u64, SinceError> {
    match number {
        Some(n) => if n >= EPOCH_DAY {
            Ok(((n - EPOCH_DAY) * 86_400_000) as u64)
        } else {
            Err(SinceError::BeforeEpoch)
        },
        None => Err(SinceError::BadDate),
    }
}

/// The start that a date gives: its midnight in UTC, if there is a date and it is not before the
/// epoch.
pub fn since_date(number: Option<i32>) -> (r: Result<u64, SinceError>)
    ensures
        r == date_start(number),
{
    match number {
        Some(n) => if n >= EPOCH_DAY {
            Ok((n - EPOCH_DAY) as u64 * 86_400_000)
        } else {
            Err(SinceError::BeforeEpoch)
        },
        None => Err(SinceError::BadDate),
    }
}

/// The start that a count of some unit gives.
pub open spec fn count_start(
    count: Option<u64>,
    unit_secs: u64,
    now_ms: u64,
    otherwise: SinceError,
) -> Result<u64, SinceError> {
    match count {
        Some(n) => Ok(monus(now_ms, (n * unit_secs * 1000) as u64)),
        None => Err(otherwise),
    }
}

/// The start that a text asks for, seen at `now_ms`: `Nd`, `Nh`, or a date.
pub open spec fn spec_start(spec: Seq<char>, now_ms: u64) -> Result<u64, SinceError> {
    let s = trimmed(spec);
    if s.len() > 0 && s.last() == 'd' {
        count_start(count_of(s.drop_last()), 86_400, now_ms, SinceError::BadDays)
    } else if s.len() > 0 && s.last() == 'h' {
        count_start(count_of(s.drop_last()), 3_600, now_ms, SinceError::BadHours)
    } else {
        date_start(date_number(s))
    }
}

/// The start of the window: none for the full history, 30 days ago where nothing is asked for.
pub open spec fn window_start(
    spec: Option<Seq<char>>,
    all: bool,
    now_ms: u64,
) -> Result<Option<u64>, SinceError> {
    if all {
        Ok(None)
    } else {
        match spec {
            None => Ok(Some(monus(now_ms, 2_592_000_000))),
            Some(s) => match spec_start(s, now_ms) {
                Ok(ms) => Ok(Some(ms)),
                Err(e) => Err(e),
            },
        }
    }
}

/// Whether a count of days or hours, if a text gives one, is short enough to be reckoned in
/// milliseconds.
pub open spec fn reckonable(spec: Seq<char>) -> bool {
    let s = trimmed(spec);
    if s.len() > 0 && s.last() == 'd' {
        count_of(s.drop_last()) matches Some(n) ==> n * 86_400 * 1000 <= u64::MAX
    } else if s.len() > 0 && s.last() == 'h' {
        count_of(s.drop_last()) matches Some(n) ==> n * 3_600 * 1000 <= u64::MAX
    } else {
        true
    }
}

fn front_count(v: &Vec<char>) -> (r: Option<u64>)
    requires
        v@.len() > 0,
    ensures
        r == count_of(v@.drop_last()),
{
    let n: usize = v.len() - 1;
    let mut front: Vec<char> = Vec::new();
    let mut i: usize = 0;
    while i < n
        invariant
            i <= n == v@.len() - 1,
            front@ =~= v@.take(i as int),
        decreases n - i,
    {
        front.push(v[i]);
        i = i + 1;
    }
    assert(front@ =~= v@.drop_last());
    parse_count(&front)
}

/// Whether a count of days or hours is short enough to be reckoned in milliseconds.
pub fn can_reckon(spec: &str) -> (r: bool)
    ensures
        r == reckonable(spec@),
{
    let v = trim_chars(spec);
    let n: usize = v.len();
    if n > 0 && v[n - 1] == 'd' {
        match front_count(&v) {
            Some(days) => days <= 213_503_982_334,
            None => true,
        }
    } else if n > 0 && v[n - 1] == 'h' {
        match front_count(&v) {
            Some(hours) => hours <= 5_124_095_576_030,
            None => true,
        }
    } else {
        true
    }
}

/// Accepts `Nd`, `Nh`, or `YYYY-MM-DD`; `all` wins over any value.
pub fn parse_since(spec: Option<&str>, all: bool, now_ms: u64) -> (r: Result<
    Option<u64>,
    SinceError,
>)
    requires
        !all && spec is Some ==> reckonable(spec->0@),
    ensures
        r == window_start(
            match spec {
                Some(s) => Some(s@),
                None => None,
            },
            all,
            now_ms,
        ),
        forall|n: i32|
            !all && spec is Some && has_plain_year(n) && trimmed(spec->0@) == #[trigger] day_text(n)
                ==> match date_start(Some(n)) {
                Ok(ms) => r == Ok::<Option<u64>, SinceError>(Some(ms)),
                Err(e) => r == Err::<Option<u64>, SinceError>(e),
            },
{
    if all {
        return Ok(None);
    }
    let text = match spec {
        Some(text) => text,
        None => {
            return Ok(Some(ago_ms(2_592_000, now_ms)));
        },
    };
    let v = trim_chars(text);
    let n: usize = v.len();
    proof {
        assert forall|k: i32| has_plain_year(k) && v@ == #[trigger] day_text(k) implies n > 0 && is_digit(
            v@[n - 1],
        ) by {
            lemma_day_text_shape(k);
        }
    }
    if n > 0 && v[n - 1] == 'd' {
        return match front_count(&v) {
            Some(days) => Ok(Some(ago_ms(days * 86_400, now_ms))),
            None => Err(SinceError::BadDays),
        };
    }
    if n > 0 && v[n - 1] == 'h' {
        return match front_count(&v) {
            Some(hours) => Ok(Some(ago_ms(hours * 3_600, now_ms))),
            None => Err(SinceError::BadHours),
        };
    }
    let trimmed_text = text_of(&v, 0, n);
    assert(trimmed_text@ =~= v@);
    match since_date(parse_date(trimmed_text.as_str())) {
        Ok(ms) => Ok(Some(ms)),
        Err(e) => Err(e),
    }
}

/// Asking for the full history wins over any start.
pub proof fn lemma_all_wins(spec: Option<Seq<char>>, now_ms: u64)
    ensures
        window_start(spec, true, now_ms) == Ok::<Option<u64>, SinceError>(None),
{
}

/// A window never starts in the future, unless a date is asked for.
pub proof fn lemma_window_starts_before_now(spec: Seq<char>, now_ms: u64)
    requires
        trimmed(spec).len() > 0,
        trimmed(spec).last() == 'd' || trimmed(spec).last() == 'h',
    ensures
        spec_start(spec, now_ms) matches Ok(ms) ==> ms <= now_ms,
{
}

/// A window of `n` days is understood as written: `n` days before now.
pub proof fn lemma_days_are_understood(n: u64, now_ms: u64)
    requires
        n * 86_400 * 1000 <= u64::MAX,
    ensures
        spec_start(dec(n as nat).push('d'), now_ms) == Ok::<u64, SinceError>(
            monus(now_ms, (n * 86_400 * 1000) as u64),
        ),
{
    lemma_dec_reads_back(n);
    lemma_unit_stays(n, 'd');
}

/// A window of `n` hours is understood as written: `n` hours before now.
pub proof fn lemma_hours_are_understood(n: u64, now_ms: u64)
    requires
        n * 3_600 * 1000 <= u64::MAX,
    ensures
        spec_start(dec(n as nat).push('h'), now_ms) == Ok::<u64, SinceError>(
            monus(now_ms, (n * 3_600 * 1000) as u64),
        ),
{
    lemma_dec_reads_back(n);
    lemma_unit_stays(n, 'h');
}

/// Trimming takes nothing from a count with its unit.
proof fn lemma_unit_stays(n: u64, unit: char)
    requires
        unit == 'd' || unit == 'h',
    ensures
        trimmed(dec(n as nat).push(unit)) == dec(n as nat).push(unit),
        dec(n as nat).push(unit).drop_last() == dec(n as nat),
{
    let s = dec(n as nat).push(unit);
    lemma_dec_starts(n as nat);
    assert(s[0] == dec(n as nat)[0]);
    assert(!is_white(s[0]));
    assert(!is_white(s.last()));
    assert(s.drop_last() =~= dec(n as nat));
}

proof fn lemma_dec_starts(n: nat)
    ensures
        dec(n).len() > 0,
        is_digit(dec(n)[0]),
    decreases n,
{
    if n >= 10 {
        lemma_dec_starts(n / 10);
    }
}

} // verus!
