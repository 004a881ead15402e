//! The calendar: days by their dates, by their numbers, and as texts.

use vstd::arithmetic::div_mod::{lemma_fundamental_div_mod, lemma_fundamental_div_mod_converse};
use vstd::prelude::*;
use vstd::string::*;

use crate::text::{dec, digit, is_digit, lemma_lex_ahead, lemma_lex_behind, lex_lt};

verus! {

/// Whether a year has a 29th of February.
pub open spec fn is_leap(year: int) -> bool {
    year % 4 == 0 && (year % 100 != 0 || year % 400 == 0)
}

/// How many days a month has.
pub open spec fn month_length(year: int, month: int) -> int {
    if month == 2 {
        if is_leap(year) {
            29
        } else {
            28
        }
    } else if month == 4 || month == 6 || month == 9 || month == 11 {
        30
    } else {
        31
    }
}

/// How many days of a year come before a month.
pub open spec fn days_before_month(year: int, month: int) -> int
    decreases month,
{
    if month <= 1 {
        0
    } else {
        days_before_month(year, month - 1) + month_length(year, month - 1)
    }
}

/// How many days come before a year, from the first of January of the year one.
pub open spec fn days_before_year(year: int) -> int {
    365 * (year - 1) + (year - 1) / 4 - (year - 1) / 100 + (year - 1) / 400
}

/// A number in decimal, with zeros in front where it has fewer than `width` digits.
pub open spec fn padded(n: nat, width: nat) -> Seq<char>
    decreases width,
{
    if width <= 1 {
        dec(n)
    } else {
        padded(n / 10, (width - 1) as nat).push(digit(n % 10))
    }
}

/// A year in four digits, with a sign in front where four digits do not do.
pub open spec fn year_text(year: int) -> Seq<char> {
    if 0 <= year <= 9999 {
        padded(year as nat, 4)
    } else if year > 0 {
        "+"@ + padded(year as nat, 4)
    } else {
        "-"@ + padded((-year) as nat, 4)
    }
}

/// A date of the Gregorian calendar, which is taken to have held at all times.
pub struct Date {
    pub year: int,
    pub month: int,
    pub day: int,
}

impl Date {
    /// Whether there is such a day.
    pub open spec fn is_valid(self) -> bool {
        1 <= self.month <= 12 && 1 <= self.day <= month_length(self.year, self.month)
    }

    /// The number of the day; the first of January of the year one is day one.
    pub open spec fn number(self) -> int {
        days_before_year(self.year) + days_before_month(self.year, self.month) + self.day
    }

    /// Whether this is the earlier date.
    pub open spec fn before(self, other: Date) -> bool {
        self.year < other.year || self.year == other.year && (self.month < other.month
            || self.month == other.month && self.day < other.day)
    }

    /// The date as YYYY-MM-DD.
    pub open spec fn text(self) -> Seq<char> {
        year_text(self.year) + ("-"@ + (padded(self.month as nat, 2) + ("-"@ + padded(
            self.day as nat,
            2,
        ))))
    }
}

/// The date of the day with a number.
pub open spec fn date_of(number: int) -> Date {
    choose|d: Date| d.is_valid() && #[trigger] d.number() == number
}

/// How the day with a number is written: YYYY-MM-DD.
pub open spec fn day_text(number: i32) -> Seq<char> {
    date_of(number as int).text()
}

/// Whether a day is in a year that four digits can tell.
pub open spec fn has_plain_year(number: i32) -> bool {
    0 <= date_of(number as int).year <= 9999
}

// ---------------------------------------------------------------- numbers
proof fn lemma_months(year: int)
    ensures
        forall|m: int|
            1 <= m <= 12 ==> #[trigger] days_before_month(year, m) + month_length(year, m)
                == days_before_month(year, m + 1),
        forall|m: int, n: int|
            1 <= m < n <= 13 ==> #[trigger] days_before_month(year, m) + month_length(year, m)
                <= #[trigger] days_before_month(year, n),
        days_before_month(year, 1) == 0,
        days_before_month(year, 13) == if is_leap(year) {
            366int
        } else {
            365
        },
{
    reveal_with_fuel(days_before_month, 14);
}

proof fn lemma_next_multiple(n: int, k: int)
    requires
        k > 1,
    ensures
        n / k == (n - 1) / k + if n % k == 0 {
            1int
        } else {
            0
        },
{
    let q = (n - 1) / k;
    let r = (n - 1) % k;
    lemma_fundamental_div_mod(n - 1, k);
    if r == k - 1 {
        assert(n == k * (q + 1)) by (nonlinear_arith)
            requires
                n - 1 == k * q + r,
                r == k - 1,
        ;
        lemma_fundamental_div_mod_converse(n, k, q + 1, 0);
    } else {
        lemma_fundamental_div_mod_converse(n, k, q, r + 1);
    }
}

proof fn lemma_year_length(year: int)
    ensures
        days_before_year(year + 1) == days_before_year(year) + days_before_month(year, 13),
{
    lemma_months(year);
    lemma_next_multiple(year, 4);
    lemma_next_multiple(year, 100);
    lemma_next_multiple(year, 400);
    assert(year % 400 == 0 ==> year % 100 == 0);
    assert(year % 100 == 0 ==> year % 4 == 0);
}

proof fn lemma_years_ascend(a: int, b: int)
    requires
        a <= b,
    ensures
        days_before_year(a) <= days_before_year(b),
    decreases b - a,
{
    if a < b {
        lemma_years_ascend(a, b - 1);
        lemma_year_length(b - 1);
        lemma_months(b - 1);
    }
}

proof fn lemma_within_year(d: Date)
    requires
        d.is_valid(),
    ensures
        days_before_year(d.year) < d.number() <= days_before_year(d.year + 1),
{
    lemma_months(d.year);
    lemma_year_length(d.year);
    assert(days_before_month(d.year, d.month) + month_length(d.year, d.month) <= days_before_month(
        d.year,
        13,
    ));
    if d.month > 1 {
        assert(days_before_month(d.year, 1) + month_length(d.year, 1) <= days_before_month(
            d.year,
            d.month,
        ));
    }
}

proof fn lemma_earlier_is_less(a: Date, b: Date)
    requires
        a.is_valid(),
        b.is_valid(),
        a.before(b),
    ensures
        a.number() < b.number(),
{
    lemma_within_year(a);
    lemma_within_year(b);
    if a.year < b.year {
        lemma_years_ascend(a.year + 1, b.year);
    } else if a.month < b.month {
        lemma_months(a.year);
        assert(days_before_month(a.year, a.month) + month_length(a.year, a.month)
            <= days_before_month(a.year, b.month));
    }
}

/// Of two dates the earlier has the smaller number, and two dates never share one.
pub proof fn lemma_numbers_follow_dates(a: Date, b: Date)
    requires
        a.is_valid(),
        b.is_valid(),
    ensures
        a.before(b) <==> a.number() < b.number(),
        a == b <==> a.number() == b.number(),
{
    if a.before(b) {
        lemma_earlier_is_less(a, b);
    } else if b.before(a) {
        lemma_earlier_is_less(b, a);
    }
}

/// The days have consecutive numbers: behind a day comes the next of its month, which has 30 days
/// in April, June, September and November, 28 or in a leap year 29 in February, and 31 otherwise;
/// then the first of the next month, and behind December the first of January. The first of
/// January of the year one has the number one.
pub proof fn lemma_days_follow_one_another(d: Date)
    requires
        d.is_valid(),
    ensures
        ({
            let leap = d.year % 4 == 0 && d.year % 100 != 0 || d.year % 400 == 0;
            let last: int = if d.month == 2 {
                if leap {
                    29
                } else {
                    28
                }
            } else if d.month == 4 || d.month == 6 || d.month == 9 || d.month == 11 {
                30
            } else {
                31
            };
            let next = if d.day < last {
                Date { year: d.year, month: d.month, day: d.day + 1 }
            } else if d.month < 12 {
                Date { year: d.year, month: d.month + 1, day: 1 }
            } else {
                Date { year: d.year + 1, month: 1, day: 1 }
            };
            &&& 1 <= d.month <= 12 && 1 <= d.day <= last
            &&& next.is_valid()
            &&& next.number() == d.number() + 1
        }),
        d.year == 1 && d.month == 1 && d.day == 1 ==> d.number() == 1,
{
    assert(d.year % 400 == 0 ==> d.year % 100 == 0 && d.year % 4 == 0);
    lemma_months(d.year);
    lemma_months(d.year + 1);
    lemma_year_length(d.year);
    assert(days_before_month(d.year, d.month) + month_length(d.year, d.month) == days_before_month(
        d.year,
        d.month + 1,
    ));
}

proof fn lemma_some_year(number: int) -> (year: int)
    ensures
        days_before_year(year) < number <= days_before_year(year + 1),
    decreases
            if number >= 1 {
                number
            } else {
                1 - number
            },
{
    lemma_year_length(1);
    lemma_months(1);
    if number == 1 {
        1
    } else if number > 1 {
        let y = lemma_some_year(number - 1);
        lemma_year_length(y + 1);
        lemma_months(y + 1);
        if number <= days_before_year(y + 1) {
            y
        } else {
            y + 1
        }
    } else if number == 0 {
        lemma_year_length(0);
        lemma_months(0);
        0
    } else {
        let y = lemma_some_year(number + 1);
        lemma_year_length(y - 1);
        lemma_months(y - 1);
        if number > days_before_year(y) {
            y
        } else {
            y - 1
        }
    }
}

proof fn lemma_some_month(year: int, day: int, m: int) -> (month: int)
    requires
        1 <= m <= 12,
        1 <= day <= days_before_month(year, m + 1),
    ensures
        1 <= month <= m,
        days_before_month(year, month) < day <= days_before_month(year, month + 1),
    decreases m,
{
    if m == 1 || day > days_before_month(year, m) {
        m
    } else {
        lemma_some_month(year, day, m - 1)
    }
}

/// Every number is that of a date, and of no other.
pub proof fn lemma_each_day_has_a_date(number: int)
    ensures
        date_of(number).is_valid(),
        date_of(number).number() == number,
        forall|d: Date| d.is_valid() && #[trigger] d.number() == number ==> d == date_of(number),
{
    let year = lemma_some_year(number);
    lemma_year_length(year);
    let day = number - days_before_year(year);
    let month = lemma_some_month(year, day, 12);
    lemma_months(year);
    let d = Date { year, month, day: day - days_before_month(year, month) };
    assert(d.is_valid());
    assert(d.number() == number);
    assert forall|e: Date| e.is_valid() && #[trigger] e.number() == number implies e == date_of(
        number,
    ) by {
        lemma_numbers_follow_dates(e, date_of(number));
    }
}

/// Four digits tell the years from the first day of the year zero to the last of the year 9999.
pub proof fn lemma_plain_years(number: i32)
    ensures
        has_plain_year(number) <==> -365 <= number <= 3_652_059,
{
    let d = date_of(number as int);
    lemma_each_day_has_a_date(number as int);
    lemma_within_year(d);
    if d.year < 0 {
        lemma_years_ascend(d.year + 1, 0);
    } else if d.year > 9999 {
        lemma_years_ascend(10_000, d.year);
    } else {
        lemma_years_ascend(0, d.year);
        lemma_years_ascend(d.year + 1, 10_000);
    }
}

// ---------------------------------------------------------------- texts
spec fn power10(n: nat) -> nat
    decreases n,
{
    if n == 0 {
        1
    } else {
        10 * power10((n - 1) as nat)
    }
}

proof fn lemma_padded_order(a: nat, b: nat, width: nat)
    requires
        width >= 1,
        a < power10(width),
        b < power10(width),
    ensures
        padded(a, width).len() == width,
        padded(b, width).len() == width,
        a < b ==> lex_lt(padded(a, width), padded(b, width)),
    decreases width,
{
    if width == 1 {
        assert(power10(1) == 10 * power10(0));
        if a < b {
            assert(padded(a, width)[0] == digit(a));
            assert(padded(b, width)[0] == digit(b));
        }
    } else {
        let less = (width - 1) as nat;
        lemma_padded_order(a / 10, b / 10, less);
        let x = seq![digit(a % 10)];
        let y = seq![digit(b % 10)];
        let p = padded(a / 10, less);
        let q = padded(b / 10, less);
        assert(padded(a, width) =~= p + x);
        assert(padded(b, width) =~= q + y);
        if a / 10 < b / 10 {
            lemma_lex_ahead(p, q, x, y);
        } else if a < b {
            assert(a % 10 < b % 10);
            assert(x[0] == digit(a % 10) && y[0] == digit(b % 10));
            lemma_lex_behind(p, x, y);
        }
    }
}

proof fn lemma_powers()
    ensures
        power10(2) == 100,
        power10(4) == 10_000,
{
    reveal_with_fuel(power10, 5);
}

/// Dates in years of four digits stand in the order of their texts.
pub proof fn lemma_texts_follow_dates(a: Date, b: Date)
    requires
        a.is_valid(),
        b.is_valid(),
        0 <= a.year <= 9999,
        0 <= b.year <= 9999,
        a.before(b),
    ensures
        lex_lt(a.text(), b.text()),
{
    lemma_powers();
    lemma_padded_order(a.year as nat, b.year as nat, 4);
    lemma_padded_order(a.month as nat, b.month as nat, 2);
    lemma_padded_order(a.day as nat, b.day as nat, 2);
    let a3 = padded(a.day as nat, 2);
    let b3 = padded(b.day as nat, 2);
    let a2 = padded(a.month as nat, 2) + ("-"@ + a3);
    let b2 = padded(b.month as nat, 2) + ("-"@ + b3);
    if a.year < b.year {
        lemma_lex_ahead(year_text(a.year), year_text(b.year), "-"@ + a2, "-"@ + b2);
    } else {
        if a.month < b.month {
            lemma_lex_ahead(
                padded(a.month as nat, 2),
                padded(b.month as nat, 2),
                "-"@ + a3,
                "-"@ + b3,
            );
        } else {
            lemma_lex_behind("-"@, a3, b3);
            lemma_lex_behind(padded(a.month as nat, 2), "-"@ + a3, "-"@ + b3);
        }
        lemma_lex_behind("-"@, a2, b2);
        lemma_lex_behind(year_text(a.year), "-"@ + a2, "-"@ + b2);
    }
}

/// In years of four digits a day is written in ten characters, the last of which is a digit.
pub proof fn lemma_day_text_shape(number: i32)
    requires
        has_plain_year(number),
    ensures
        day_text(number).len() == 10,
        is_digit(day_text(number).last()),
{
    let d = date_of(number as int);
    lemma_each_day_has_a_date(number as int);
    lemma_powers();
    lemma_padded_order(d.year as nat, d.year as nat, 4);
    lemma_padded_order(d.month as nat, d.month as nat, 2);
    lemma_padded_order(d.day as nat, d.day as nat, 2);
    reveal_strlit("-");
    assert(day_text(number).last() == digit(d.day as nat % 10));
}

/// In years of four digits the earlier of two days has the smaller text.
pub proof fn lemma_days_in_order(a: i32, b: i32)
    requires
        has_plain_year(a),
        has_plain_year(b),
        a < b,
    ensures
        lex_lt(day_text(a), day_text(b)),
{
    lemma_each_day_has_a_date(a as int);
    lemma_each_day_has_a_date(b as int);
    lemma_numbers_follow_dates(date_of(a as int), date_of(b as int));
    lemma_texts_follow_dates(date_of(a as int), date_of(b as int));
}

} // verus!
