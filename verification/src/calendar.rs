//! A month-calendar text generator: an endless iterator over months
//! that renders each as a header line followed by right-aligned day
//! numbers, broken into weeks after each Sunday.

use vstd::prelude::*;
use vstd::string::StringExecFns;
use chrono::Datelike;

verus! {

/// The weekday of a proleptic Gregorian date, as a number with Monday
/// 0 through Sunday 6. It is a function of the date alone; the date
/// library computes it.
pub uninterp spec fn weekday_of(year: int, month: int, day: int) -> u8;

/// A year with 366 days under the proleptic Gregorian rule.
pub open spec fn is_leap_year(year: int) -> bool {
    year % 4 == 0 && (year % 100 != 0 || year % 400 == 0)
}

/// How many days the given month of the given year has.
pub open spec fn days_in_month(year: int, month: int) -> int
    recommends
        1 <= month <= 12,
{
    if month == 2 {
        if is_leap_year(year) {
            29
        } else {
            28
        }
    } else if month == 4 || month == 6 || month == 9 || month == 11 {
        30
    } else {
        31
    }
}

/// Relies on chrono's NaiveDate::from_ymd_opt, Datelike::weekday and
/// Weekday::num_days_from_monday: the weekday of a valid proleptic
/// Gregorian date, numbered Monday 0 through Sunday 6; it depends on
/// the date alone.
#[verifier::external_body]
fn get_weekday_from_day(start_year: i32, start_month: u32, day: u32) -> (r: u8)
    requires
        1 <= start_year <= 262142,
        1 <= start_month <= 12,
        1 <= day <= days_in_month(start_year as int, start_month as int),
    ensures
        r == weekday_of(start_year as int, start_month as int, day as int),
        r < 7,
{
    match chrono::NaiveDate::from_ymd_opt(start_year, start_month, day) {
        Some(date) => date.weekday().num_days_from_monday() as u8,
        None => 0,
    }
}

/// How many days the given month has, by the Gregorian leap rule.
pub fn get_days_from_month(year: i32, month: u32) -> (r: u32)
    requires
        1 <= year,
        1 <= month <= 12,
    ensures
        r == days_in_month(year as int, month as int),
{
    if month == 2 {
        if year % 4 == 0 && (year % 100 != 0 || year % 400 == 0) {
            29
        } else {
            28
        }
    } else if month == 4 || month == 6 || month == 9 || month == 11 {
        30
    } else {
        31
    }
}

/// The header of a month: the weekday names, then the indent that puts
/// the first day under its weekday column.
pub open spec fn head_text(wd: u8) -> Seq<char>
    recommends
        wd < 7,
{
    if wd == 0 {
        " Mo Tu We Th Fr Sa So\n"@
    } else if wd == 1 {
        " Mo Tu We Th Fr Sa So\n   "@
    } else if wd == 2 {
        " Mo Tu We Th Fr Sa So\n      "@
    } else if wd == 3 {
        " Mo Tu We Th Fr Sa So\n         "@
    } else if wd == 4 {
        " Mo Tu We Th Fr Sa So\n            "@
    } else if wd == 5 {
        " Mo Tu We Th Fr Sa So\n               "@
    } else {
        " Mo Tu We Th Fr Sa So\n                  "@
    }
}

/// The decimal digit character for a value below ten.
pub open spec fn digit_char(d: int) -> char
    recommends
        0 <= d <= 9,
{
    if d == 0 {
        '0'
    } else if d == 1 {
        '1'
    } else if d == 2 {
        '2'
    } else if d == 3 {
        '3'
    } else if d == 4 {
        '4'
    } else if d == 5 {
        '5'
    } else if d == 6 {
        '6'
    } else if d == 7 {
        '7'
    } else if d == 8 {
        '8'
    } else {
        '9'
    }
}

/// A day number, right-aligned in a field of three characters.
pub open spec fn day_chars(day: int) -> Seq<char>
    recommends
        1 <= day <= 31,
{
    if day < 10 {
        seq![' ', ' ', digit_char(day)]
    } else {
        seq![' ', digit_char(day / 10), digit_char(day % 10)]
    }
}

/// One day's text: its aligned number, with a line break after a
/// Sunday.
pub open spec fn day_text(year: int, month: int, day: int) -> Seq<char> {
    if weekday_of(year, month, day) == 6 {
        day_chars(day) + seq!['\n']
    } else {
        day_chars(day)
    }
}

/// The texts of the days `from` through `to`, concatenated.
pub open spec fn days_text(year: int, month: int, from: int, to: int) -> Seq<char>
    decreases to + 1 - from,
{
    if from > to {
        Seq::empty()
    } else {
        day_text(year, month, from) + days_text(year, month, from + 1, to)
    }
}

/// The full text of a month: its header, then all its days.
pub open spec fn month_text(year: int, month: int) -> Seq<char> {
    head_text(weekday_of(year, month, 1)) + days_text(
        year,
        month,
        1,
        days_in_month(year, month),
    )
}

/// Splitting the last day off a day range.
proof fn lemma_days_text_snoc(year: int, month: int, from: int, to: int)
    requires
        from <= to,
    ensures
        days_text(year, month, from, to) == days_text(year, month, from, to - 1) + day_text(
            year,
            month,
            to,
        ),
    decreases to - from,
{
    if from == to {
        assert(days_text(year, month, from + 1, to) =~= Seq::empty());
        assert(days_text(year, month, from, to - 1) =~= Seq::empty());
        assert(days_text(year, month, from, to) =~= days_text(year, month, from, to - 1)
            + day_text(year, month, to));
    } else {
        lemma_days_text_snoc(year, month, from + 1, to);
        assert(days_text(year, month, from, to) =~= days_text(year, month, from, to - 1)
            + day_text(year, month, to));
    }
}

/// The single decimal digit, as a string slice.
fn digit_str(d: u32) -> (r: &'static str)
    requires
        d <= 9,
    ensures
        r@ == seq![digit_char(d as int)],
{
    if d == 0 {
        proof {
            reveal_strlit("0");
            assert("0"@ =~= seq![digit_char(0)]);
        }
        "0"
    } else if d == 1 {
        proof {
            reveal_strlit("1");
            assert("1"@ =~= seq![digit_char(1)]);
        }
        "1"
    } else if d == 2 {
        proof {
            reveal_strlit("2");
            assert("2"@ =~= seq![digit_char(2)]);
        }
        "2"
    } else if d == 3 {
        proof {
            reveal_strlit("3");
            assert("3"@ =~= seq![digit_char(3)]);
        }
        "3"
    } else if d == 4 {
        proof {
            reveal_strlit("4");
            assert("4"@ =~= seq![digit_char(4)]);
        }
        "4"
    } else if d == 5 {
        proof {
            reveal_strlit("5");
            assert("5"@ =~= seq![digit_char(5)]);
        }
        "5"
    } else if d == 6 {
        proof {
            reveal_strlit("6");
            assert("6"@ =~= seq![digit_char(6)]);
        }
        "6"
    } else if d == 7 {
        proof {
            reveal_strlit("7");
            assert("7"@ =~= seq![digit_char(7)]);
        }
        "7"
    } else if d == 8 {
        proof {
            reveal_strlit("8");
            assert("8"@ =~= seq![digit_char(8)]);
        }
        "8"
    } else {
        proof {
            reveal_strlit("9");
            assert("9"@ =~= seq![digit_char(9)]);
        }
        "9"
    }
}

/// One day's line fragment: the aligned day number, with a line break
/// when the day is a Sunday.
pub fn generate_day_string(month: u32, year: i32, day: u32) -> (r: String)
    requires
        1 <= year <= 262142,
        1 <= month <= 12,
        1 <= day <= days_in_month(year as int, month as int),
    ensures
        r@ == day_text(year as int, month as int, day as int),
{
    let mut s = String::new();
    if day < 10 {
        s.append("  ");
        s.append(digit_str(day));
        proof {
            reveal_strlit("  ");
            assert(s@ =~= day_chars(day as int));
        }
    } else {
        s.append(" ");
        s.append(digit_str(day / 10));
        s.append(digit_str(day % 10));
        proof {
            reveal_strlit(" ");
            assert(s@ =~= day_chars(day as int));
        }
    }
    let wd = get_weekday_from_day(year, month, day);
    if wd == 6 {
        s.append("\n");
        proof {
            reveal_strlit("\n");
            assert(s@ =~= day_text(year as int, month as int, day as int));
        }
    }
    s
}

/// The header of a month: weekday names and the indent of its first
/// day.
pub fn generate_calendar_head(month: u32, year: i32) -> (r: String)
    requires
        1 <= year <= 262142,
        1 <= month <= 12,
    ensures
        r@ == head_text(weekday_of(year as int, month as int, 1)),
{
    let wd = get_weekday_from_day(year, month, 1);
    let s: &str = if wd == 0 {
        " Mo Tu We Th Fr Sa So\n"
    } else if wd == 1 {
        " Mo Tu We Th Fr Sa So\n   "
    } else if wd == 2 {
        " Mo Tu We Th Fr Sa So\n      "
    } else if wd == 3 {
        " Mo Tu We Th Fr Sa So\n         "
    } else if wd == 4 {
        " Mo Tu We Th Fr Sa So\n            "
    } else if wd == 5 {
        " Mo Tu We Th Fr Sa So\n               "
    } else {
        " Mo Tu We Th Fr Sa So\n                  "
    };
    s.to_owned()
}

/// An endless iterator over months, yielding each month's text in
/// turn.
pub struct MonthIter {
    month: u32,
    year: i32,
}

impl MonthIter {
    /// The month (1 through 12) the next step will render.
    pub closed spec fn month_value(self) -> u32 {
        self.month
    }

    /// The year the next step will render.
    pub closed spec fn year_value(self) -> i32 {
        self.year
    }

    pub open spec fn wf(self) -> bool {
        &&& 1 <= self.month_value() <= 12
        &&& 1 <= self.year_value() <= 262142
    }

    /// The month the next step will render.
    pub fn month(&self) -> (r: u32)
        ensures
            r == self.month_value(),
    {
        self.month
    }

    /// The year the next step will render.
    pub fn year(&self) -> (r: i32)
        ensures
            r == self.year_value(),
    {
        self.year
    }

    /// Renders the current month's text and advances to the next
    /// month.
    pub fn next(&mut self) -> (r: String)
        requires
            old(self).wf(),
            old(self).month_value() == 12 ==> old(self).year_value() < 262142,
        ensures
            final(self).wf(),
            r@ == month_text(old(self).year_value() as int, old(self).month_value() as int),
            final(self).month_value() == (if old(self).month_value() == 12 {
                1u32
            } else {
                (old(self).month_value() + 1) as u32
            }),
            final(self).year_value() as int == (if old(self).month_value() == 12 {
                old(self).year_value() + 1
            } else {
                old(self).year_value() as int
            }),
    {
        let year = self.year;
        let month = self.month;
        let mut s = generate_calendar_head(month, year);
        let n = get_days_from_month(year, month);
        proof {
            assert(s@ =~= head_text(weekday_of(year as int, month as int, 1)) + days_text(
                year as int,
                month as int,
                1,
                0,
            ));
        }
        let mut day: u32 = 1;
        while day <= n
            invariant
                1 <= year <= 262142,
                1 <= month <= 12,
                n == days_in_month(year as int, month as int),
                1 <= day <= n + 1,
                s@ == head_text(weekday_of(year as int, month as int, 1)) + days_text(
                    year as int,
                    month as int,
                    1,
                    day - 1,
                ),
            decreases n + 1 - day,
        {
            let ds = generate_day_string(month, year, day);
            s.append(ds.as_str());
            proof {
                lemma_days_text_snoc(year as int, month as int, 1, day as int);
                assert(s@ =~= head_text(weekday_of(year as int, month as int, 1)) + days_text(
                    year as int,
                    month as int,
                    1,
                    day as int,
                ));
            }
            day = day + 1;
        }
        if self.month == 12 {
            self.month = 1;
            self.year = self.year + 1;
        } else {
            self.month = self.month + 1;
        }
        s
    }
}

/// Starts the month iterator at the given month, counted from the
/// start of the given year: a month count past twelve carries into
/// the following years.
pub fn month_iter(start_year: i32, start_month: u32) -> (r: MonthIter)
    requires
        1 <= start_year,
        1 <= start_month,
        start_year + (start_month - 1) / 12 <= 262142,
    ensures
        r.wf(),
        r.month_value() == ((start_month - 1) % 12) + 1,
        r.year_value() as int == start_year + (start_month - 1) / 12,
{
    let offset = start_month - 1;
    let month = offset % 12 + 1;
    let year = start_year + (offset / 12) as i32;
    MonthIter { month, year }
}

} // verus!
