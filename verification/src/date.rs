//! Calendar dates as plain values, ordered by (year, month, day).
//!
//! The recent-changes strategy only parses and compares dates, so a date
//! is modeled directly: a year, a month and a day, with full calendar
//! validation (month lengths, leap years) at parse time. Parsing accepts
//! the ISO form `YYYY-MM-DD` with a year of up to six digits.

use vstd::prelude::*;

use crate::text::{first_pos, lemma_first_pos, find_char};

verus! {

#[derive(Clone, Copy, PartialEq, Eq, Structural, Debug)]
pub struct Date {
    pub year: u32,
    pub month: u32,
    pub day: u32,
}

/// Whether `year` is a leap year.
pub open spec fn is_leap_year(year: int) -> bool {
    year % 4 == 0 && (year % 100 != 0 || year % 400 == 0)
}

/// Number of days in the month, 0 outside 1..=12.
pub open spec fn days_in_month(year: int, month: int) -> int {
    if month == 1 || month == 3 || month == 5 || month == 7 || month == 8 || month == 10 || month
        == 12 {
        31
    } else if month == 4 || month == 6 || month == 9 || month == 11 {
        30
    } else if month == 2 {
        if is_leap_year(year) {
            29
        } else {
            28
        }
    } else {
        0
    }
}

/// A calendar-valid (year, month, day) triple.
pub open spec fn valid_date(year: int, month: int, day: int) -> bool {
    1 <= month <= 12 && 1 <= day <= days_in_month(year, month)
}

impl Date {
    /// `self` is on or after `o`.
    pub open spec fn spec_ge(self, o: Date) -> bool {
        ||| self.year > o.year
        ||| (self.year == o.year && self.month > o.month)
        ||| (self.year == o.year && self.month == o.month && self.day >= o.day)
    }

    /// Comparison: `self` is on or after `o`.
    pub fn ge(&self, o: &Date) -> (r: bool)
        ensures
            r == self.spec_ge(*o),
    {
        self.year > o.year || (self.year == o.year && self.month > o.month) || (self.year == o.year
            && self.month == o.month && self.day >= o.day)
    }

    /// The minimum representable date; every valid date is on or after it.
    pub fn min_date() -> (r: Date)
        ensures
            r == (Date { year: 0, month: 1, day: 1 }),
    {
        Date { year: 0, month: 1, day: 1 }
    }
}

/// ASCII decimal digit.
pub open spec fn is_digit(c: char) -> bool {
    48 <= (c as int) && (c as int) <= 57
}

/// ASCII decimal digit test on a character.
pub fn is_digit_char(c: char) -> (r: bool)
    ensures
        r == is_digit(c),
{
    let u = c as u32;
    48 <= u && u <= 57
}

/// A nonempty, all-digit field.
pub open spec fn all_digits(s: Seq<char>) -> bool {
    s.len() > 0 && forall|i: int| 0 <= i < s.len() ==> is_digit(s[i])
}

/// Value of a digit string read in base 10.
pub open spec fn digits_val(s: Seq<char>) -> int
    decreases s.len(),
{
    if s.len() == 0 {
        0
    } else {
        digits_val(s.drop_last()) * 10 + ((s.last() as int) - 48)
    }
}

pub open spec fn pow10(n: nat) -> int
    decreases n,
{
    if n == 0 {
        1
    } else {
        10 * pow10((n - 1) as nat)
    }
}

pub proof fn lemma_pow10_mono(a: nat, b: nat)
    requires
        a <= b,
    ensures
        pow10(a) <= pow10(b),
        pow10(a) >= 1,
    decreases b,
{
    if b > 0 {
        if a == b {
            lemma_pow10_mono((a - 1) as nat, (b - 1) as nat);
        } else {
            lemma_pow10_mono(a, (b - 1) as nat);
        }
    }
}

pub proof fn lemma_digits_val_bound(s: Seq<char>)
    requires
        forall|i: int| 0 <= i < s.len() ==> is_digit(s[i]),
    ensures
        0 <= digits_val(s) < pow10(s.len()),
    decreases s.len(),
{
    if s.len() > 0 {
        lemma_digits_val_bound(s.drop_last());
    }
}

/// Parse a nonempty all-digit field of at most six characters.
pub fn parse_digits(s: &str) -> (r: Option<u32>)
    ensures
        match r {
            Some(v) => all_digits(s@) && s@.len() <= 6 && v as int == digits_val(s@),
            None => !(all_digits(s@) && s@.len() <= 6),
        },
{
    let n = s.unicode_len();
    if n == 0 || n > 6 {
        return None;
    }
    let mut val: u32 = 0;
    let mut i: usize = 0;
    while i < n
        invariant
            0 <= i <= n,
            n == s@.len(),
            0 < n <= 6,
            forall|j: int| 0 <= j < i ==> is_digit(s@[j]),
            val as int == digits_val(s@.take(i as int)),
            val < 1000000,
        decreases n - i,
    {
        let c = s.get_char(i);
        let u = c as u32;
        if !(48 <= u && u <= 57) {
            return None;
        }
        val = val * 10 + (u - 48);
        proof {
            assert(s@.take(i + 1).drop_last() =~= s@.take(i as int));
            assert(s@.take(i + 1).last() == s@[i as int]);
            lemma_digits_val_bound(s@.take(i + 1));
            lemma_pow10_mono(s@.take(i + 1).len() as nat, 6);
            assert(pow10(6) == 1000000) by {
                reveal_with_fuel(pow10, 7);
            }
        }
        i = i + 1;
    }
    proof {
        assert(s@.take(n as int) =~= s@);
    }
    Some(val)
}

/// The parse of an ISO `YYYY-MM-DD` date string, `None` when the string
/// is not of that shape or the triple is not calendar-valid.
pub open spec fn parse_date_spec(s: Seq<char>) -> Option<Date> {
    let p1 = first_pos(s, '-');
    if p1 == s.len() {
        None
    } else {
        let f1 = s.take(p1);
        let rest = s.skip(p1 + 1);
        let p2 = first_pos(rest, '-');
        if p2 == rest.len() {
            None
        } else {
            let f2 = rest.take(p2);
            let f3 = rest.skip(p2 + 1);
            if all_digits(f1) && f1.len() <= 6 && all_digits(f2) && f2.len() <= 6 && all_digits(f3)
                && f3.len() <= 6 && valid_date(digits_val(f1), digits_val(f2), digits_val(f3)) {
                Some(
                    Date {
                        year: digits_val(f1) as u32,
                        month: digits_val(f2) as u32,
                        day: digits_val(f3) as u32,
                    },
                )
            } else {
                None
            }
        }
    }
}

/// Parse an ISO `YYYY-MM-DD` date, validating the calendar triple.
pub fn parse_date(s: &str) -> (r: Option<Date>)
    ensures
        r == parse_date_spec(s@),
{
    let n = s.unicode_len();
    let p1 = find_char(s, '-');
    proof {
        lemma_first_pos(s@, '-');
    }
    if p1 == n {
        return None;
    }
    let f1 = s.substring_char(0, p1);
    assert(f1@ =~= s@.take(p1 as int));
    let rest = s.substring_char(p1 + 1, n);
    assert(rest@ =~= s@.skip(p1 + 1));
    let m = rest.unicode_len();
    let p2 = find_char(rest, '-');
    proof {
        lemma_first_pos(rest@, '-');
    }
    if p2 == m {
        return None;
    }
    let f2 = rest.substring_char(0, p2);
    assert(f2@ =~= rest@.take(p2 as int));
    let f3 = rest.substring_char(p2 + 1, m);
    assert(f3@ =~= rest@.skip(p2 + 1));
    let v1 = match parse_digits(f1) {
        Some(v) => v,
        None => {
            return None;
        },
    };
    let v2 = match parse_digits(f2) {
        Some(v) => v,
        None => {
            return None;
        },
    };
    let v3 = match parse_digits(f3) {
        Some(v) => v,
        None => {
            return None;
        },
    };
    let ok_month = 1 <= v2 && v2 <= 12;
    let leap = v1 % 4 == 0 && (v1 % 100 != 0 || v1 % 400 == 0);
    let max_day: u32 = if v2 == 1 || v2 == 3 || v2 == 5 || v2 == 7 || v2 == 8 || v2 == 10 || v2
        == 12 {
        31
    } else if v2 == 4 || v2 == 6 || v2 == 9 || v2 == 11 {
        30
    } else if v2 == 2 {
        if leap {
            29
        } else {
            28
        }
    } else {
        0
    };
    if ok_month && 1 <= v3 && v3 <= max_day {
        Some(Date { year: v1, month: v2, day: v3 })
    } else {
        None
    }
}

} // verus!
