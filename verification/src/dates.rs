//! Civil dates without a time zone, written as ISO-8601 `YYYY-MM-DD`.

use vstd::prelude::*;

use crate::numfmt::{all_digits, digit_char, is_digit, padded_digits, val_of_digits};
use crate::numfmt::{lemma_padded_digits, lemma_val_of_digits_bound, padded_digits_exec};
use crate::fixed::lemma_pow10_exact;

verus! {

/// A civil (zone-less) calendar date.
#[derive(Clone, Copy, PartialEq, Eq, Structural, Debug)]
pub struct Date {
    pub year: u16,
    pub month: u8,
    pub day: u8,
}

/// Gregorian leap years.
pub open spec fn is_leap_year(y: int) -> bool {
    y % 4 == 0 && (y % 100 != 0 || y % 400 == 0)
}

/// Days in a month of the proleptic Gregorian calendar.
pub open spec fn days_in_month(y: int, m: int) -> int {
    if m == 2 {
        if is_leap_year(y) {
            29
        } else {
            28
        }
    } else if m == 4 || m == 6 || m == 9 || m == 11 {
        30
    } else {
        31
    }
}

impl Date {
    /// A calendar-valid date with a four-digit year.
    pub open spec fn valid(self) -> bool {
        1 <= self.year <= 9999 && 1 <= self.month <= 12 && 1 <= self.day <= days_in_month(
            self.year as int,
            self.month as int,
        )
    }

    /// Check calendar validity.
    pub fn is_valid(&self) -> (r: bool)
        ensures
            r == self.valid(),
    {
        let dim: u8 = if self.month == 2 {
            let leap = self.year % 4 == 0 && (self.year % 100 != 0 || self.year % 400 == 0);
            if leap {
                29
            } else {
                28
            }
        } else if self.month == 4 || self.month == 6 || self.month == 9 || self.month == 11 {
            30
        } else {
            31
        };
        1 <= self.year && self.year <= 9999 && 1 <= self.month && self.month <= 12 && 1 <= self.day
            && self.day <= dim
    }

    /// The ISO-8601 text of a date.
    pub open spec fn iso_of(self) -> Seq<char> {
        padded_digits(self.year as int, 4) + seq!['-'] + padded_digits(self.month as int, 2)
            + seq!['-'] + padded_digits(self.day as int, 2)
    }

    /// Write the date as `YYYY-MM-DD`.
    pub fn to_iso(&self) -> (r: String)
        ensures
            r@ == self.iso_of(),
    {
        let mut s = padded_digits_exec(self.year as u64, 4);
        proof {
            reveal_strlit("-");
        }
        s.append("-");
        let m = padded_digits_exec(self.month as u64, 2);
        s.append(m.as_str());
        s.append("-");
        let d = padded_digits_exec(self.day as u64, 2);
        s.append(d.as_str());
        proof {
            assert(s@ =~= self.iso_of());
        }
        s
    }
}

/// The meaning of ISO-8601 date text: `None` unless the text is exactly
/// `YYYY-MM-DD` and names a calendar-valid date.
pub open spec fn parse_iso_spec(s: Seq<char>) -> Option<Date> {
    if s.len() == 10 && s[4] == '-' && s[7] == '-' && all_digits(s.subrange(0, 4)) && all_digits(
        s.subrange(5, 7),
    ) && all_digits(s.subrange(8, 10)) {
        let d = Date {
            year: val_of_digits(s.subrange(0, 4)) as u16,
            month: val_of_digits(s.subrange(5, 7)) as u8,
            day: val_of_digits(s.subrange(8, 10)) as u8,
        };
        if d.valid() {
            Some(d)
        } else {
            None
        }
    } else {
        None
    }
}

/// Parse `YYYY-MM-DD` into a calendar-valid date.
pub fn parse_iso(s: &str) -> (r: Option<Date>)
    ensures
        r == parse_iso_spec(s@),
{
    let n = s.unicode_len();
    if n != 10 {
        return None;
    }
    if s.get_char(4) != '-' || s.get_char(7) != '-' {
        return None;
    }
    let y = match parse_fixed_digits(s, 0, 4) {
        Some(v) => v,
        None => {
            return None;
        },
    };
    let m = match parse_fixed_digits(s, 5, 7) {
        Some(v) => v,
        None => {
            return None;
        },
    };
    let d = match parse_fixed_digits(s, 8, 10) {
        Some(v) => v,
        None => {
            return None;
        },
    };
    proof {
        lemma_val_of_digits_bound(s@.subrange(0, 4));
        lemma_val_of_digits_bound(s@.subrange(5, 7));
        lemma_val_of_digits_bound(s@.subrange(8, 10));
        lemma_pow10_exact(4);
        lemma_pow10_exact(2);
    }
    let date = Date { year: y as u16, month: m as u8, day: d as u8 };
    if date.is_valid() {
        Some(date)
    } else {
        None
    }
}

/// Parse the digit run `s[from..to]` (at most four characters).
fn parse_fixed_digits(s: &str, from: usize, to: usize) -> (r: Option<u64>)
    requires
        from <= to <= s@.len(),
        to - from <= 4,
    ensures
        match r {
            Some(v) => all_digits(s@.subrange(from as int, to as int)) && v == val_of_digits(
                s@.subrange(from as int, to as int),
            ),
            None => !all_digits(s@.subrange(from as int, to as int)),
        },
{
    let ghost whole = s@.subrange(from as int, to as int);
    let mut v: u64 = 0;
    let mut i: usize = from;
    while i < to
        invariant
            from <= i <= to <= s@.len(),
            to - from <= 4,
            whole == s@.subrange(from as int, to as int),
            all_digits(s@.subrange(from as int, i as int)),
            v == val_of_digits(s@.subrange(from as int, i as int)),
            v < crate::fixed::pow10((i - from) as nat),
        decreases to - i,
    {
        let c = s.get_char(i);
        if !(c >= '0' && c <= '9') {
            proof {
                assert(whole[i - from] == s@[i as int]);
                assert(!is_digit(whole[i - from]));
            }
            return None;
        }
        proof {
            lemma_pow10_exact((i - from) as nat);
            lemma_pow10_exact(4);
            assert(s@.subrange(from as int, i as int + 1).drop_last() =~= s@.subrange(
                from as int,
                i as int,
            ));
        }
        let d: u64 = (c as u32 as u64) - 48;
        v = v * 10 + d;
        i = i + 1;
    }
    proof {
        assert(s@.subrange(from as int, i as int) =~= whole);
    }
    Some(v)
}

/// Writing a valid date and parsing the text back is the identity.
pub proof fn lemma_date_round_trip(d: Date)
    requires
        d.valid(),
    ensures
        parse_iso_spec(d.iso_of()) == Some(d),
{
    let s = d.iso_of();
    lemma_pow10_exact(4);
    lemma_pow10_exact(2);
    lemma_padded_digits(d.year as int, 4);
    lemma_padded_digits(d.month as int, 2);
    lemma_padded_digits(d.day as int, 2);
    assert(s.len() == 10);
    assert(s.subrange(0, 4) =~= padded_digits(d.year as int, 4));
    assert(s[4] == '-');
    assert(s.subrange(5, 7) =~= padded_digits(d.month as int, 2));
    assert(s[7] == '-');
    assert(s.subrange(8, 10) =~= padded_digits(d.day as int, 2));
}

} // verus!
