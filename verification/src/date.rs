//! Calendar dates and the strict `YYYY-MM-DD` grammar used everywhere a
//! date enters or leaves the library.

use vstd::prelude::*;
use vstd::string::StrSliceExecFns;

verus! {

/// A calendar date: year, month, day; no time of day, no time zone.
#[derive(Clone, Copy, Debug, PartialEq, Eq, Structural)]
pub struct Date {
    pub year: u32,
    pub month: u32,
    pub day: u32,
}

pub open spec fn is_leap_year(y: int) -> bool {
    y % 4 == 0 && (y % 100 != 0 || y % 400 == 0)
}

pub open spec fn days_in_month(y: int, m: int) -> int {
    if m == 2 {
        if is_leap_year(y) {
            29
        } else {
            28
        }
    } else if m == 4 || m == 6 || m == 9 || m == 11 {
        30
    } else {
        31
    }
}

impl Date {
    /// A well-formed calendar date with a four-digit year.
    pub open spec fn valid(self) -> bool {
        &&& self.year <= 9999
        &&& 1 <= self.month <= 12
        &&& 1 <= self.day <= days_in_month(self.year as int, self.month as int)
    }

    /// Chronological order: lexicographic on (year, month, day).
    pub open spec fn spec_le(self, other: Date) -> bool {
        ||| self.year < other.year
        ||| (self.year == other.year && self.month < other.month)
        ||| (self.year == other.year && self.month == other.month && self.day <= other.day)
    }

    /// Decides chronological order between two dates.
    pub fn le(&self, other: &Date) -> (r: bool)
        ensures
            r == self.spec_le(*other),
    {
        if self.year != other.year {
            self.year < other.year
        } else if self.month != other.month {
            self.month < other.month
        } else {
            self.day <= other.day
        }
    }
}

pub open spec fn is_digit(c: char) -> bool {
    '0' <= c && c <= '9'
}

pub open spec fn digit_val(c: char) -> int {
    c as u32 - '0' as u32
}

pub open spec fn digit_char(v: int) -> char {
    ((48 + v) as u8) as char
}

/// The strict date grammar: exactly four digits, a dash, two digits, a
/// dash, two digits, and the resulting triple must be a valid calendar
/// date. Anything else is rejected.
pub open spec fn parse_date_seq(s: Seq<char>) -> Option<Date> {
    if s.len() == 10 && is_digit(s[0]) && is_digit(s[1]) && is_digit(s[2]) && is_digit(s[3])
        && s[4] == '-' && is_digit(s[5]) && is_digit(s[6]) && s[7] == '-' && is_digit(s[8])
        && is_digit(s[9]) {
        let d = Date {
            year: (digit_val(s[0]) * 1000 + digit_val(s[1]) * 100 + digit_val(s[2]) * 10
                + digit_val(s[3])) as u32,
            month: (digit_val(s[5]) * 10 + digit_val(s[6])) as u32,
            day: (digit_val(s[8]) * 10 + digit_val(s[9])) as u32,
        };
        if d.valid() {
            Some(d)
        } else {
            None
        }
    } else {
        None
    }
}

/// The canonical ten characters `YYYY-MM-DD` of a date.
pub open spec fn date_seq(d: Date) -> Seq<char> {
    seq![
        digit_char(d.year as int / 1000),
        digit_char((d.year as int / 100) % 10),
        digit_char((d.year as int / 10) % 10),
        digit_char(d.year as int % 10),
        '-',
        digit_char(d.month as int / 10),
        digit_char(d.month as int % 10),
        '-',
        digit_char(d.day as int / 10),
        digit_char(d.day as int % 10),
    ]
}

/// Reads one character as a decimal digit.
fn char_digit(c: char) -> (r: Option<u32>)
    ensures
        r is Some <==> is_digit(c),
        r is Some ==> r->0 == digit_val(c) && r->0 <= 9,
{
    if '0' <= c && c <= '9' {
        Some(c as u32 - 48)
    } else {
        None
    }
}

/// Parses a string against the strict `YYYY-MM-DD` grammar.
pub fn parse_date(s: &str) -> (r: Option<Date>)
    ensures
        r == parse_date_seq(s@),
{
    if s.unicode_len() != 10 {
        return None;
    }
    if s.get_char(4) != '-' || s.get_char(7) != '-' {
        return None;
    }
    let y0 = char_digit(s.get_char(0));
    let y1 = char_digit(s.get_char(1));
    let y2 = char_digit(s.get_char(2));
    let y3 = char_digit(s.get_char(3));
    let m0 = char_digit(s.get_char(5));
    let m1 = char_digit(s.get_char(6));
    let d0 = char_digit(s.get_char(8));
    let d1 = char_digit(s.get_char(9));
    match (y0, y1, y2, y3, m0, m1, d0, d1) {
        (Some(y0), Some(y1), Some(y2), Some(y3), Some(m0), Some(m1), Some(d0), Some(d1)) => {
            let d = Date {
                year: y0 * 1000 + y1 * 100 + y2 * 10 + y3,
                month: m0 * 10 + m1,
                day: d0 * 10 + d1,
            };
            if date_valid_exec(&d) {
                Some(d)
            } else {
                None
            }
        },
        _ => None,
    }
}

/// Decides `Date::valid`.
pub fn date_valid_exec(d: &Date) -> (r: bool)
    ensures
        r == d.valid(),
{
    if d.year > 9999 || d.month < 1 || d.month > 12 || d.day < 1 {
        return false;
    }
    let leap = d.year % 4 == 0 && (d.year % 100 != 0 || d.year % 400 == 0);
    let dim: u32 = if d.month == 2 {
        if leap {
            29
        } else {
            28
        }
    } else if d.month == 4 || d.month == 6 || d.month == 9 || d.month == 11 {
        30
    } else {
        31
    };
    d.day <= dim
}

/// Restores a digit from its character.
pub proof fn lemma_digit_char_val(v: int)
    requires
        0 <= v <= 9,
    ensures
        is_digit(digit_char(v)),
        digit_val(digit_char(v)) == v,
{
}

/// Decimal digits reassemble into the number they came from.
proof fn lemma_decimal_recompose(y: int)
    requires
        0 <= y <= 9999,
    ensures
        (y / 1000) * 1000 + ((y / 100) % 10) * 100 + ((y / 10) % 10) * 10 + y % 10 == y,
        (y / 10) * 10 + y % 10 == y,
{
    assert((y / 1000) * 1000 + ((y / 100) % 10) * 100 + ((y / 10) % 10) * 10 + y % 10 == y)
        by (nonlinear_arith)
        requires
            0 <= y <= 9999,
    ;
    assert((y / 10) * 10 + y % 10 == y) by (nonlinear_arith)
        requires
            0 <= y <= 9999,
    ;
}

/// A valid date reads back from its own canonical text.
#[verifier::rlimit(30)]
pub proof fn lemma_date_roundtrip(d: Date)
    requires
        d.valid(),
    ensures
        parse_date_seq(date_seq(d)) == Some(d),
{
    let y = d.year as int;
    let m = d.month as int;
    let dd = d.day as int;
    lemma_digit_char_val(y / 1000);
    lemma_digit_char_val((y / 100) % 10);
    lemma_digit_char_val((y / 10) % 10);
    lemma_digit_char_val(y % 10);
    lemma_digit_char_val(m / 10);
    lemma_digit_char_val(m % 10);
    lemma_digit_char_val(dd / 10);
    lemma_digit_char_val(dd % 10);
    lemma_decimal_recompose(y);
    lemma_decimal_recompose(m);
    lemma_decimal_recompose(dd);
}

} // verus!
