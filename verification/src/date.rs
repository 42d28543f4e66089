//! Calendar dates as plain values, with the `DD/MM/YYYY` rendering that
//! post pages and summaries display.

use vstd::prelude::*;

use crate::chars::string_from_chars;

verus! {

/// Years divisible by 4 are leap years, except century years not divisible
/// by 400.
pub open spec fn is_leap_year(y: int) -> bool {
    (y % 4 == 0 && y % 100 != 0) || y % 400 == 0
}

/// How many days month `m` of year `y` has.
pub open spec fn days_in_month(y: int, m: int) -> int {
    if m == 2 {
        if is_leap_year(y) {
            29
        } else {
            28
        }
    } else if m == 4 || m == 6 || m == 9 || m == 11 {
        30
    } else {
        31
    }
}

/// A valid calendar date with a four-digit year, as (year, month, day).
pub open spec fn valid_date(d: (int, int, int)) -> bool {
    &&& 0 <= d.0 <= 9999
    &&& 1 <= d.1 <= 12
    &&& 1 <= d.2 <= days_in_month(d.0, d.1)
}

/// The decimal digit character for `d`.
pub open spec fn digit_char(d: int) -> char {
    if d == 0 {
        '0'
    } else if d == 1 {
        '1'
    } else if d == 2 {
        '2'
    } else if d == 3 {
        '3'
    } else if d == 4 {
        '4'
    } else if d == 5 {
        '5'
    } else if d == 6 {
        '6'
    } else if d == 7 {
        '7'
    } else if d == 8 {
        '8'
    } else {
        '9'
    }
}

/// The `DD/MM/YYYY` rendering of a date, zero-padded.
pub open spec fn formatted_date_spec(d: (int, int, int)) -> Seq<char> {
    seq![
        digit_char(d.2 / 10),
        digit_char(d.2 % 10),
        '/',
        digit_char(d.1 / 10),
        digit_char(d.1 % 10),
        '/',
        digit_char(d.0 / 1000),
        digit_char((d.0 / 100) % 10),
        digit_char((d.0 / 10) % 10),
        digit_char(d.0 % 10),
    ]
}

/// A calendar date. Only valid dates can be constructed.
#[derive(Debug, Clone, Copy, PartialEq, Eq)]
pub struct Date {
    year: u32,
    month: u8,
    day: u8,
}

impl View for Date {
    type V = (int, int, int);

    closed spec fn view(&self) -> (int, int, int) {
        (self.year as int, self.month as int, self.day as int)
    }
}

impl Date {
    #[verifier::type_invariant]
    spec fn wf(self) -> bool {
        valid_date(self@)
    }

    /// Builds the date if year, month and day form a valid calendar date.
    pub fn new(year: u32, month: u8, day: u8) -> (r: Option<Date>)
        ensures
            r is Some <==> valid_date((year as int, month as int, day as int)),
            r is Some ==> r->0@ == (year as int, month as int, day as int),
    {
        if year > 9999 || month < 1 || month > 12 || day < 1 {
            return None;
        }
        let limit: u8 = if month == 2 {
            if (year % 4 == 0 && year % 100 != 0) || year % 400 == 0 {
                29
            } else {
                28
            }
        } else if month == 4 || month == 6 || month == 9 || month == 11 {
            30
        } else {
            31
        };
        if day > limit {
            return None;
        }
        Some(Date { year, month, day })
    }

    /// The date as `DD/MM/YYYY`.
    pub fn formatted(&self) -> (r: String)
        ensures
            r@ == formatted_date_spec(self@),
    {
        proof {
            use_type_invariant(self);
        }
        let mut cs: Vec<char> = Vec::new();
        cs.push(digit((self.day / 10) as u32));
        cs.push(digit((self.day % 10) as u32));
        cs.push('/');
        cs.push(digit((self.month / 10) as u32));
        cs.push(digit((self.month % 10) as u32));
        cs.push('/');
        cs.push(digit(self.year / 1000));
        cs.push(digit((self.year / 100) % 10));
        cs.push(digit((self.year / 10) % 10));
        cs.push(digit(self.year % 10));
        assert(cs@ =~= formatted_date_spec(self@));
        string_from_chars(&cs)
    }
}

/// The character for one decimal digit.
fn digit(d: u32) -> (c: char)
    requires
        d < 10,
    ensures
        c == digit_char(d as int),
{
    if d == 0 {
        '0'
    } else if d == 1 {
        '1'
    } else if d == 2 {
        '2'
    } else if d == 3 {
        '3'
    } else if d == 4 {
        '4'
    } else if d == 5 {
        '5'
    } else if d == 6 {
        '6'
    } else if d == 7 {
        '7'
    } else if d == 8 {
        '8'
    } else {
        '9'
    }
}

} // verus!
