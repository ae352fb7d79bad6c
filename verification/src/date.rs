//! Calendar dates as plain values: month numbering, leap years, month
//! lengths, date validity and ordering.
//!
//! A task's optional due date is kept as a `TaskDate` of plain integer
//! fields rather than as a foreign calendar type, so that every rule about
//! dates is stated and checked here.

use vstd::prelude::*;

verus! {

/// A month of the civil calendar.
#[derive(Clone, Copy, Debug, PartialEq, Eq, Structural)]
pub enum Month {
    January,
    February,
    March,
    April,
    May,
    June,
    July,
    August,
    September,
    October,
    November,
    December,
}

/// The number of a month, 1 for January through 12 for December.
pub open spec fn month_number(m: Month) -> int {
    match m {
        Month::January => 1,
        Month::February => 2,
        Month::March => 3,
        Month::April => 4,
        Month::May => 5,
        Month::June => 6,
        Month::July => 7,
        Month::August => 8,
        Month::September => 9,
        Month::October => 10,
        Month::November => 11,
        Month::December => 12,
    }
}

/// The month with a given number, if the number is in range.
pub open spec fn month_from_num(num: int) -> Option<Month> {
    if num == 1 {
        Some(Month::January)
    } else if num == 2 {
        Some(Month::February)
    } else if num == 3 {
        Some(Month::March)
    } else if num == 4 {
        Some(Month::April)
    } else if num == 5 {
        Some(Month::May)
    } else if num == 6 {
        Some(Month::June)
    } else if num == 7 {
        Some(Month::July)
    } else if num == 8 {
        Some(Month::August)
    } else if num == 9 {
        Some(Month::September)
    } else if num == 10 {
        Some(Month::October)
    } else if num == 11 {
        Some(Month::November)
    } else if num == 12 {
        Some(Month::December)
    } else {
        None
    }
}

/// Maps 1..=12 to the corresponding month; any other number has no month.
pub fn month_num_to_month(num: i32) -> (r: Option<Month>)
    ensures
        r == month_from_num(num as int),
{
    match num {
        1 => Some(Month::January),
        2 => Some(Month::February),
        3 => Some(Month::March),
        4 => Some(Month::April),
        5 => Some(Month::May),
        6 => Some(Month::June),
        7 => Some(Month::July),
        8 => Some(Month::August),
        9 => Some(Month::September),
        10 => Some(Month::October),
        11 => Some(Month::November),
        12 => Some(Month::December),
        _ => None,
    }
}

/// Numbering months and looking a number up are mutually inverse.
pub proof fn lemma_month_number_roundtrip(m: Month)
    ensures
        month_from_num(month_number(m)) == Some(m),
        1 <= month_number(m) <= 12,
{
}

/// A year is a leap year when divisible by 4 but not by 100, or by 400.
pub open spec fn is_leap_year_spec(year: int) -> bool {
    (year % 4 == 0 && year % 100 != 0) || year % 400 == 0
}

pub fn is_leap_year(year: u16) -> (r: bool)
    ensures
        r == is_leap_year_spec(year as int),
{
    (year % 4 == 0 && year % 100 != 0) || year % 400 == 0
}

/// The length of a month in days; 0 for a number that is no month.
pub open spec fn days_in_month_spec(year: int, month: int) -> int {
    if month == 1 || month == 3 || month == 5 || month == 7 || month == 8 || month == 10 || month
        == 12 {
        31
    } else if month == 4 || month == 6 || month == 9 || month == 11 {
        30
    } else if month == 2 {
        if is_leap_year_spec(year) {
            29
        } else {
            28
        }
    } else {
        0
    }
}

pub fn days_in_month(year: u16, month: u8) -> (d: u8)
    ensures
        d as int == days_in_month_spec(year as int, month as int),
{
    if month == 1 || month == 3 || month == 5 || month == 7 || month == 8 || month == 10 || month
        == 12 {
        31
    } else if month == 4 || month == 6 || month == 9 || month == 11 {
        30
    } else if month == 2 {
        if is_leap_year(year) {
            29
        } else {
            28
        }
    } else {
        0
    }
}

/// A calendar date held as plain fields, the store's date representation.
#[derive(Clone, Copy, Debug, PartialEq, Eq, Structural)]
pub struct TaskDate {
    pub year: u16,
    pub month: u8,
    pub day: u8,
}

/// A date is valid when its month exists, its day fits the month's length,
/// and its year has at most four digits.
pub open spec fn valid_date(d: TaskDate) -> bool {
    &&& d.year <= 9999
    &&& 1 <= d.month <= 12
    &&& 1 <= d.day <= days_in_month_spec(d.year as int, d.month as int)
}

impl TaskDate {
    pub fn new(year: u16, month: u8, day: u8) -> (d: TaskDate)
        ensures
            d == (TaskDate { year, month, day }),
    {
        TaskDate { year, month, day }
    }

    pub fn is_valid(&self) -> (r: bool)
        ensures
            r == valid_date(*self),
    {
        self.year <= 9999 && 1 <= self.month && self.month <= 12 && 1 <= self.day && self.day
            <= days_in_month(self.year, self.month)
    }
}

/// Dates ordered by year, then month, then day.
pub open spec fn date_le(a: TaskDate, b: TaskDate) -> bool {
    if a.year != b.year {
        a.year < b.year
    } else if a.month != b.month {
        a.month < b.month
    } else {
        a.day <= b.day
    }
}

/// Compares two dates in calendar order.
pub fn date_is_le(a: &TaskDate, b: &TaskDate) -> (r: bool)
    ensures
        r == date_le(*a, *b),
{
    if a.year != b.year {
        a.year < b.year
    } else if a.month != b.month {
        a.month < b.month
    } else {
        a.day <= b.day
    }
}

/// Relies on String::push, which appends the given character to the string.
pub assume_specification[ String::push ](s: &mut String, ch: char)
    ensures
        final(s)@ == old(s)@.push(ch),
;

/// The character of a single decimal digit.
pub open spec fn digit_char(d: int) -> char {
    if d == 0 {
        '0'
    } else if d == 1 {
        '1'
    } else if d == 2 {
        '2'
    } else if d == 3 {
        '3'
    } else if d == 4 {
        '4'
    } else if d == 5 {
        '5'
    } else if d == 6 {
        '6'
    } else if d == 7 {
        '7'
    } else if d == 8 {
        '8'
    } else {
        '9'
    }
}

/// The decimal digits of `n`, most significant first, no leading zeros.
pub open spec fn dec_rep(n: nat) -> Seq<char>
    decreases n,
{
    if n < 10 {
        seq![digit_char(n as int)]
    } else {
        dec_rep(n / 10).push(digit_char((n % 10) as int))
    }
}

/// The decimal digits of `n`, left-padded with zeros to at least `width`.
pub open spec fn padded_dec(n: nat, width: nat) -> Seq<char> {
    if dec_rep(n).len() >= width {
        dec_rep(n)
    } else {
        Seq::new((width - dec_rep(n).len()) as nat, |i: int| '0') + dec_rep(n)
    }
}

/// How many digits a number has.
pub proof fn lemma_dec_rep_len(n: nat)
    ensures
        n < 10 ==> dec_rep(n).len() == 1,
        10 <= n < 100 ==> dec_rep(n).len() == 2,
        100 <= n < 1000 ==> dec_rep(n).len() == 3,
        1000 <= n < 10000 ==> dec_rep(n).len() == 4,
        10000 <= n ==> dec_rep(n).len() >= 5,
    decreases n,
{
    if n >= 10 {
        lemma_dec_rep_len(n / 10);
    }
}

/// The date display form: zero-padded year, month and day, dash-separated.
pub open spec fn date_str(d: TaskDate) -> Seq<char> {
    padded_dec(d.year as nat, 4) + seq!['-'] + padded_dec(d.month as nat, 2) + seq!['-']
        + padded_dec(d.day as nat, 2)
}

fn digit_char_of(d: u16) -> (c: char)
    requires
        d < 10,
    ensures
        c == digit_char(d as int),
{
    match d {
        0 => '0',
        1 => '1',
        2 => '2',
        3 => '3',
        4 => '4',
        5 => '5',
        6 => '6',
        7 => '7',
        8 => '8',
        _ => '9',
    }
}

/// Appends the decimal digits of `n` to `s`.
fn push_dec(s: &mut String, n: u16)
    ensures
        final(s)@ == old(s)@ + dec_rep(n as nat),
    decreases n,
{
    if n < 10 {
        s.push(digit_char_of(n));
        assert(final(s)@ =~= old(s)@ + dec_rep(n as nat));
    } else {
        push_dec(s, n / 10);
        s.push(digit_char_of(n % 10));
        assert(final(s)@ =~= old(s)@ + dec_rep(n as nat));
    }
}

/// Appends `n` to `s`, zero-padded to `width` digits.
fn push_padded(s: &mut String, n: u16, width: u16)
    requires
        width == 2 || width == 4,
    ensures
        final(s)@ == old(s)@ + padded_dec(n as nat, width as nat),
{
    proof {
        lemma_dec_rep_len(n as nat);
    }
    if width >= 4 && n < 1000 {
        s.push('0');
    }
    if width >= 3 && n < 100 {
        s.push('0');
    }
    if width >= 2 && n < 10 {
        s.push('0');
    }
    push_dec(s, n);
    assert(final(s)@ =~= old(s)@ + padded_dec(n as nat, width as nat));
}

/// Renders a date in its display form, `YYYY-MM-DD`, zero-padded. The
/// store's wire format standardizes on this zero-padded shape.
pub fn convert_date_to_string(date: TaskDate) -> (s: String)
    ensures
        s@ == date_str(date),
{
    let mut s = String::new();
    push_padded(&mut s, date.year, 4);
    s.push('-');
    push_padded(&mut s, date.month as u16, 2);
    s.push('-');
    push_padded(&mut s, date.day as u16, 2);
    assert(s@ =~= date_str(date));
    s
}

} // verus!
