//! Parsing the wire form of dates: a trimmed `year-month-day` string of
//! decimal fields, zero padding optional, accepted exactly when the three
//! fields name a valid calendar date.

use vstd::prelude::*;
use vstd::std_specs::iter::IteratorSpec;
use crate::date::{valid_date, TaskDate};

verus! {

broadcast use vstd::string::group_string_axioms;

/// A decimal digit.
pub open spec fn is_digit(c: char) -> bool {
    c == '0' || c == '1' || c == '2' || c == '3' || c == '4' || c == '5' || c == '6' || c == '7'
        || c == '8' || c == '9'
}

/// The value of one digit; 0 for anything else.
pub open spec fn digit_val(c: char) -> int {
    if c == '1' {
        1
    } else if c == '2' {
        2
    } else if c == '3' {
        3
    } else if c == '4' {
        4
    } else if c == '5' {
        5
    } else if c == '6' {
        6
    } else if c == '7' {
        7
    } else if c == '8' {
        8
    } else if c == '9' {
        9
    } else {
        0
    }
}

/// Whether every character is a digit.
pub open spec fn all_digits(s: Seq<char>) -> bool {
    forall|i: int| 0 <= i < s.len() ==> is_digit(#[trigger] s[i])
}

/// The value of a digit string read in base ten.
pub open spec fn dec_val(s: Seq<char>) -> int
    decreases s.len(),
{
    if s.len() == 0 {
        0
    } else {
        dec_val(s.drop_last()) * 10 + digit_val(s.last())
    }
}

proof fn lemma_dec_val_take_succ(s: Seq<char>, j: int)
    requires
        0 <= j < s.len(),
    ensures
        dec_val(s.take(j + 1)) == dec_val(s.take(j)) * 10 + digit_val(s[j]),
{
    assert(s.take(j + 1).drop_last() =~= s.take(j));
    assert(s.take(j + 1).last() == s[j]);
}

proof fn lemma_dec_val_nonneg(s: Seq<char>, j: int)
    requires
        0 <= j <= s.len(),
        all_digits(s),
    ensures
        dec_val(s.take(j)) >= 0,
    decreases j,
{
    if j > 0 {
        lemma_dec_val_nonneg(s, j - 1);
        lemma_dec_val_take_succ(s, j - 1);
    }
}

/// A digit string's value is at least the value of any of its prefixes.
proof fn lemma_dec_val_mono(s: Seq<char>, j: int)
    requires
        0 <= j <= s.len(),
        all_digits(s),
    ensures
        dec_val(s.take(j)) <= dec_val(s),
    decreases s.len() - j,
{
    if j == s.len() {
        assert(s.take(j) =~= s);
    } else {
        lemma_dec_val_nonneg(s, j);
        lemma_dec_val_take_succ(s, j);
        lemma_dec_val_mono(s, j + 1);
    }
}

/// A space, tab or line break, the padding trimmed from the wire form.
pub open spec fn is_space_char(c: char) -> bool {
    c == ' ' || c == '\t' || c == '\n' || c == '\r'
}

/// The first index at or after `from` holding a non-space character;
/// the length when there is none.
pub open spec fn first_non_space(s: Seq<char>, from: int) -> int
    decreases s.len() - from,
{
    if !(0 <= from < s.len()) {
        s.len() as int
    } else if !is_space_char(s[from]) {
        from
    } else {
        first_non_space(s, from + 1)
    }
}

/// The last index at or before `from` holding a non-space character;
/// -1 when there is none.
pub open spec fn last_non_space(s: Seq<char>, from: int) -> int
    decreases from + 1,
{
    if !(0 <= from < s.len()) {
        -1
    } else if !is_space_char(s[from]) {
        from
    } else {
        last_non_space(s, from - 1)
    }
}

/// The string with leading and trailing spaces removed.
pub open spec fn trim_spec(s: Seq<char>) -> Seq<char> {
    let a = first_non_space(s, 0);
    if a == s.len() {
        Seq::empty()
    } else {
        s.subrange(a, last_non_space(s, s.len() - 1) + 1)
    }
}

proof fn lemma_last_non_space_ge(s: Seq<char>, a: int, j: int)
    requires
        0 <= a <= j < s.len(),
        !is_space_char(s[a]),
    ensures
        last_non_space(s, j) >= a,
    decreases j - a,
{
    if is_space_char(s[j]) {
        lemma_last_non_space_ge(s, a, j - 1);
    }
}

proof fn lemma_first_non_space_at(s: Seq<char>, from: int)
    requires
        0 <= from <= s.len(),
    ensures
        from <= first_non_space(s, from) <= s.len(),
        first_non_space(s, from) < s.len() ==> !is_space_char(s[first_non_space(s, from)]),
    decreases s.len() - from,
{
    if from < s.len() && is_space_char(s[from]) {
        lemma_first_non_space_at(s, from + 1);
    }
}

/// The first index at or after `from` holding `c`; the length when none.
pub open spec fn find_from(s: Seq<char>, c: char, from: int) -> int
    decreases s.len() - from,
{
    if !(0 <= from < s.len()) {
        s.len() as int
    } else if s[from] == c {
        from
    } else {
        find_from(s, c, from + 1)
    }
}

/// The accepted wire form: after trimming, `year-month-day`, each field a
/// nonempty run of decimal digits, naming a valid calendar date.
pub open spec fn parse_date_spec(t: Seq<char>) -> Option<TaskDate> {
    let i1 = find_from(t, '-', 0);
    let i2 = find_from(t, '-', i1 + 1);
    let i3 = find_from(t, '-', i2 + 1);
    let ys = t.subrange(0, i1);
    let ms = t.subrange(i1 + 1, i2);
    let ds = t.subrange(i2 + 1, t.len() as int);
    if i1 < t.len() && i2 < t.len() && i3 == t.len() && ys.len() > 0 && ms.len() > 0 && ds.len()
        > 0 && all_digits(ys) && all_digits(ms) && all_digits(ds) && dec_val(ys) <= 0xFFFF
        && dec_val(ms) <= 0xFF && dec_val(ds) <= 0xFF && valid_date(
        TaskDate { year: dec_val(ys) as u16, month: dec_val(ms) as u8, day: dec_val(ds) as u8 },
    ) {
        Some(TaskDate { year: dec_val(ys) as u16, month: dec_val(ms) as u8, day: dec_val(ds) as u8 })
    } else {
        None
    }
}

/// The characters of a string, in order.
fn chars_of(s: &str) -> (v: Vec<char>)
    ensures
        v@ == s@,
{
    let mut it = s.chars();
    let mut v: Vec<char> = Vec::new();
    loop
        invariant
            it.decrease() is Some,
            v@ + it.remaining() == s@,
        ensures
            v@ == s@,
        decreases it.decrease()->0,
    {
        match it.next() {
            Some(c) => {
                v.push(c);
                proof {
                    assert(v@ + it.remaining() =~= s@);
                }
            },
            None => {
                proof {
                    assert(v@ =~= s@);
                }
                break ;
            },
        }
    }
    v
}

fn is_space(c: char) -> (r: bool)
    ensures
        r == is_space_char(c),
{
    c == ' ' || c == '\t' || c == '\n' || c == '\r'
}

fn scan_first_non_space(v: &Vec<char>) -> (r: usize)
    ensures
        r as int == first_non_space(v@, 0),
        r <= v@.len(),
{
    let mut i: usize = 0;
    while i < v.len()
        invariant
            0 <= i <= v@.len(),
            first_non_space(v@, 0) == first_non_space(v@, i as int),
        decreases v@.len() - i,
    {
        if !is_space(v[i]) {
            return i;
        }
        i += 1;
    }
    i
}

/// The end (exclusive) of the non-space suffix bound: one past the last
/// non-space character, 0 when all spaces.
fn scan_last_non_space(v: &Vec<char>) -> (r: usize)
    ensures
        r as int == last_non_space(v@, v@.len() - 1) + 1,
        r <= v@.len(),
{
    let mut i: usize = v.len();
    while i > 0
        invariant
            0 <= i <= v@.len(),
            last_non_space(v@, v@.len() - 1) == last_non_space(v@, i as int - 1),
        decreases i,
    {
        if !is_space(v[i - 1]) {
            return i;
        }
        i -= 1;
    }
    0
}

fn find_char_from(v: &Vec<char>, c: char, from: usize) -> (r: usize)
    requires
        from <= v@.len(),
    ensures
        r as int == find_from(v@, c, from as int),
        from <= r <= v@.len(),
        r < v@.len() ==> v@[r as int] == c,
{
    let mut i: usize = from;
    while i < v.len()
        invariant
            from <= i <= v@.len(),
            find_from(v@, c, from as int) == find_from(v@, c, i as int),
        decreases v@.len() - i,
    {
        if v[i] == c {
            return i;
        }
        i += 1;
    }
    i
}

/// Reads a base-ten field of the character window `[start, end)`. `None`
/// exactly when the field is empty, holds a non-digit, or its value does
/// not fit.
fn parse_u16_seg(v: &Vec<char>, start: usize, end: usize) -> (r: Option<u16>)
    requires
        start <= end <= v@.len(),
    ensures
        ({
            let seg = v@.subrange(start as int, end as int);
            match r {
                Some(x) => seg.len() > 0 && all_digits(seg) && x as int == dec_val(seg),
                None => seg.len() == 0 || !all_digits(seg) || dec_val(seg) > 0xFFFF,
            }
        }),
{
    let ghost seg = v@.subrange(start as int, end as int);
    if start == end {
        return None;
    }
    let mut acc: u32 = 0;
    let mut i: usize = start;
    while i < end
        invariant
            start <= i <= end <= v@.len(),
            seg == v@.subrange(start as int, end as int),
            acc <= 0xFFFF,
            all_digits(seg.take(i - start)),
            acc as int == dec_val(seg.take(i - start)),
        decreases end - i,
    {
        let c = v[i];
        proof {
            assert(seg[i - start] == v@[i as int]);
        }
        let d: u32 = match c {
            '0' => 0,
            '1' => 1,
            '2' => 2,
            '3' => 3,
            '4' => 4,
            '5' => 5,
            '6' => 6,
            '7' => 7,
            '8' => 8,
            '9' => 9,
            _ => {
                proof {
                    assert(!is_digit(seg[i - start]));
                }
                return None;
            },
        };
        proof {
            assert(is_digit(seg[i - start]));
            assert(d as int == digit_val(c));
            lemma_dec_val_take_succ(seg, i - start);
            assert(seg.take(i - start + 1).take(i - start) =~= seg.take(i - start));
            assert forall|k: int| 0 <= k < i - start + 1 implies is_digit(
                #[trigger] seg.take(i - start + 1)[k],
            ) by {
                if k < i - start {
                    assert(seg.take(i - start + 1)[k] == seg.take(i - start)[k]);
                }
            }
        }
        acc = acc * 10 + d;
        if acc > 0xFFFF {
            proof {
                if all_digits(seg) {
                    lemma_dec_val_mono(seg, i - start + 1);
                }
            }
            return None;
        }
        i += 1;
    }
    proof {
        assert(seg.take(i - start) =~= seg);
    }
    Some(acc as u16)
}

/// Reads a date from its wire form: leading and trailing spaces ignored,
/// then `year-month-day` in decimal, zero padding optional. `Some` exactly
/// when the trimmed string has that shape and names a valid calendar date.
pub fn parse_date(s: &str) -> (r: Option<TaskDate>)
    ensures
        r == parse_date_spec(trim_spec(s@)),
{
    let v = chars_of(s);
    let a = scan_first_non_space(&v);
    let mut tv: Vec<char> = Vec::new();
    if a < v.len() {
        let e = scan_last_non_space(&v);
        proof {
            lemma_first_non_space_at(v@, 0);
            lemma_last_non_space_ge(v@, a as int, v@.len() - 1);
        }
        let mut i: usize = a;
        while i < e
            invariant
                a <= i <= e <= v@.len(),
                tv@ == v@.subrange(a as int, i as int),
            decreases e - i,
        {
            tv.push(v[i]);
            proof {
                assert(tv@ =~= v@.subrange(a as int, i as int + 1));
            }
            i += 1;
        }
    }
    proof {
        assert(tv@ =~= trim_spec(s@));
    }
    let ghost t = trim_spec(s@);
    let n = tv.len();
    let i1 = find_char_from(&tv, '-', 0);
    if i1 == n {
        return None;
    }
    let i2 = find_char_from(&tv, '-', i1 + 1);
    if i2 == n {
        return None;
    }
    let i3 = find_char_from(&tv, '-', i2 + 1);
    if i3 != n {
        return None;
    }
    let y = match parse_u16_seg(&tv, 0, i1) {
        Some(y) => y,
        None => {
            return None;
        },
    };
    let m = match parse_u16_seg(&tv, i1 + 1, i2) {
        Some(m) => m,
        None => {
            return None;
        },
    };
    if m > 0xFF {
        return None;
    }
    let d = match parse_u16_seg(&tv, i2 + 1, n) {
        Some(d) => d,
        None => {
            return None;
        },
    };
    if d > 0xFF {
        return None;
    }
    let date = TaskDate { year: y, month: m as u8, day: d as u8 };
    if date.is_valid() {
        Some(date)
    } else {
        None
    }
}

} // verus!
