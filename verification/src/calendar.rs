//! Proleptic Gregorian date arithmetic on "YYYY-MM-DD" strings, through
//! Julian Day Numbers, with no date crate.

use vstd::prelude::*;
use crate::cadence::CadenceError;
use crate::text::{
    chars_of, index_from, int_of_str, is_digit, lemma_index_from_concat,
    lemma_int_of_digits, lemma_zero_pad_decimal, padded_int, parse_int, push_padded, string_of,
};

verus! {

/// Integer division rounding toward zero, as Rust's `/` does (for `b > 0`).
pub open spec fn tdiv(a: int, b: int) -> int {
    if a >= 0 {
        a / b
    } else {
        -((-a) / b)
    }
}

/// `x` fits in an `i64`.
pub open spec fn i64_ok(x: int) -> bool {
    i64::MIN <= x <= i64::MAX
}

/// The Julian Day Number the Fliegel and Van Flandern formula gives for `(y, m, d)`.
#[verifier::opaque]
pub open spec fn jdn_of(y: int, m: int, d: int) -> int {
    let a = tdiv(14 - m, 12);
    let yy = y + 4800 - a;
    let mm = m + 12 * a - 3;
    d + tdiv(153 * mm + 2, 5) + 365 * yy + tdiv(yy, 4) - tdiv(yy, 100) + tdiv(yy, 400) - 32045
}

/// Every intermediate value of `jdn_of(y, m, d)`, evaluated in `i64`, fits.
#[verifier::opaque]
pub open spec fn jdn_fits(y: int, m: int, d: int) -> bool {
    let a = tdiv(14 - m, 12);
    let yy = y + 4800 - a;
    let mm = m + 12 * a - 3;
    let s1 = d + tdiv(153 * mm + 2, 5);
    let s2 = s1 + 365 * yy;
    let s3 = s2 + tdiv(yy, 4);
    let s4 = s3 - tdiv(yy, 100);
    let s5 = s4 + tdiv(yy, 400);
    &&& i64_ok(y + 4800)
    &&& i64_ok(yy)
    &&& i64_ok(365 * yy)
    &&& i64_ok(s2)
    &&& i64_ok(s3)
    &&& i64_ok(s4)
    &&& i64_ok(s5)
    &&& i64_ok(s5 - 32045)
}

/// The `(year, month, day)` that the inverse formula gives for day number `j`
/// (month and day are truncated to `u32`, as the `as u32` casts do).
#[verifier::opaque]
pub open spec fn ymd_of_jdn(j: int) -> (int, int, int) {
    let a = j + 32044;
    let b = tdiv(4 * a + 3, 146097);
    let c = a - tdiv(146097 * b, 4);
    let dd = tdiv(4 * c + 3, 1461);
    let e = c - tdiv(1461 * dd, 4);
    let mm = tdiv(5 * e + 2, 153);
    let day = (e - tdiv(153 * mm + 2, 5) + 1) as u32;
    let month = (mm + 3 - 12 * tdiv(mm, 10)) as u32;
    let year = 100 * b + dd - 4800 + tdiv(mm, 10);
    (year, month as int, day as int)
}

/// Every intermediate value of `ymd_of_jdn(j)`, evaluated in `i64`, fits.
#[verifier::opaque]
pub open spec fn ymd_of_jdn_fits(j: int) -> bool {
    let a = j + 32044;
    let b = tdiv(4 * a + 3, 146097);
    let c = a - tdiv(146097 * b, 4);
    let dd = tdiv(4 * c + 3, 1461);
    let e = c - tdiv(1461 * dd, 4);
    let mm = tdiv(5 * e + 2, 153);
    &&& i64_ok(a)
    &&& i64_ok(4 * a)
    &&& i64_ok(4 * a + 3)
    &&& i64_ok(146097 * b)
    &&& i64_ok(c)
    &&& i64_ok(4 * c)
    &&& i64_ok(4 * c + 3)
    &&& i64_ok(1461 * dd)
    &&& i64_ok(e)
    &&& i64_ok(5 * e)
    &&& i64_ok(5 * e + 2)
    &&& i64_ok(153 * mm)
    &&& i64_ok(153 * mm + 2)
    &&& i64_ok(e - tdiv(153 * mm + 2, 5))
    &&& i64_ok(e - tdiv(153 * mm + 2, 5) + 1)
    &&& i64_ok(mm + 3)
    &&& i64_ok(12 * tdiv(mm, 10))
    &&& i64_ok(100 * b)
    &&& i64_ok(100 * b + dd)
    &&& i64_ok(100 * b + dd - 4800)
    &&& i64_ok(100 * b + dd - 4800 + tdiv(mm, 10))
}

/// "YYYY-MM-DD" as `format!("{y:04}-{m:02}-{d:02}")` writes it.
#[verifier::opaque]
pub open spec fn ymd_text(y: int, m: int, d: int) -> Seq<char> {
    padded_int(y, 4) + seq!['-'] + padded_int(m, 2) + seq!['-'] + padded_int(d, 2)
}

/// What splitting `s` at its first two `-` and parsing the three parts
/// (an `i64` year, `u32` month and day) gives.
#[verifier::opaque]
pub open spec fn ymd_parse(s: Seq<char>) -> Result<(int, int, int), CadenceError> {
    match index_from(s, '-', 0) {
        None => Err(CadenceError::InvalidDate),
        Some(p1) => match index_from(s, '-', p1 + 1) {
            None => Err(CadenceError::InvalidDate),
            Some(p2) => match int_of_str(s.subrange(0, p1), true, i64::MIN as int, i64::MAX as int) {
                None => Err(CadenceError::BadYear),
                Some(y) => match int_of_str(s.subrange(p1 + 1, p2), false, 0, u32::MAX as int) {
                    None => Err(CadenceError::BadMonth),
                    Some(m) => match int_of_str(s.subrange(p2 + 1, s.len() as int), false, 0, u32::MAX as int) {
                        None => Err(CadenceError::BadDay),
                        Some(d) => Ok((y, m, d)),
                    },
                },
            },
        },
    }
}

/// What `add_days(s, n)` gives; `None` where its `i64` arithmetic would overflow.
pub open spec fn add_days_outcome(s: Seq<char>, n: int) -> Option<Result<Seq<char>, CadenceError>> {
    match ymd_parse(s) {
        Err(e) => Some(Err(e)),
        Ok((y, m, d)) => {
            let j = jdn_of(y, m, d) + n;
            if jdn_fits(y, m, d) && i64_ok(j) && ymd_of_jdn_fits(j) {
                let (ny, nm, nd) = ymd_of_jdn(j);
                Some(Ok(ymd_text(ny, nm, nd)))
            } else {
                None
            }
        },
    }
}

/// `y` is a leap year of the proleptic Gregorian calendar.
pub open spec fn is_leap_year(y: int) -> bool {
    (y % 4 == 0 && y % 100 != 0) || y % 400 == 0
}

/// The length of month `m` of year `y` (30 for a month number out of 1..=12).
pub open spec fn month_length(y: int, m: int) -> int {
    if m == 1 || m == 3 || m == 5 || m == 7 || m == 8 || m == 10 || m == 12 {
        31
    } else if m == 4 || m == 6 || m == 9 || m == 11 {
        30
    } else if m == 2 {
        if is_leap_year(y) { 29 } else { 28 }
    } else {
        30
    }
}

/// A real calendar date: month 1..=12 and a day within that month.
pub open spec fn is_calendar_date(y: int, m: int, d: int) -> bool {
    1 <= m <= 12 && 1 <= d <= month_length(y, m)
}

/// Splits a "YYYY-MM-DD" date string into (year, month, day).
pub fn parse_ymd(date: &str) -> (r: Result<(i64, u32, u32), CadenceError>)
    ensures
        match r {
            Ok((y, m, d)) => ymd_parse(date@) == Ok::<(int, int, int), CadenceError>((y as int, m as int, d as int)),
            Err(e) => ymd_parse(date@) == Err::<(int, int, int), CadenceError>(e),
        },
{
    reveal(ymd_parse);
    let s = chars_of(date);
    let ghost t = s@;
    let p1 = match find_dash(&s, 0) {
        None => { return Err(CadenceError::InvalidDate); },
        Some(p) => p,
    };
    let p2 = match find_dash(&s, p1 + 1) {
        None => { return Err(CadenceError::InvalidDate); },
        Some(p) => p,
    };
    let y = match parse_int(&s, 0, p1, true, i64::MIN as i128, i64::MAX as i128) {
        None => { return Err(CadenceError::BadYear); },
        Some(v) => v as i64,
    };
    let m = match parse_int(&s, p1 + 1, p2, false, 0, u32::MAX as i128) {
        None => { return Err(CadenceError::BadMonth); },
        Some(v) => v as u32,
    };
    let d = match parse_int(&s, p2 + 1, s.len(), false, 0, u32::MAX as i128) {
        None => { return Err(CadenceError::BadDay); },
        Some(v) => v as u32,
    };
    Ok((y, m, d))
}

/// The first `-` in `s` at or after `from`.
fn find_dash(s: &Vec<char>, from: usize) -> (r: Option<usize>)
    requires
        from <= s.len(),
    ensures
        match r {
            Some(p) => index_from(s@, '-', from as int) == Some(p as int) && from <= p < s.len(),
            None => index_from(s@, '-', from as int) is None,
        },
    decreases s.len() - from,
{
    if from >= s.len() {
        None
    } else if s[from] == '-' {
        Some(from)
    } else {
        find_dash(s, from + 1)
    }
}

/// Formats (year, month, day) as "YYYY-MM-DD", zero-padded.
pub fn fmt_ymd(y: i64, m: u32, d: u32) -> (r: String)
    ensures
        r@ == ymd_text(y as int, m as int, d as int),
{
    reveal(ymd_text);
    let mut out: Vec<char> = Vec::new();
    push_padded(&mut out, y, 4);
    out.push('-');
    push_padded(&mut out, m as i64, 2);
    out.push('-');
    push_padded(&mut out, d as i64, 2);
    string_of(&out)
}

/// Days in month `m` of year `y` (proleptic Gregorian; 30 for a month out of range).
#[verifier::spinoff_prover]
pub fn days_in_month(y: i64, m: u32) -> (r: u32)
    ensures
        r == month_length(y as int, m as int),
{
    match m {
        1 | 3 | 5 | 7 | 8 | 10 | 12 => 31,
        4 | 6 | 9 | 11 => 30,
        2 => {
            if (y % 4 == 0 && y % 100 != 0) || y % 400 == 0 {
                29
            } else {
                28
            }
        },
        _ => 30,
    }
}

/// Converts (y, m, d) to its Julian Day Number.
pub fn to_jdn(y: i64, m: u32, d: u32) -> (r: i64)
    requires
        jdn_fits(y as int, m as int, d as int),
    ensures
        r == jdn_of(y as int, m as int, d as int),
{
    reveal(jdn_of);
    reveal(jdn_fits);
    let m = m as i64;
    let d = d as i64;
    let a = (14 - m) / 12;
    let yy = y + 4800 - a;
    let mm = m + 12 * a - 3;
    d + (153 * mm + 2) / 5 + 365 * yy + yy / 4 - yy / 100 + yy / 400 - 32045
}

/// Converts a Julian Day Number to (y, m, d).
pub fn from_jdn(jdn: i64) -> (r: (i64, u32, u32))
    requires
        ymd_of_jdn_fits(jdn as int),
    ensures
        (r.0 as int, r.1 as int, r.2 as int) == ymd_of_jdn(jdn as int),
{
    reveal(ymd_of_jdn);
    reveal(ymd_of_jdn_fits);
    let a = jdn + 32044;
    let b = (4 * a + 3) / 146097;
    let c = a - 146097 * b / 4;
    let dd = (4 * c + 3) / 1461;
    let e = c - 1461 * dd / 4;
    let mm = (5 * e + 2) / 153;
    let day = (e - (153 * mm + 2) / 5 + 1) as u32;
    let month = (mm + 3 - 12 * (mm / 10)) as u32;
    let year = 100 * b + dd - 4800 + mm / 10;
    (year, month, day)
}

/// Adds `n` days to a "YYYY-MM-DD" date string.
pub fn add_days(date: &str, n: i64) -> (r: Result<String, CadenceError>)
    requires
        add_days_outcome(date@, n as int) is Some,
    ensures
        add_days_outcome(date@, n as int) == Some(text_result(r)),
{
    let (y, m, d) = match parse_ymd(date) {
        Ok(t) => t,
        Err(e) => { return Err(e); },
    };
    let jdn = to_jdn(y, m, d) + n;
    let (ny, nm, nd) = from_jdn(jdn);
    Ok(fmt_ymd(ny, nm, nd))
}

/// A string result seen through the characters of the string.
pub open spec fn text_result(r: Result<String, CadenceError>) -> Result<Seq<char>, CadenceError> {
    match r {
        Ok(s) => Ok(s@),
        Err(e) => Err(e),
    }
}

/// The day count of whole years before March 1 of computational year `yy`
/// (years starting in March), as the day-number formula sums it.
pub open spec fn days_before_year(yy: int) -> int {
    365 * yy + yy / 4 - yy / 100 + yy / 400
}

proof fn lemma_days_before_split(b: int, dd: int)
    requires
        b >= 0,
        0 <= dd < 100,
    ensures
        days_before_year(100 * b + dd) == 36524 * b + b / 4 + 365 * dd + dd / 4,
{
    let yy = 100 * b + dd;
    assert(yy / 4 == 25 * b + dd / 4);
    assert(yy / 100 == b);
    assert(yy / 400 == b / 4);
}

/// Decoding a day number `j >= 0` and encoding the result again gives `j`,
/// and the decoded triple is a real calendar date.
pub proof fn lemma_jdn_roundtrip(j: int)
    requires
        j >= 0,
    ensures
        ({
            let (y, m, d) = ymd_of_jdn(j);
            jdn_of(y, m, d) == j && is_calendar_date(y, m, d)
        }),
{
    reveal(jdn_of);
    reveal(ymd_of_jdn);
    let a = j + 32044;
    let b = (4 * a + 3) / 146097;
    assert(tdiv(4 * a + 3, 146097) == b);
    assert(b >= 0);
    assert(146097 * b / 4 == 36524 * b + b / 4);
    assert(tdiv(146097 * b, 4) == 36524 * b + b / 4);
    let c = a - (36524 * b + b / 4);
    assert(0 <= c <= 36524);
    let dd = (4 * c + 3) / 1461;
    assert(tdiv(4 * c + 3, 1461) == dd);
    assert(0 <= dd <= 99);
    assert(1461 * dd / 4 == 365 * dd + dd / 4);
    assert(tdiv(1461 * dd, 4) == 365 * dd + dd / 4);
    let e = c - (365 * dd + dd / 4);
    assert(0 <= e <= 365);
    let mm = (5 * e + 2) / 153;
    assert(tdiv(5 * e + 2, 153) == mm);
    assert(0 <= mm <= 11);
    let q = (153 * mm + 2) / 5;
    assert(tdiv(153 * mm + 2, 5) == q);
    assert(q <= e);
    let day = e - q + 1;
    let month = mm + 3 - 12 * (mm / 10);
    let year = 100 * b + dd - 4800 + mm / 10;
    assert(tdiv(mm, 10) == mm / 10);
    assert(ymd_of_jdn(j) == (year, month, day));
    let ap = tdiv(14 - month, 12);
    assert(ap == mm / 10);
    let yy = year + 4800 - ap;
    assert(yy == 100 * b + dd);
    assert(month + 12 * ap - 3 == mm);
    lemma_days_before_split(b, dd);
    assert(tdiv(yy, 4) == yy / 4);
    assert(tdiv(yy, 100) == yy / 100);
    assert(tdiv(yy, 400) == yy / 400);
    assert(jdn_of(year, month, day) == day + q + days_before_year(yy) - 32045);
    assert(jdn_of(year, month, day) == j);
    if mm == 11 && e == 365 {
        assert(dd % 4 == 3);
        if dd == 99 {
            assert(c == 36524);
            assert(b % 4 == 3);
            assert(year == 100 * (b - 47));
            assert(year % 400 == 0);
        } else {
            assert(year == 100 * (b - 48) + dd + 1);
            assert(year % 4 == 0);
            assert(year % 100 != 0);
        }
        assert(is_leap_year(year));
    }
    assert(1 <= day <= month_length(year, month));
}

/// Encoding a calendar date (of year -4799 or later) as a day number and
/// decoding it again gives the same date.
pub proof fn lemma_jdn_decode_encode(y: int, m: int, d: int)
    requires
        y >= -4799,
        is_calendar_date(y, m, d),
    ensures
        ymd_of_jdn(jdn_of(y, m, d)) == (y, m, d),
{
    reveal(jdn_of);
    reveal(ymd_of_jdn);
    let ap: int = if m <= 2 { 1 } else { 0 };
    assert(tdiv(14 - m, 12) == ap);
    let yy = y + 4800 - ap;
    let mm = m + 12 * ap - 3;
    assert(0 <= mm <= 11);
    let q = (153 * mm + 2) / 5;
    assert(tdiv(153 * mm + 2, 5) == q);
    let e0 = d - 1 + q;
    assert(yy >= 0);
    assert(tdiv(yy, 4) == yy / 4);
    assert(tdiv(yy, 100) == yy / 100);
    assert(tdiv(yy, 400) == yy / 400);
    let bb = yy / 100;
    let d2 = yy % 100;
    assert(yy == 100 * bb + d2);
    lemma_days_before_split(bb, d2);
    let j = jdn_of(y, m, d);
    assert(j == e0 + 1 + days_before_year(yy) - 32045);
    let a = j + 32044;
    let x = 365 * d2 + d2 / 4 + e0;
    assert(a == 36524 * bb + bb / 4 + x);
    assert(0 <= e0 <= 365);
    if e0 == 365 {
        assert(m == 2 && d == 29);
        assert(is_leap_year(y));
        assert(yy % 4 == 3);
        assert(d2 % 4 == 3);
        if d2 == 99 {
            assert(y == 100 * (bb - 47));
            assert(bb % 4 == 3);
        }
    }
    assert(4 * a + 3 == 146097 * bb - bb % 4 + 4 * x + 3);
    let b = (4 * a + 3) / 146097;
    assert(b == bb);
    assert(tdiv(4 * a + 3, 146097) == bb);
    assert(tdiv(146097 * bb, 4) == 36524 * bb + bb / 4);
    let c = a - (36524 * bb + bb / 4);
    assert(c == x);
    assert(4 * c + 3 == 1461 * d2 - d2 % 4 + 4 * e0 + 3);
    assert(tdiv(4 * c + 3, 1461) == d2);
    assert(tdiv(1461 * d2, 4) == 365 * d2 + d2 / 4);
    let e = c - (365 * d2 + d2 / 4);
    assert(e == e0);
    assert(tdiv(5 * e + 2, 153) == mm);
    assert(tdiv(mm, 10) == ap);
    assert(ymd_of_jdn(j) == (y, m, d));
}

/// The calendar date after `(y, m, d)`.
pub open spec fn next_calendar_day(y: int, m: int, d: int) -> (int, int, int) {
    if d < month_length(y, m) {
        (y, m, d + 1)
    } else if m < 12 {
        (y, m + 1, 1)
    } else {
        (y + 1, 1, 1)
    }
}

/// Within a month, day numbers go up one a day.
proof fn lemma_jdn_day_offset(y: int, m: int, d: int)
    requires
        y >= -4799,
        1 <= m <= 12,
    ensures
        jdn_of(y, m, d) == jdn_of(y, m, 1) + d - 1,
{
    reveal(jdn_of);
}

/// The first of month `m + 1` comes `month_length(y, m)` days after the first of `m`.
#[verifier::spinoff_prover]
proof fn lemma_jdn_month_step(y: int, m: int)
    requires
        y >= -4799,
        1 <= m < 12,
    ensures
        jdn_of(y, m + 1, 1) == jdn_of(y, m, 1) + month_length(y, m),
{
    reveal(jdn_of);
    let ap: int = if m <= 2 { 1 } else { 0 };
    assert(tdiv(14 - m, 12) == ap);
    let nap: int = if m + 1 <= 2 { 1 } else { 0 };
    assert(tdiv(14 - (m + 1), 12) == nap);
    let yy = y + 4800 - ap;
    let nyy = y + 4800 - nap;
    assert(yy >= 0 && nyy >= 0);
    assert(tdiv(yy, 4) == yy / 4);
    assert(tdiv(yy, 100) == yy / 100);
    assert(tdiv(yy, 400) == yy / 400);
    assert(tdiv(nyy, 4) == nyy / 4);
    assert(tdiv(nyy, 100) == nyy / 100);
    assert(tdiv(nyy, 400) == nyy / 400);
    if m == 2 {
        assert(nyy == yy + 1);
        assert(days_before_year(nyy) == days_before_year(yy) + 365 + (if is_leap_year(y) { 1int } else { 0 }));
    }
}

/// January 1 of `y + 1` comes a year's length after January 1 of `y`, and one
/// day after December 31 of `y`.
#[verifier::spinoff_prover]
proof fn lemma_jdn_year_step(y: int)
    requires
        y >= -4799,
    ensures
        jdn_of(y + 1, 1, 1) == jdn_of(y, 1, 1) + (if is_leap_year(y) { 366int } else { 365int }),
        jdn_of(y + 1, 1, 1) == jdn_of(y, 12, 31) + 1,
{
    reveal(jdn_of);
    assert(tdiv(13, 12) == 1);
    assert(tdiv(2, 12) == 0);
    let y1 = y + 4799;
    assert(y1 >= 0);
    assert(tdiv(y1, 4) == y1 / 4);
    assert(tdiv(y1, 100) == y1 / 100);
    assert(tdiv(y1, 400) == y1 / 400);
    assert(tdiv(y1 + 1, 4) == (y1 + 1) / 4);
    assert(tdiv(y1 + 1, 100) == (y1 + 1) / 100);
    assert(tdiv(y1 + 1, 400) == (y1 + 1) / 400);
    assert(days_before_year(y1 + 1) == days_before_year(y1) + 365 + (if is_leap_year(y) { 1int } else { 0 }));
}

/// The day after a calendar date is a calendar date whose day number is one more.
pub proof fn lemma_jdn_next_day(y: int, m: int, d: int)
    requires
        y >= -4799,
        is_calendar_date(y, m, d),
    ensures
        ({
            let (ny, nm, nd) = next_calendar_day(y, m, d);
            is_calendar_date(ny, nm, nd) && jdn_of(ny, nm, nd) == jdn_of(y, m, d) + 1
        }),
{
    lemma_jdn_day_offset(y, m, d);
    if d < month_length(y, m) {
        lemma_jdn_day_offset(y, m, d + 1);
    } else if m < 12 {
        lemma_jdn_month_step(y, m);
    } else {
        lemma_jdn_year_step(y);
    }
}

/// Formatting a date with a non-negative year and parsing the text gives the
/// date back.
pub proof fn lemma_ymd_text_parse(y: int, m: int, d: int)
    requires
        0 <= y <= i64::MAX,
        0 <= m <= u32::MAX,
        0 <= d <= u32::MAX,
    ensures
        ymd_parse(ymd_text(y, m, d)) == Ok::<(int, int, int), CadenceError>((y, m, d)),
{
    reveal(ymd_parse);
    reveal(ymd_text);
    let p = padded_int(y, 4);
    let mt = padded_int(m, 2);
    let dt = padded_int(d, 2);
    lemma_zero_pad_decimal(y as nat, 4);
    lemma_zero_pad_decimal(m as nat, 2);
    lemma_zero_pad_decimal(d as nat, 2);
    let t = ymd_text(y, m, d);
    assert(t == p + seq!['-'] + (mt + seq!['-'] + dt));
    assert forall|k: int| 0 <= k < p.len() implies p[k] != '-' by {
        assert(is_digit(p[k]));
    }
    lemma_index_from_concat(p, '-', mt + seq!['-'] + dt, 0);
    let p2 = p + seq!['-'] + mt;
    assert(t == p2 + seq!['-'] + dt);
    assert forall|k: int| p.len() + 1 <= k < p2.len() implies p2[k] != '-' by {
        assert(p2[k] == mt[k - p.len() - 1]);
        assert(is_digit(mt[k - p.len() - 1]));
    }
    lemma_index_from_concat(p2, '-', dt, p.len() + 1int);
    assert(t.subrange(0, p.len() as int) == p);
    assert(t.subrange(p.len() + 1int, p2.len() as int) == mt);
    assert(t.subrange(p2.len() + 1int, t.len() as int) == dt);
    lemma_int_of_digits(p, true, i64::MIN as int, i64::MAX as int);
    lemma_int_of_digits(mt, false, 0, u32::MAX as int);
    lemma_int_of_digits(dt, false, 0, u32::MAX as int);
}

/// The calendar date `k` days after `(y, m, d)`.
pub open spec fn days_later(y: int, m: int, d: int, k: nat) -> (int, int, int)
    decreases k,
{
    if k == 0 {
        (y, m, d)
    } else {
        let (ny, nm, nd) = next_calendar_day(y, m, d);
        days_later(ny, nm, nd, (k - 1) as nat)
    }
}

/// `k` days after a calendar date (year -4799 or later) is a calendar date,
/// in the same year or later, whose day number is `k` more.
pub proof fn lemma_days_later(y: int, m: int, d: int, k: nat)
    requires
        y >= -4799,
        is_calendar_date(y, m, d),
    ensures
        ({
            let (ky, km, kd) = days_later(y, m, d, k);
            is_calendar_date(ky, km, kd) && ky >= y && jdn_of(ky, km, kd) == jdn_of(y, m, d) + k
        }),
    decreases k,
{
    if k > 0 {
        lemma_jdn_next_day(y, m, d);
        let (ny, nm, nd) = next_calendar_day(y, m, d);
        lemma_days_later(ny, nm, nd, (k - 1) as nat);
    }
}

/// Adding one day to the text of a calendar date of year 0 or later gives the
/// text of the next calendar date (months and years wrap).
pub proof fn lemma_add_one_day(s: Seq<char>, y: int, m: int, d: int)
    requires
        ymd_parse(s) == Ok::<(int, int, int), CadenceError>((y, m, d)),
        y >= 0,
        is_calendar_date(y, m, d),
        add_days_outcome(s, 1) is Some,
    ensures
        ({
            let (ny, nm, nd) = next_calendar_day(y, m, d);
            add_days_outcome(s, 1) == Some(Ok::<Seq<char>, CadenceError>(ymd_text(ny, nm, nd)))
                && ny <= i64::MAX
        }),
{
    reveal(ymd_of_jdn);
    reveal(ymd_of_jdn_fits);
    let (ny, nm, nd) = next_calendar_day(y, m, d);
    lemma_jdn_next_day(y, m, d);
    lemma_jdn_decode_encode(ny, nm, nd);
}

/// Day numbers of dates in one month are consecutive, months follow one
/// another, and years follow one another.
pub proof fn lemma_jdn_steps(y: int, m: int, d: int)
    requires
        y >= 0,
        1 <= m <= 12,
    ensures
        jdn_of(y, m, d) == jdn_of(y, m, 1) + d - 1,
        m < 12 ==> jdn_of(y, m + 1, 1) == jdn_of(y, m, 1) + month_length(y, m),
        jdn_of(y + 1, 1, 1) == jdn_of(y, 1, 1) + (if is_leap_year(y) { 366int } else { 365int }),
{
    lemma_jdn_day_offset(y, m, d);
    if m < 12 {
        lemma_jdn_month_step(y, m);
    }
    lemma_jdn_year_step(y);
}

/// Adding `n` days to the text of a calendar date (year 0 or later) and then
/// `-n` days gives the same text back, when the day in between falls in year 0
/// or later and no `i64` arithmetic overflows.
pub proof fn lemma_add_days_undo(y: int, m: int, d: int, n: int)
    requires
        0 <= y <= i64::MAX,
        is_calendar_date(y, m, d),
        jdn_of(y, m, d) + n >= 1721060,
        match add_days_outcome(ymd_text(y, m, d), n) {
            Some(Ok(t)) => add_days_outcome(t, -n) is Some,
            _ => false,
        },
    ensures
        match add_days_outcome(ymd_text(y, m, d), n) {
            Some(Ok(t)) => add_days_outcome(t, -n) == Some(Ok::<Seq<char>, CadenceError>(ymd_text(y, m, d))),
            _ => false,
        },
{
    let s = ymd_text(y, m, d);
    lemma_ymd_text_parse(y, m, d);
    let j = jdn_of(y, m, d);
    let (ny, nm, nd) = ymd_of_jdn(j + n);
    lemma_year_from_jdn_nonneg(j + n);
    assert(ymd_of_jdn_fits(j + n));
    assert(0 <= nm <= u32::MAX && 0 <= nd <= u32::MAX) by {
        reveal(ymd_of_jdn);
    }
    assert(ny <= i64::MAX) by {
        reveal(ymd_of_jdn);
        reveal(ymd_of_jdn_fits);
    }
    lemma_ymd_text_parse(ny, nm, nd);
    lemma_jdn_roundtrip(j + n);
    lemma_jdn_decode_encode(y, m, d);
}

/// Calendar dates before year 0 have day numbers below that of 0000-01-01.
proof fn lemma_jdn_before_year_zero(y: int, m: int, d: int)
    requires
        -4799 <= y < 0,
        is_calendar_date(y, m, d),
    ensures
        jdn_of(y, m, d) < 1721060,
{
    reveal(jdn_of);
    let ap: int = if m <= 2 { 1 } else { 0 };
    assert(tdiv(14 - m, 12) == ap);
    let yy = y + 4800 - ap;
    assert(tdiv(yy, 4) == yy / 4);
    assert(tdiv(yy, 100) == yy / 100);
    assert(tdiv(yy, 400) == yy / 400);
    assert(days_before_year(yy) <= days_before_year(4799 - ap)) by {
        assert(yy <= 4799 - ap);
        assert(yy / 4 <= (4799 - ap) / 4);
        assert(yy / 400 <= (4799 - ap) / 400);
        assert(365 * yy + yy / 4 - yy / 100 <= 365 * (4799 - ap) + (4799 - ap) / 4 - (4799 - ap) / 100);
    }
}

/// A day number on or after that of 0000-01-01 decodes to a year 0 or later.
proof fn lemma_year_from_jdn_nonneg(j: int)
    requires
        j >= 1721060,
    ensures
        ymd_of_jdn(j).0 >= 0,
{
    lemma_jdn_roundtrip(j);
    let (y, m, d) = ymd_of_jdn(j);
    assert(y >= -100) by {
        reveal(ymd_of_jdn);
        let a = j + 32044;
        assert(tdiv(4 * a + 3, 146097) >= 47);
    }
    if y < 0 {
        lemma_jdn_before_year_zero(y, m, d);
    }
}

/// A date with year 0 or later whose day number is at most 5 * 10^17 computes
/// its day number without `i64` overflow, and the number is not negative.
pub proof fn lemma_jdn_fits_below(y: int, m: int, d: int)
    requires
        y >= 0,
        0 <= m <= u32::MAX,
        0 <= d <= u32::MAX,
        jdn_of(y, m, d) <= 500_000_000_000_000_000,
    ensures
        jdn_fits(y, m, d),
        jdn_of(y, m, d) >= 0,
{
    reveal(jdn_of);
    reveal(jdn_fits);
    let a = tdiv(14 - m, 12);
    assert(-357913940 <= a <= 1);
    let yy = y + 4800 - a;
    let mm = m + 12 * a - 3;
    assert(0 <= mm <= 22);
    assert(yy >= 4799);
    assert(tdiv(yy, 4) == yy / 4);
    assert(tdiv(yy, 100) == yy / 100);
    assert(tdiv(yy, 400) == yy / 400);
    assert(0 <= tdiv(153 * mm + 2, 5) <= 700);
}

/// Every date with year 0 to 10^15 (and any `u32` month and day) has a day
/// number between 0 and 4 * 10^17.
pub proof fn lemma_jdn_small_year(y: int, m: int, d: int)
    requires
        0 <= y <= 1_000_000_000_000_000,
        0 <= m <= u32::MAX,
        0 <= d <= u32::MAX,
    ensures
        0 <= jdn_of(y, m, d) <= 400_000_000_000_000_000,
        jdn_fits(y, m, d),
{
    reveal(jdn_of);
    let a = tdiv(14 - m, 12);
    assert(-357913940 <= a <= 1);
    let yy = y + 4800 - a;
    let mm = m + 12 * a - 3;
    assert(0 <= mm <= 22);
    assert(tdiv(yy, 4) == yy / 4);
    assert(tdiv(yy, 100) == yy / 100);
    assert(tdiv(yy, 400) == yy / 400);
    assert(0 <= tdiv(153 * mm + 2, 5) <= 700);
    lemma_jdn_fits_below(y, m, d);
}

/// Decoding a day number from 0 to 5 * 10^17 does not overflow `i64`.
pub proof fn lemma_decode_fits(j: int)
    requires
        0 <= j <= 500_000_000_000_000_000,
    ensures
        ymd_of_jdn_fits(j),
{
    reveal(ymd_of_jdn_fits);
    let a = j + 32044;
    let b = tdiv(4 * a + 3, 146097);
    assert(0 <= b <= 14_000_000_000_000);
    let c = a - tdiv(146097 * b, 4);
    assert(0 <= c <= 36524) by {
        assert(tdiv(146097 * b, 4) == 36524 * b + b / 4);
    }
    let dd = tdiv(4 * c + 3, 1461);
    assert(0 <= dd <= 99);
    let e = c - tdiv(1461 * dd, 4);
    assert(0 <= e <= 365) by {
        assert(tdiv(1461 * dd, 4) == 365 * dd + dd / 4);
    }
    let mm = tdiv(5 * e + 2, 153);
    assert(0 <= mm <= 11);
}

/// The text of a date with a negative year does not parse: its first `-` is
/// its first character, so the year part is empty.
pub proof fn lemma_negative_year_text(y: int, m: int, d: int)
    requires
        y < 0,
    ensures
        ymd_parse(ymd_text(y, m, d)) is Err,
{
    reveal(ymd_parse);
    reveal(ymd_text);
    let t = ymd_text(y, m, d);
    assert(t[0] == '-');
    assert(index_from(t, '-', 0) == Some(0int));
    assert(t.subrange(0, 0).len() == 0);
}

/// A parsed date has a year, month and day in the ranges of its types.
pub proof fn lemma_parse_ranges(s: Seq<char>)
    ensures
        ymd_parse(s) matches Ok((y, m, d)) ==> i64::MIN <= y <= i64::MAX && 0 <= m <= u32::MAX && 0 <= d <= u32::MAX,
{
    reveal(ymd_parse);
}

/// A date with a year of four digits or fewer prints as ten characters, with
/// its separators at positions 4 and 7.
pub proof fn lemma_ymd_text_shape(y: int, m: int, d: int)
    requires
        0 <= y <= 9999,
        is_calendar_date(y, m, d),
    ensures
        ymd_text(y, m, d).len() == 10,
        ymd_text(y, m, d)[4] == '-',
        ymd_text(y, m, d)[7] == '-',
{
    reveal(ymd_text);
    reveal_with_fuel(crate::text::ten_pow, 5);
    crate::text::lemma_decimal_width(y as nat, 4);
    crate::text::lemma_decimal_width(m as nat, 2);
    crate::text::lemma_decimal_width(d as nat, 2);
}

/// The date `k` days after 1970-01-01 has a year from 1970 on, and for fewer
/// than 100000 days, a year before 2300.
pub proof fn lemma_epoch_year_range(k: nat)
    ensures
        ymd_of_jdn(2440588 + k as int).0 >= 1970,
        k < 100_000 ==> ymd_of_jdn(2440588 + k as int).0 < 2300,
{
    assert(jdn_of(1970, 1, 1) == 2440588) by {
        reveal(jdn_of);
    }
    lemma_days_later(1970, 1, 1, k);
    let (ky, km, kd) = days_later(1970, 1, 1, k);
    lemma_jdn_decode_encode(ky, km, kd);
    if k < 100_000 {
        assert(ky < 2300) by {
            reveal(jdn_of);
            let a = tdiv(14 - km, 12);
            let yy = ky + 4800 - a;
            let mm = km + 12 * a - 3;
            assert(0 <= a <= 1);
            assert(0 <= mm);
            assert(tdiv(yy, 4) - tdiv(yy, 100) >= 0);
        }
    }
}

/// The year of a parsed date is never negative: the year part ends before the
/// first `-`, so it cannot start with one.
pub proof fn lemma_parsed_year_nonneg(s: Seq<char>)
    ensures
        ymd_parse(s) matches Ok((y, m, d)) ==> y >= 0,
{
    reveal(ymd_parse);
    if let Some(p1) = index_from(s, '-', 0) {
        crate::text::lemma_index_from_first(s, '-', 0);
        let part = s.subrange(0, p1);
        if part.len() > 0 {
            assert(part[0] == s[0]);
        }
    }
}

/// The decoded year of a day number that decodes without overflow fits in `i64`,
/// and its month and day fit in `u32`.
pub proof fn lemma_decode_year_fits(j: int)
    requires
        ymd_of_jdn_fits(j),
    ensures
        ymd_of_jdn(j).0 <= i64::MAX,
        0 <= ymd_of_jdn(j).1 <= u32::MAX,
        0 <= ymd_of_jdn(j).2 <= u32::MAX,
{
    reveal(ymd_of_jdn);
    reveal(ymd_of_jdn_fits);
}

} // verus!
