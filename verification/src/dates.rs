//! Date-time parsing and calendar arithmetic.
//!
//! A value cell holds either the sentinel `Unknown`, or an abbreviated
//! civil timestamp (`Mon Jan 1, 2024 1:05 PM`, optionally with a trailing
//! numeric UTC offset such as `+0330`). The grammar and the calendar
//! arithmetic are verified here; only the Newfoundland timezone-database
//! offset lookups are trusted, through the `chrono-tz` crate.

use vstd::prelude::*;
use vstd::arithmetic::div_mod::{
    lemma_fundamental_div_mod, lemma_fundamental_div_mod_converse, lemma_mod_multiples_vanish,
};
use crate::text::is_ws;
use crate::text::is_ws_exec;
use crate::text::chars_of;

verus! {

// ---------------------------------------------------------------------------
// Calendar arithmetic
// ---------------------------------------------------------------------------

/// Leap years of the proleptic Gregorian calendar.
pub open spec fn is_leap(y: int) -> bool {
    y % 4 == 0 && (y % 100 != 0 || y % 400 == 0)
}

/// The number of days of month `m` of year `y`.
pub open spec fn days_in_month(y: int, m: int) -> int {
    if m == 2 {
        if is_leap(y) {
            29
        } else {
            28
        }
    } else if m == 4 || m == 6 || m == 9 || m == 11 {
        30
    } else {
        31
    }
}

/// Days of year `y` before the first day of month `m`.
pub open spec fn days_before_month(y: int, m: int) -> int {
    let leap: int = if is_leap(y) {
        1
    } else {
        0
    };
    if m == 1 {
        0
    } else if m == 2 {
        31
    } else if m == 3 {
        59 + leap
    } else if m == 4 {
        90 + leap
    } else if m == 5 {
        120 + leap
    } else if m == 6 {
        151 + leap
    } else if m == 7 {
        181 + leap
    } else if m == 8 {
        212 + leap
    } else if m == 9 {
        243 + leap
    } else if m == 10 {
        273 + leap
    } else if m == 11 {
        304 + leap
    } else {
        334 + leap
    }
}

/// Days from the epoch day (1970-01-01) to the first day of year `y`
/// (negative for earlier years).
pub open spec fn days_before_year(y: int) -> int {
    let t = y - 1;
    365 * t + t / 4 - t / 100 + t / 400 - 719162
}

/// The day number of a civil date, with 1970-01-01 as day zero.
pub open spec fn days_from_civil(y: int, m: int, d: int) -> int {
    days_before_year(y) + days_before_month(y, m) + d - 1
}

/// The day of the week of a civil date: 0 is Sunday, 6 is Saturday.
pub open spec fn weekday_of(y: int, m: int, d: int) -> int {
    (days_from_civil(y, m, d) + 4) % 7
}

/// Seconds from the epoch instant to a civil time read as UTC.
pub open spec fn civil_secs(y: int, m: int, d: int, h: int, mi: int) -> int {
    days_from_civil(y, m, d) * 86400 + h * 3600 + mi * 60
}

/// Stepping a numerator down by one lowers a quotient exactly at multiples.
proof fn lemma_div_step(n: int, k: int)
    requires
        n >= 1,
        k >= 1,
    ensures
        n / k - (n - 1) / k == if n % k == 0 {
            1int
        } else {
            0int
        },
{
    lemma_fundamental_div_mod(n, k);
    vstd::arithmetic::div_mod::lemma_mod_bound(n, k);
    let q = n / k;
    let r = n % k;
    assert(n == k * q + r);
    if r == 0 {
        assert((q - 1) * k + (k - 1) == k * q - 1) by (nonlinear_arith);
        lemma_fundamental_div_mod_converse(n - 1, k, q - 1, k - 1);
    } else {
        assert(q * k + (r - 1) == k * q + r - 1) by (nonlinear_arith);
        lemma_fundamental_div_mod_converse(n - 1, k, q, r - 1);
    }
}

/// A year divisible by 400 is divisible by 100; by 100, by 4.
proof fn lemma_mod_chain(y: int)
    requires
        y >= 1,
    ensures
        y % 400 == 0 ==> y % 100 == 0,
        y % 100 == 0 ==> y % 4 == 0,
{
    if y % 400 == 0 {
        lemma_fundamental_div_mod(y, 400);
        lemma_fundamental_div_mod_converse(y, 100, 4 * (y / 400), 0);
    }
    if y % 100 == 0 {
        lemma_fundamental_div_mod(y, 100);
        lemma_fundamental_div_mod_converse(y, 4, 25 * (y / 100), 0);
    }
}

/// One civil year of days separates consecutive New Years.
pub proof fn lemma_year_step(y: int)
    requires
        y >= 1,
    ensures
        days_before_year(y + 1) == days_before_year(y) + 365 + if is_leap(y) {
            1int
        } else {
            0int
        },
{
    lemma_div_step(y, 4);
    lemma_div_step(y, 100);
    lemma_div_step(y, 400);
    lemma_mod_chain(y);
}

/// One civil month of days separates consecutive firsts of the month.
pub proof fn lemma_month_step(y: int, m: int)
    requires
        1 <= m <= 11,
    ensures
        days_before_month(y, m + 1) == days_before_month(y, m) + days_in_month(y, m),
{
}

/// Exec counterpart of `days_before_month`.
fn days_before_month_exec(leap: bool, m: u8) -> (r: u16)
    requires
        1 <= m <= 12,
    ensures
        forall|y: int| is_leap(y) == leap ==> r as int == days_before_month(y, m as int),
{
    let base: u16 = if m == 1 {
        0
    } else if m == 2 {
        31
    } else if m == 3 {
        59
    } else if m == 4 {
        90
    } else if m == 5 {
        120
    } else if m == 6 {
        151
    } else if m == 7 {
        181
    } else if m == 8 {
        212
    } else if m == 9 {
        243
    } else if m == 10 {
        273
    } else if m == 11 {
        304
    } else {
        334
    };
    if m >= 3 && leap {
        base + 1
    } else {
        base
    }
}

pub fn is_leap_exec(y: i32) -> (r: bool)
    requires
        1 <= y <= 10000,
    ensures
        r == is_leap(y as int),
{
    (y % 4 == 0) && (y % 100 != 0 || y % 400 == 0)
}

pub fn days_in_month_exec(y: i32, m: u8) -> (r: u8)
    requires
        1 <= y <= 10000,
        1 <= m <= 12,
    ensures
        r as int == days_in_month(y as int, m as int),
{
    if m == 2 {
        if is_leap_exec(y) {
            29
        } else {
            28
        }
    } else if m == 4 || m == 6 || m == 9 || m == 11 {
        30
    } else {
        31
    }
}

/// Exec counterpart of `days_from_civil`.
pub fn days_from_civil_exec(y: i32, m: u8, d: u8) -> (r: i64)
    requires
        1 <= y <= 10000,
        1 <= m <= 12,
        1 <= d <= 31,
    ensures
        r as int == days_from_civil(y as int, m as int, d as int),
        -719163 < r < 4000000,
{
    let t: u64 = (y - 1) as u64;
    let before_year: u64 = 365 * t + t / 4 - t / 100 + t / 400;
    let leap = is_leap_exec(y);
    let dbm = days_before_month_exec(leap, m);
    before_year as i64 - 719162 + dbm as i64 + d as i64 - 1
}

/// The civil date of a day number, found by scanning years and then months
/// against the verified `days_from_civil`.
pub fn civil_from_days_exec(z: i64) -> (r: (i32, u8, u8))
    requires
        days_from_civil(1, 1, 1) <= z <= days_from_civil(9999, 12, 31),
    ensures
        1 <= r.0 <= 9999,
        1 <= r.1 <= 12,
        1 <= r.2 as int <= days_in_month(r.0 as int, r.1 as int),
        days_from_civil(r.0 as int, r.1 as int, r.2 as int) == z,
{
    let mut y: i32 = 1;
    while y < 9999 && days_from_civil_exec(y + 1, 1, 1) <= z
        invariant
            1 <= y <= 9999,
            days_from_civil(y as int, 1, 1) <= z,
        decreases 9999 - y,
    {
        y = y + 1;
    }
    proof {
        if y == 9999 {
            lemma_year_step(9999);
            assert(!is_leap(9999));
            assert(days_from_civil(9999, 12, 31) < days_from_civil(10000, 1, 1));
        }
        assert(z < days_from_civil(y as int + 1, 1, 1));
    }
    let mut m: u8 = 1;
    while m < 12 && days_from_civil_exec(y, m + 1, 1) <= z
        invariant
            1 <= y <= 9999,
            1 <= m <= 12,
            days_from_civil(y as int, m as int, 1) <= z,
            z < days_from_civil(y as int + 1, 1, 1),
        decreases 12 - m,
    {
        m = m + 1;
    }
    proof {
        if m < 12 {
            lemma_month_step(y as int, m as int);
            assert(z < days_from_civil(y as int, m as int, 1) + days_in_month(
                y as int,
                m as int,
            ));
        } else {
            lemma_year_step(y as int);
            assert(days_from_civil(y as int + 1, 1, 1) == days_from_civil(y as int, 12, 1) + 31);
        }
    }
    let base = days_from_civil_exec(y, m, 1);
    let d: u8 = (z - base + 1) as u8;
    (y, m, d)
}

/// Exec counterpart of `civil_secs`.
pub fn civil_secs_exec(y: i32, m: u8, d: u8, h: u8, mi: u8) -> (r: i64)
    requires
        1 <= y <= 9999,
        1 <= m <= 12,
        1 <= d <= 31,
        h <= 23,
        mi <= 59,
    ensures
        r as int == civil_secs(y as int, m as int, d as int, h as int, mi as int),
        -70_000_000_000 < r < 350_000_000_000,
{
    let days = days_from_civil_exec(y, m, d);
    days * 86400 + h as i64 * 3600 + mi as i64 * 60
}

/// Exec counterpart of `weekday_of`.
pub fn weekday_of_exec(y: i32, m: u8, d: u8) -> (r: u8)
    requires
        1 <= y <= 9999,
        1 <= m <= 12,
        1 <= d <= 31,
    ensures
        r as int == weekday_of(y as int, m as int, d as int),
{
    let days = days_from_civil_exec(y, m, d);
    let shifted: u64 = (days + 719170) as u64;
    let r = (shifted % 7) as u8;
    proof {
        lemma_mod_multiples_vanish(
            102738,
            days_from_civil(y as int, m as int, d as int) + 4,
            7,
        );
    }
    r
}

// ---------------------------------------------------------------------------
// The timestamp grammar
// ---------------------------------------------------------------------------

/// The first position at or after `i` whose character is not whitespace.
pub open spec fn skip_ws_from(s: Seq<char>, i: int) -> int
    decreases s.len() - i,
    when 0 <= i <= s.len()
{
    if i < s.len() && is_ws(s[i]) {
        skip_ws_from(s, i + 1)
    } else {
        i
    }
}

fn skip_ws_exec(v: &Vec<char>, i: usize) -> (r: usize)
    requires
        i <= v.len(),
    ensures
        i <= r <= v.len(),
        r as int == skip_ws_from(v@, i as int),
{
    let mut j = i;
    while j < v.len() && is_ws_exec(v[j])
        invariant
            i <= j <= v.len(),
            skip_ws_from(v@, i as int) == skip_ws_from(v@, j as int),
        decreases v.len() - j,
    {
        j = j + 1;
    }
    j
}

/// At least one whitespace character at `i`, then any more: the position
/// after the run, or None where `i` is not whitespace.
pub open spec fn ws1_from(s: Seq<char>, i: int) -> Option<int> {
    if 0 <= i < s.len() && is_ws(s[i]) {
        Some(skip_ws_from(s, i))
    } else {
        None
    }
}

fn ws1_exec(v: &Vec<char>, i: usize) -> (r: Option<usize>)
    requires
        i <= v.len(),
    ensures
        ws1_from(v@, i as int) == (match r {
            Some(j) => Some(j as int),
            None => None::<int>,
        }),
        r matches Some(j) ==> i <= j <= v.len(),
{
    if i < v.len() && is_ws_exec(v[i]) {
        Some(skip_ws_exec(v, i))
    } else {
        None
    }
}

pub open spec fn is_digit(c: char) -> bool {
    48 <= c as u32 <= 57
}

pub open spec fn digit_val(c: char) -> int {
    c as u32 - 48
}

/// Three fixed characters at `i`.
pub open spec fn name3_at(s: Seq<char>, i: int, a: char, b: char, c: char) -> bool {
    i + 3 <= s.len() && s[i] == a && s[i + 1] == b && s[i + 2] == c
}

fn name3_exec(v: &Vec<char>, i: usize, a: char, b: char, c: char) -> (r: bool)
    requires
        i <= v.len(),
    ensures
        r == name3_at(v@, i as int, a, b, c),
{
    v.len() - i >= 3 && v[i] == a && v[i + 1] == b && v[i + 2] == c
}

/// An abbreviated weekday name at `i`: its index, 0 for Sunday.
pub open spec fn weekday_at(s: Seq<char>, i: int) -> Option<int> {
    if name3_at(s, i, 'S', 'u', 'n') {
        Some(0int)
    } else if name3_at(s, i, 'M', 'o', 'n') {
        Some(1int)
    } else if name3_at(s, i, 'T', 'u', 'e') {
        Some(2int)
    } else if name3_at(s, i, 'W', 'e', 'd') {
        Some(3int)
    } else if name3_at(s, i, 'T', 'h', 'u') {
        Some(4int)
    } else if name3_at(s, i, 'F', 'r', 'i') {
        Some(5int)
    } else if name3_at(s, i, 'S', 'a', 't') {
        Some(6int)
    } else {
        None
    }
}

fn weekday_exec(v: &Vec<char>, i: usize) -> (r: Option<u8>)
    requires
        i <= v.len(),
    ensures
        weekday_at(v@, i as int) == (match r {
            Some(k) => Some(k as int),
            None => None::<int>,
        }),
{
    if name3_exec(v, i, 'S', 'u', 'n') {
        Some(0)
    } else if name3_exec(v, i, 'M', 'o', 'n') {
        Some(1)
    } else if name3_exec(v, i, 'T', 'u', 'e') {
        Some(2)
    } else if name3_exec(v, i, 'W', 'e', 'd') {
        Some(3)
    } else if name3_exec(v, i, 'T', 'h', 'u') {
        Some(4)
    } else if name3_exec(v, i, 'F', 'r', 'i') {
        Some(5)
    } else if name3_exec(v, i, 'S', 'a', 't') {
        Some(6)
    } else {
        None
    }
}

/// An abbreviated month name at `i`: its number, 1 for January.
pub open spec fn month_at(s: Seq<char>, i: int) -> Option<int> {
    if name3_at(s, i, 'J', 'a', 'n') {
        Some(1int)
    } else if name3_at(s, i, 'F', 'e', 'b') {
        Some(2int)
    } else if name3_at(s, i, 'M', 'a', 'r') {
        Some(3int)
    } else if name3_at(s, i, 'A', 'p', 'r') {
        Some(4int)
    } else if name3_at(s, i, 'M', 'a', 'y') {
        Some(5int)
    } else if name3_at(s, i, 'J', 'u', 'n') {
        Some(6int)
    } else if name3_at(s, i, 'J', 'u', 'l') {
        Some(7int)
    } else if name3_at(s, i, 'A', 'u', 'g') {
        Some(8int)
    } else if name3_at(s, i, 'S', 'e', 'p') {
        Some(9int)
    } else if name3_at(s, i, 'O', 'c', 't') {
        Some(10int)
    } else if name3_at(s, i, 'N', 'o', 'v') {
        Some(11int)
    } else if name3_at(s, i, 'D', 'e', 'c') {
        Some(12int)
    } else {
        None
    }
}

fn month_exec(v: &Vec<char>, i: usize) -> (r: Option<u8>)
    requires
        i <= v.len(),
    ensures
        month_at(v@, i as int) == (match r {
            Some(k) => Some(k as int),
            None => None::<int>,
        }),
{
    if name3_exec(v, i, 'J', 'a', 'n') {
        Some(1)
    } else if name3_exec(v, i, 'F', 'e', 'b') {
        Some(2)
    } else if name3_exec(v, i, 'M', 'a', 'r') {
        Some(3)
    } else if name3_exec(v, i, 'A', 'p', 'r') {
        Some(4)
    } else if name3_exec(v, i, 'M', 'a', 'y') {
        Some(5)
    } else if name3_exec(v, i, 'J', 'u', 'n') {
        Some(6)
    } else if name3_exec(v, i, 'J', 'u', 'l') {
        Some(7)
    } else if name3_exec(v, i, 'A', 'u', 'g') {
        Some(8)
    } else if name3_exec(v, i, 'S', 'e', 'p') {
        Some(9)
    } else if name3_exec(v, i, 'O', 'c', 't') {
        Some(10)
    } else if name3_exec(v, i, 'N', 'o', 'v') {
        Some(11)
    } else if name3_exec(v, i, 'D', 'e', 'c') {
        Some(12)
    } else {
        None
    }
}

/// One or two digits at `i`: the value and the position after them.
pub open spec fn num2_at(s: Seq<char>, i: int) -> Option<(int, int)> {
    if 0 <= i < s.len() && is_digit(s[i]) {
        if i + 1 < s.len() && is_digit(s[i + 1]) {
            Some((digit_val(s[i]) * 10 + digit_val(s[i + 1]), i + 2))
        } else {
            Some((digit_val(s[i]), i + 1))
        }
    } else {
        None
    }
}

fn is_digit_exec(c: char) -> (r: bool)
    ensures
        r == is_digit(c),
{
    48 <= c as u32 && c as u32 <= 57
}

fn digit_val_exec(c: char) -> (r: u8)
    requires
        is_digit(c),
    ensures
        r as int == digit_val(c),
{
    (c as u32 - 48) as u8
}

fn num2_exec(v: &Vec<char>, i: usize) -> (r: Option<(u8, usize)>)
    requires
        i <= v.len(),
    ensures
        num2_at(v@, i as int) == (match r {
            Some((n, j)) => Some((n as int, j as int)),
            None => None::<(int, int)>,
        }),
        r matches Some((n, j)) ==> i < j <= v.len() && n < 100,
{
    if i < v.len() && is_digit_exec(v[i]) {
        if i + 1 < v.len() && is_digit_exec(v[i + 1]) {
            Some((digit_val_exec(v[i]) * 10 + digit_val_exec(v[i + 1]), i + 2))
        } else {
            Some((digit_val_exec(v[i]), i + 1))
        }
    } else {
        None
    }
}

/// Exactly two digits at `i`: their value.
pub open spec fn exact2_at(s: Seq<char>, i: int) -> Option<int> {
    if 0 <= i && i + 2 <= s.len() && is_digit(s[i]) && is_digit(s[i + 1]) {
        Some(digit_val(s[i]) * 10 + digit_val(s[i + 1]))
    } else {
        None
    }
}

fn exact2_exec(v: &Vec<char>, i: usize) -> (r: Option<u8>)
    requires
        i <= v.len(),
    ensures
        exact2_at(v@, i as int) == (match r {
            Some(n) => Some(n as int),
            None => None::<int>,
        }),
        r matches Some(n) ==> n < 100 && i + 2 <= v.len(),
{
    if v.len() - i >= 2 && is_digit_exec(v[i]) && is_digit_exec(v[i + 1]) {
        Some(digit_val_exec(v[i]) * 10 + digit_val_exec(v[i + 1]))
    } else {
        None
    }
}

/// Exactly four digits at `i`: their value.
pub open spec fn exact4_at(s: Seq<char>, i: int) -> Option<int> {
    if 0 <= i && i + 4 <= s.len() && is_digit(s[i]) && is_digit(s[i + 1]) && is_digit(s[i + 2])
        && is_digit(s[i + 3]) {
        Some(
            digit_val(s[i]) * 1000 + digit_val(s[i + 1]) * 100 + digit_val(s[i + 2]) * 10
                + digit_val(s[i + 3]),
        )
    } else {
        None
    }
}

fn exact4_exec(v: &Vec<char>, i: usize) -> (r: Option<u16>)
    requires
        i <= v.len(),
    ensures
        exact4_at(v@, i as int) == (match r {
            Some(n) => Some(n as int),
            None => None::<int>,
        }),
        r matches Some(n) ==> n < 10000 && i + 4 <= v.len(),
{
    if v.len() - i >= 4 && is_digit_exec(v[i]) && is_digit_exec(v[i + 1]) && is_digit_exec(
        v[i + 2],
    ) && is_digit_exec(v[i + 3]) {
        Some(
            digit_val_exec(v[i]) as u16 * 1000 + digit_val_exec(v[i + 1]) as u16 * 100
                + digit_val_exec(v[i + 2]) as u16 * 10 + digit_val_exec(v[i + 3]) as u16,
        )
    } else {
        None
    }
}

/// An AM or PM marker at `i`: whether it is PM.
pub open spec fn ampm_at(s: Seq<char>, i: int) -> Option<bool> {
    if 0 <= i && i + 2 <= s.len() && s[i + 1] == 'M' {
        if s[i] == 'A' {
            Some(false)
        } else if s[i] == 'P' {
            Some(true)
        } else {
            None
        }
    } else {
        None
    }
}

fn ampm_exec(v: &Vec<char>, i: usize) -> (r: Option<bool>)
    requires
        i <= v.len(),
    ensures
        r == ampm_at(v@, i as int),
{
    if v.len() - i >= 2 && v[i + 1] == 'M' {
        if v[i] == 'A' {
            Some(false)
        } else if v[i] == 'P' {
            Some(true)
        } else {
            None
        }
    } else {
        None
    }
}

/// A numeric UTC offset at `i`, a sign and four digits: the offset in
/// seconds east and the position after it. A minute part of 60 or more is
/// rejected.
pub open spec fn offset_at(s: Seq<char>, i: int) -> Option<(int, int)> {
    if 0 <= i < s.len() && (s[i] == '+' || s[i] == '-') {
        match exact2_at(s, i + 1) {
            None => None,
            Some(hh) => match exact2_at(s, i + 3) {
                None => None,
                Some(mm) => if mm < 60 {
                    Some(
                        (
                            (if s[i] == '-' {
                                -1int
                            } else {
                                1int
                            }) * (hh * 3600 + mm * 60),
                            i + 5,
                        ),
                    )
                } else {
                    None
                },
            },
        }
    } else {
        None
    }
}

fn offset_exec(v: &Vec<char>, i: usize) -> (r: Option<(i32, usize)>)
    requires
        i <= v.len(),
    ensures
        offset_at(v@, i as int) == (match r {
            Some((o, j)) => Some((o as int, j as int)),
            None => None::<(int, int)>,
        }),
        r matches Some((o, j)) ==> i < j <= v.len() && -360000 < o < 360000,
{
    if i < v.len() && (v[i] == '+' || v[i] == '-') {
        match exact2_exec(v, i + 1) {
            None => None,
            Some(hh) => match exact2_exec(v, i + 3) {
                None => None,
                Some(mm) => if mm < 60 {
                    let mag: i32 = hh as i32 * 3600 + mm as i32 * 60;
                    let o: i32 = if v[i] == '-' {
                        -mag
                    } else {
                        mag
                    };
                    proof {
                        assert(exact2_at(v@, i as int + 1) == Some(hh as int));
                        assert(exact2_at(v@, i as int + 3) == Some(mm as int));
                        let x: int = hh as int * 3600 + mm as int * 60;
                        if v@[i as int] == '-' {
                            assert((-1int) * x == -x) by (nonlinear_arith);
                        } else {
                            assert((1int) * x == x) by (nonlinear_arith);
                        }
                        assert(o as int == (if v@[i as int] == '-' {
                            -1int
                        } else {
                            1int
                        }) * (hh as int * 3600 + mm as int * 60));
                    }
                    Some((o, i + 5))
                } else {
                    None
                },
            },
        }
    } else {
        None
    }
}

/// The sentinel word `Unknown` at `i`.
pub open spec fn unknown_at(s: Seq<char>, i: int) -> bool {
    i + 7 <= s.len() && s[i] == 'U' && s[i + 1] == 'n' && s[i + 2] == 'k' && s[i + 3] == 'n' && s[i
        + 4] == 'o' && s[i + 5] == 'w' && s[i + 6] == 'n'
}

/// A value that is exactly the sentinel `Unknown`, surrounded by any
/// whitespace: it means "intentionally absent", not a parse failure.
pub open spec fn is_unknown_text(s: Seq<char>) -> bool {
    let i = skip_ws_from(s, 0);
    &&& unknown_at(s, i)
    &&& skip_ws_from(s, i + 7) == s.len()
}

pub fn is_unknown_exec(v: &Vec<char>) -> (r: bool)
    ensures
        r == is_unknown_text(v@),
{
    let i = skip_ws_exec(v, 0);
    if v.len() - i >= 7 && v[i] == 'U' && v[i + 1] == 'n' && v[i + 2] == 'k' && v[i + 3] == 'n'
        && v[i + 4] == 'o' && v[i + 5] == 'w' && v[i + 6] == 'n' {
        skip_ws_exec(v, i + 7) == v.len()
    } else {
        false
    }
}

/// A parsed timestamp, before semantic validation.
pub struct RawFields {
    pub wd: int,
    pub month: int,
    pub day: int,
    pub year: int,
    pub hour12: int,
    pub minute: int,
    pub pm: bool,
    pub offset: Option<int>,
}

/// The whole timestamp grammar: optional whitespace, weekday name, month
/// name, day, comma, year, 12-hour time, AM/PM marker, then either the end
/// or a numeric UTC offset, with whitespace runs between tokens.
pub open spec fn spec_parse_stamp(s: Seq<char>) -> Option<RawFields> {
    let i0 = skip_ws_from(s, 0);
    match weekday_at(s, i0) {
        None => None,
        Some(wd) => match ws1_from(s, i0 + 3) {
            None => None,
            Some(i1) => match month_at(s, i1) {
                None => None,
                Some(month) => match ws1_from(s, i1 + 3) {
                    None => None,
                    Some(i2) => match num2_at(s, i2) {
                        None => None,
                        Some((day, i3)) => if !(i3 < s.len() && s[i3] == ',') {
                            None
                        } else {
                            match ws1_from(s, i3 + 1) {
                                None => None,
                                Some(i4) => match exact4_at(s, i4) {
                                    None => None,
                                    Some(year) => match ws1_from(s, i4 + 4) {
                                        None => None,
                                        Some(i5) => match num2_at(s, i5) {
                                            None => None,
                                            Some((hour12, i6)) => if !(i6 < s.len() && s[i6]
                                                == ':') {
                                                None
                                            } else {
                                                match exact2_at(s, i6 + 1) {
                                                    None => None,
                                                    Some(minute) => match ws1_from(s, i6 + 3) {
                                                        None => None,
                                                        Some(i7) => match ampm_at(s, i7) {
                                                            None => None,
                                                            Some(pm) => spec_parse_tail(
                                                                s,
                                                                i7 + 2,
                                                                RawFields {
                                                                    wd,
                                                                    month,
                                                                    day,
                                                                    year,
                                                                    hour12,
                                                                    minute,
                                                                    pm,
                                                                    offset: None,
                                                                },
                                                            ),
                                                        },
                                                    },
                                                }
                                            },
                                        },
                                    },
                                },
                            }
                        },
                    },
                },
            },
        },
    }
}

/// After the AM/PM marker: either only whitespace to the end, or a
/// whitespace run, a numeric UTC offset, and whitespace to the end.
pub open spec fn spec_parse_tail(s: Seq<char>, i8: int, f: RawFields) -> Option<RawFields> {
    let j = skip_ws_from(s, i8);
    if j == s.len() {
        Some(f)
    } else if j > i8 {
        match offset_at(s, j) {
            None => None,
            Some((off, i9)) => if skip_ws_from(s, i9) == s.len() {
                Some(RawFields { offset: Some(off), ..f })
            } else {
                None
            },
        }
    } else {
        None
    }
}

/// A parsed timestamp as executable data.
#[derive(Clone, Copy, PartialEq, Eq, Structural, Debug)]
pub struct Stamp {
    pub wd: u8,
    pub month: u8,
    pub day: u8,
    pub year: u16,
    pub hour12: u8,
    pub minute: u8,
    pub pm: bool,
    pub offset: Option<i32>,
}

pub open spec fn stamp_view(st: Stamp) -> RawFields {
    RawFields {
        wd: st.wd as int,
        month: st.month as int,
        day: st.day as int,
        year: st.year as int,
        hour12: st.hour12 as int,
        minute: st.minute as int,
        pm: st.pm,
        offset: match st.offset {
            Some(o) => Some(o as int),
            None => None,
        },
    }
}

pub fn parse_stamp_exec(v: &Vec<char>) -> (r: Option<Stamp>)
    ensures
        spec_parse_stamp(v@) == (match r {
            Some(st) => Some(stamp_view(st)),
            None => None::<RawFields>,
        }),
{
    let i0 = skip_ws_exec(v, 0);
    let wd = match weekday_exec(v, i0) {
        Some(w) => w,
        None => { return None; },
    };
    proof {
        assert(i0 + 3 <= v.len());
    }
    let i1 = match ws1_exec(v, i0 + 3) {
        Some(j) => j,
        None => { return None; },
    };
    let month = match month_exec(v, i1) {
        Some(m) => m,
        None => { return None; },
    };
    proof {
        assert(i1 + 3 <= v.len());
    }
    let i2 = match ws1_exec(v, i1 + 3) {
        Some(j) => j,
        None => { return None; },
    };
    let (day, i3) = match num2_exec(v, i2) {
        Some(p) => p,
        None => { return None; },
    };
    if !(i3 < v.len() && v[i3] == ',') {
        return None;
    }
    let i4 = match ws1_exec(v, i3 + 1) {
        Some(j) => j,
        None => { return None; },
    };
    let year = match exact4_exec(v, i4) {
        Some(y) => y,
        None => { return None; },
    };
    let i5 = match ws1_exec(v, i4 + 4) {
        Some(j) => j,
        None => { return None; },
    };
    let (hour12, i6) = match num2_exec(v, i5) {
        Some(p) => p,
        None => { return None; },
    };
    if !(i6 < v.len() && v[i6] == ':') {
        return None;
    }
    let minute = match exact2_exec(v, i6 + 1) {
        Some(m) => m,
        None => { return None; },
    };
    let i7 = match ws1_exec(v, i6 + 3) {
        Some(j) => j,
        None => { return None; },
    };
    let pm = match ampm_exec(v, i7) {
        Some(p) => p,
        None => { return None; },
    };
    proof {
        assert(i7 + 2 <= v.len());
    }
    let st = Stamp { wd, month, day, year, hour12, minute, pm, offset: None };
    let i8 = i7 + 2;
    let j = skip_ws_exec(v, i8);
    if j == v.len() {
        Some(st)
    } else if j > i8 {
        match offset_exec(v, j) {
            None => None,
            Some((off, i9)) => if skip_ws_exec(v, i9) == v.len() {
                Some(Stamp { offset: Some(off), ..st })
            } else {
                None
            },
        }
    } else {
        None
    }
}

/// The 24-hour clock hour of a 12-hour clock reading.
pub open spec fn hour24(h12: int, pm: bool) -> int {
    if pm {
        if h12 == 12 {
            12
        } else {
            h12 + 12
        }
    } else {
        if h12 == 12 {
            0
        } else {
            h12
        }
    }
}

fn hour24_exec(h12: u8, pm: bool) -> (r: u8)
    requires
        1 <= h12 <= 12,
    ensures
        r as int == hour24(h12 as int, pm),
        r <= 23,
{
    if pm {
        if h12 == 12 {
            12
        } else {
            h12 + 12
        }
    } else {
        if h12 == 12 {
            0
        } else {
            h12
        }
    }
}

/// Semantic validity of a parsed timestamp: ranges, a real calendar day,
/// a weekday name that agrees with the date, a sane explicit offset.
pub open spec fn fields_valid(f: RawFields) -> bool {
    &&& 1 <= f.year <= 9999
    &&& 1 <= f.month <= 12
    &&& 1 <= f.day <= days_in_month(f.year, f.month)
    &&& 1 <= f.hour12 <= 12
    &&& 0 <= f.minute <= 59
    &&& f.wd == weekday_of(f.year, f.month, f.day)
    &&& (match f.offset {
        Some(o) => -86400 < o < 86400 && o % 60 == 0,
        None => true,
    })
}

fn fields_valid_exec(st: &Stamp) -> (r: bool)
    ensures
        r == fields_valid(stamp_view(*st)),
{
    if !(1 <= st.year && st.year <= 9999 && 1 <= st.month && st.month <= 12 && 1 <= st.day
        && 1 <= st.hour12 && st.hour12 <= 12 && st.minute <= 59) {
        return false;
    }
    if st.day > days_in_month_exec(st.year as i32, st.month) {
        return false;
    }
    if st.wd != weekday_of_exec(st.year as i32, st.month, st.day) {
        return false;
    }
    match st.offset {
        Some(o) => {
            if -86400 < o && o < 86400 {
                let sh: u32 = (o + 86400) as u32;
                proof {
                    lemma_mod_multiples_vanish(1440, o as int, 60);
                }
                sh % 60 == 0
            } else {
                false
            }
        },
        None => true,
    }
}

// ---------------------------------------------------------------------------
// Newfoundland civil time
// ---------------------------------------------------------------------------

/// An absolute point in time, held as Newfoundland civil clock fields
/// together with the UTC offset, in minutes east, that Newfoundland had at
/// that instant.
#[derive(Clone, Copy, PartialEq, Eq, Structural, Debug)]
pub struct ZonedTime {
    pub year: i32,
    pub month: u8,
    pub day: u8,
    pub hour: u8,
    pub minute: u8,
    pub offset_minutes: i32,
}

/// Well-formedness: a real calendar date and clock reading, and an offset
/// strictly within one day.
pub open spec fn zt_wf(t: ZonedTime) -> bool {
    &&& 1 <= t.year <= 9999
    &&& 1 <= t.month <= 12
    &&& 1 <= t.day as int <= days_in_month(t.year as int, t.month as int)
    &&& t.hour <= 23
    &&& t.minute <= 59
    &&& -1440 < t.offset_minutes < 1440
}

/// The instant a `ZonedTime` denotes, in seconds since the epoch.
pub open spec fn zt_epoch(t: ZonedTime) -> int {
    civil_secs(t.year as int, t.month as int, t.day as int, t.hour as int, t.minute as int) - (
    t.offset_minutes as int) * 60
}

#[derive(Clone, Copy, PartialEq, Eq, Structural, Debug)]
pub enum TimeError {
    /// The text matches neither the sentinel nor the timestamp grammar, or
    /// names an impossible date or clock reading.
    BadFormat,
    /// A daylight-saving transition skips or repeats this local time.
    UnmappableLocalTime,
    /// The timezone database gave an offset that is not a whole number of
    /// minutes.
    SubminuteOffset,
    /// The converted civil time falls outside the supported years.
    OutOfRange,
}

/// The UTC offset, in seconds east, of the Newfoundland zone at a local
/// civil time, or None where daylight-saving transitions skip or repeat it.
pub uninterp spec fn nl_offset_at_local(
    year: int,
    month: int,
    day: int,
    hour: int,
    minute: int,
) -> Option<int>;

/// The UTC offset, in seconds east, of the Newfoundland zone at an instant.
pub uninterp spec fn nl_offset_at_utc(epoch_secs: int) -> int;

/// Relies on `chrono_tz::Canada::Newfoundland` together with chrono's
/// `TimeZone::from_local_datetime`: the UTC offset the timezone database
/// assigns this Newfoundland civil time, or `None` where a daylight-saving
/// transition skips or repeats it. The database makes the result a function
/// of the civil fields alone; chrono's `FixedOffset` keeps every offset
/// strictly within one day of UTC.
#[verifier::external_body]
fn newfoundland_offset_at_local(year: i32, month: u8, day: u8, hour: u8, minute: u8) -> (r: Option<
    i32,
>)
    requires
        1 <= year <= 9999,
        1 <= month <= 12,
        1 <= day as int <= days_in_month(year as int, month as int),
        hour <= 23,
        minute <= 59,
    ensures
        (match r {
            Some(o) => {
                &&& nl_offset_at_local(
                    year as int,
                    month as int,
                    day as int,
                    hour as int,
                    minute as int,
                ) == Some(o as int)
                &&& -86400 < o < 86400
            },
            None => nl_offset_at_local(
                year as int,
                month as int,
                day as int,
                hour as int,
                minute as int,
            ) is None,
        }),
{
    let date = chrono::NaiveDate::from_ymd_opt(year, month as u32, day as u32).unwrap();
    let time = chrono::NaiveTime::from_hms_opt(hour as u32, minute as u32, 0).unwrap();
    let naive = date.and_time(time);
    match chrono::TimeZone::from_local_datetime(&chrono_tz::Canada::Newfoundland, &naive) {
        chrono::LocalResult::Single(dt) => Some(chrono::Offset::fix(dt.offset()).local_minus_utc()),
        _ => None,
    }
}

/// Relies on `chrono_tz::Canada::Newfoundland` together with chrono's
/// `TimeZone::from_utc_datetime`: the UTC offset the timezone database
/// gives Newfoundland at this instant. Every instant has exactly one
/// offset; chrono's `FixedOffset` keeps it strictly within one day of UTC.
#[verifier::external_body]
fn newfoundland_offset_at_utc(epoch_secs: i64) -> (r: i32)
    requires
        -100_000_000_000 <= epoch_secs <= 400_000_000_000,
    ensures
        r as int == nl_offset_at_utc(epoch_secs as int),
        -86400 < r < 86400,
{
    let utc = chrono::DateTime::from_timestamp(epoch_secs, 0).unwrap().naive_utc();
    let dt = chrono::TimeZone::from_utc_datetime(&chrono_tz::Canada::Newfoundland, &utc);
    chrono::Offset::fix(dt.offset()).local_minus_utc()
}

proof fn lemma_dby_monotone(ya: int, yb: int)
    requires
        1 <= ya <= yb,
    ensures
        days_before_year(ya) <= days_before_year(yb),
    decreases yb - ya,
{
    if ya < yb {
        lemma_year_step(yb - 1);
        lemma_dby_monotone(ya, yb - 1);
    }
}

/// A valid date of year `y` falls between the New Years around it.
proof fn lemma_year_bracket(y: int, m: int, d: int)
    requires
        y >= 1,
        1 <= m <= 12,
        1 <= d <= days_in_month(y, m),
    ensures
        days_before_year(y) <= days_from_civil(y, m, d) < days_before_year(y + 1),
{
    lemma_year_step(y);
}

/// Day numbers determine civil dates: `days_from_civil` is injective over
/// valid dates.
pub proof fn lemma_days_from_civil_injective(
    y1: int,
    m1: int,
    d1: int,
    y2: int,
    m2: int,
    d2: int,
)
    requires
        y1 >= 1,
        1 <= m1 <= 12,
        1 <= d1 <= days_in_month(y1, m1),
        y2 >= 1,
        1 <= m2 <= 12,
        1 <= d2 <= days_in_month(y2, m2),
        days_from_civil(y1, m1, d1) == days_from_civil(y2, m2, d2),
    ensures
        y1 == y2,
        m1 == m2,
        d1 == d2,
{
    lemma_year_bracket(y1, m1, d1);
    lemma_year_bracket(y2, m2, d2);
    if y1 < y2 {
        lemma_dby_monotone(y1 + 1, y2);
        assert(false);
    }
    if y2 < y1 {
        lemma_dby_monotone(y2 + 1, y1);
        assert(false);
    }
    if m1 < m2 {
        lemma_month_step(y1, m1);
        assert(false);
    }
    if m2 < m1 {
        lemma_month_step(y1, m2);
        assert(false);
    }
}

/// Instants determine well-formed `ZonedTime` values with a given offset.
pub proof fn lemma_zoned_time_unique(t1: ZonedTime, t2: ZonedTime)
    requires
        zt_wf(t1),
        zt_wf(t2),
        zt_epoch(t1) == zt_epoch(t2),
        t1.offset_minutes == t2.offset_minutes,
    ensures
        t1 == t2,
{
    let s = civil_secs(t1.year as int, t1.month as int, t1.day as int, t1.hour as int, t1.minute as int);
    let sod1 = (t1.hour as int) * 3600 + (t1.minute as int) * 60;
    let sod2 = (t2.hour as int) * 3600 + (t2.minute as int) * 60;
    lemma_fundamental_div_mod_converse(
        s,
        86400,
        days_from_civil(t1.year as int, t1.month as int, t1.day as int),
        sod1,
    );
    lemma_fundamental_div_mod_converse(
        s,
        86400,
        days_from_civil(t2.year as int, t2.month as int, t2.day as int),
        sod2,
    );
    lemma_days_from_civil_injective(
        t1.year as int,
        t1.month as int,
        t1.day as int,
        t2.year as int,
        t2.month as int,
        t2.day as int,
    );
    lemma_fundamental_div_mod_converse(sod1, 3600, t1.hour as int, (t1.minute as int) * 60);
    lemma_fundamental_div_mod_converse(sod1, 3600, t2.hour as int, (t2.minute as int) * 60);
}

proof fn find_year(z: int, y: int) -> (r: int)
    requires
        1 <= y <= 9999,
        days_from_civil(y, 1, 1) <= z <= days_from_civil(9999, 12, 31),
    ensures
        1 <= r <= 9999,
        days_from_civil(r, 1, 1) <= z < days_before_year(r + 1),
    decreases 9999 - y,
{
    if y < 9999 && days_from_civil(y + 1, 1, 1) <= z {
        find_year(z, y + 1)
    } else {
        if y == 9999 {
            lemma_year_step(9999);
        }
        y
    }
}

proof fn find_month(z: int, y: int, m: int) -> (r: int)
    requires
        y >= 1,
        1 <= m <= 12,
        days_from_civil(y, m, 1) <= z,
        z < days_before_year(y + 1),
    ensures
        1 <= r <= 12,
        days_from_civil(y, r, 1) <= z < days_from_civil(y, r, 1) + days_in_month(y, r),
    decreases 12 - m,
{
    if m < 12 && days_from_civil(y, m + 1, 1) <= z {
        find_month(z, y, m + 1)
    } else {
        if m == 12 {
            lemma_year_step(y);
        } else {
            lemma_month_step(y, m);
        }
        m
    }
}

/// Every whole-minute instant of the supported years has a well-formed
/// civil reading at a given whole-minute offset.
pub proof fn lemma_zoned_exists(e: int, off: int) -> (t: ZonedTime)
    requires
        min_civil_secs() <= e + off <= max_civil_secs(),
        (e + off) % 60 == 0,
        off % 60 == 0,
        -86400 < off < 86400,
    ensures
        zt_wf(t),
        zt_epoch(t) == e,
        (t.offset_minutes as int) * 60 == off,
{
    let local = e + off;
    lemma_fundamental_div_mod(local, 86400);
    vstd::arithmetic::div_mod::lemma_mod_bound(local, 86400);
    let days = local / 86400;
    let sod = local % 86400;
    assert(min_civil_secs() == days_from_civil(1, 1, 1) * 86400);
    assert(max_civil_secs() == days_from_civil(9999, 12, 31) * 86400 + 86340);
    assert(days_from_civil(1, 1, 1) <= days <= days_from_civil(9999, 12, 31));
    let y = find_year(days, 1);
    let m = find_month(days, y, 1);
    let d = days - days_from_civil(y, m, 1) + 1;
    // split the second of day into whole hours and minutes
    lemma_fundamental_div_mod(local, 60);
    let lk = local / 60;
    assert(local == 60 * lk);
    let rk = lk - 1440 * days;
    assert(sod == 60 * rk);
    lemma_fundamental_div_mod(sod, 3600);
    vstd::arithmetic::div_mod::lemma_mod_bound(sod, 3600);
    let h = sod / 3600;
    let sm = sod % 3600;
    let bk = rk - 60 * h;
    assert(sm == 60 * bk);
    lemma_fundamental_div_mod_converse(sm, 60, bk, 0);
    lemma_fundamental_div_mod(sm, 60);
    let mi = sm / 60;
    assert(sod == 3600 * h + 60 * mi);
    lemma_fundamental_div_mod_converse(86399, 3600, 23, 3599);
    vstd::arithmetic::div_mod::lemma_div_is_ordered(sod, 86399, 3600);
    lemma_fundamental_div_mod_converse(3599, 60, 59, 59);
    vstd::arithmetic::div_mod::lemma_div_is_ordered(sm, 3599, 60);
    assert(0 <= h <= 23 && 0 <= mi <= 59);
    lemma_fundamental_div_mod(off, 60);
    let om = off / 60;
    let t = ZonedTime {
        year: y as i32,
        month: m as u8,
        day: d as u8,
        hour: h as u8,
        minute: mi as u8,
        offset_minutes: om as i32,
    };
    assert(civil_secs(y, m, d, h, mi) == local);
    t
}

/// The Newfoundland civil reading of the instant `e` (epoch seconds),
/// where `off` (seconds east, a whole number of minutes) is Newfoundland's
/// offset at that instant: the unique well-formed `ZonedTime` denoting `e`
/// and carrying that offset.
pub open spec fn zoned_of_instant(e: int, off: int) -> ZonedTime {
    choose|t: ZonedTime|
        zt_wf(t) && zt_epoch(t) == e && (t.offset_minutes as int) * 60 == off
}

pub open spec fn min_civil_secs() -> int {
    civil_secs(1, 1, 1, 0, 0)
}

pub open spec fn max_civil_secs() -> int {
    civil_secs(9999, 12, 31, 23, 59)
}

/// What `parse_time` returns for the value text `s`, case by case: the
/// sentinel gives an absent value; a text outside the grammar or naming an
/// impossible date fails; a bare timestamp is read as Newfoundland civil
/// time; one with an explicit offset denotes an instant, converted to the
/// Newfoundland civil time of that same instant.
pub open spec fn spec_time_value(s: Seq<char>) -> Result<Option<ZonedTime>, TimeError> {
    if is_unknown_text(s) {
        Ok(None)
    } else {
        match spec_parse_stamp(s) {
            None => Err(TimeError::BadFormat),
            Some(f) => if !fields_valid(f) {
                Err(TimeError::BadFormat)
            } else {
                let h = hour24(f.hour12, f.pm);
                match f.offset {
                    None => match nl_offset_at_local(f.year, f.month, f.day, h, f.minute) {
                        None => Err(TimeError::UnmappableLocalTime),
                        Some(o) => if !(-86400 < o < 86400) {
                            Err(TimeError::OutOfRange)
                        } else if o % 60 != 0 {
                            Err(TimeError::SubminuteOffset)
                        } else {
                            Ok(
                                Some(
                                    ZonedTime {
                                        year: f.year as i32,
                                        month: f.month as u8,
                                        day: f.day as u8,
                                        hour: h as u8,
                                        minute: f.minute as u8,
                                        offset_minutes: (o / 60) as i32,
                                    },
                                ),
                            )
                        },
                    },
                    Some(src) => {
                        let e = civil_secs(f.year, f.month, f.day, h, f.minute) - src;
                        let o = nl_offset_at_utc(e);
                        if !(-86400 < o < 86400) {
                            Err(TimeError::OutOfRange)
                        } else if o % 60 != 0 {
                            Err(TimeError::SubminuteOffset)
                        } else if !(min_civil_secs() <= e + o <= max_civil_secs()) {
                            Err(TimeError::OutOfRange)
                        } else {
                            Ok(Some(zoned_of_instant(e, o)))
                        }
                    },
                }
            },
        }
    }
}

/// A present time value is well-formed.
pub proof fn lemma_time_value_wf(s: Seq<char>)
    ensures
        spec_time_value(s) matches Ok(Some(t)) ==> zt_wf(t),
{
    if spec_time_value(s) matches Ok(Some(t)) {
        if !is_unknown_text(s) {
            let f = spec_parse_stamp(s)->0;
            let h = hour24(f.hour12, f.pm);
            match f.offset {
                None => {
                    let o = nl_offset_at_local(f.year, f.month, f.day, h, f.minute)->0;
                    lemma_fundamental_div_mod(o, 60);
                },
                Some(src) => {
                    let e = civil_secs(f.year, f.month, f.day, h, f.minute) - src;
                    let o = nl_offset_at_utc(e);
                    let days_a = days_from_civil(f.year, f.month, f.day);
                    let sk = days_a * 1440 + h * 60 + f.minute;
                    assert(civil_secs(f.year, f.month, f.day, h, f.minute) == 60 * sk);
                    lemma_fundamental_div_mod(src, 60);
                    lemma_fundamental_div_mod(o, 60);
                    let k = sk - src / 60 + o / 60;
                    assert(e + o == 60 * k);
                    lemma_fundamental_div_mod_converse(e + o, 60, k, 0);
                    let w = lemma_zoned_exists(e, o);
                    assert(exists|t2: ZonedTime|
                        zt_wf(t2) && zt_epoch(t2) == e && (t2.offset_minutes as int) * 60 == o);
                    assert(zt_wf(zoned_of_instant(e, o)));
                },
            }
        }
    }
}

/// Parses one date-time value cell.
pub fn parse_time(s: &str) -> (r: Result<Option<ZonedTime>, TimeError>)
    ensures
        r == spec_time_value(s@),
{
    let v = chars_of(s);
    if is_unknown_exec(&v) {
        return Ok(None);
    }
    let st = match parse_stamp_exec(&v) {
        Some(st) => st,
        None => { return Err(TimeError::BadFormat); },
    };
    if !fields_valid_exec(&st) {
        return Err(TimeError::BadFormat);
    }
    let h = hour24_exec(st.hour12, st.pm);
    match st.offset {
        None => {
            match newfoundland_offset_at_local(st.year as i32, st.month, st.day, h, st.minute) {
                None => Err(TimeError::UnmappableLocalTime),
                Some(off) => {
                    let shu: u32 = (off + 86400) as u32;
                    proof {
                        lemma_mod_multiples_vanish(1440, off as int, 60);
                    }
                    if shu % 60 != 0 {
                        Err(TimeError::SubminuteOffset)
                    } else {
                        let om: i32 = (shu / 60) as i32 - 1440;
                        proof {
                            lemma_fundamental_div_mod(shu as int, 60);
                            lemma_fundamental_div_mod(off as int, 60);
                        }
                        Ok(
                            Some(
                                ZonedTime {
                                    year: st.year as i32,
                                    month: st.month,
                                    day: st.day,
                                    hour: h,
                                    minute: st.minute,
                                    offset_minutes: om,
                                },
                            ),
                        )
                    }
                },
            }
        },
        Some(src) => {
            let secs = civil_secs_exec(st.year as i32, st.month, st.day, h, st.minute);
            let epoch = secs - src as i64;
            let off = newfoundland_offset_at_utc(epoch);
            let shu: u32 = (off + 86400) as u32;
            proof {
                lemma_mod_multiples_vanish(1440, off as int, 60);
            }
            if shu % 60 != 0 {
                return Err(TimeError::SubminuteOffset);
            }
            let om: i32 = (shu / 60) as i32 - 1440;
            proof {
                lemma_fundamental_div_mod(shu as int, 60);
                assert(om as int * 60 == off as int);
            }
            let local = epoch + off as i64;
            let minb = civil_secs_exec(1, 1, 1, 0, 0);
            let maxb = civil_secs_exec(9999, 12, 31, 23, 59);
            if local < minb || local > maxb {
                return Err(TimeError::OutOfRange);
            }
            let u: u64 = (local + 62_135_596_800) as u64;
            let q: u64 = u / 86400;
            let rr: u64 = u % 86400;
            proof {
                lemma_fundamental_div_mod(u as int, 86400);
                vstd::arithmetic::div_mod::lemma_mod_bound(u as int, 86400);
            }
            let days: i64 = q as i64 - 719162;
            proof {
                assert(min_civil_secs() == days_from_civil(1, 1, 1) * 86400);
                assert(max_civil_secs() == days_from_civil(9999, 12, 31) * 86400 + 86340);
                assert(local as int == days as int * 86400 + rr as int);
                assert(days_from_civil(1, 1, 1) <= days as int <= days_from_civil(9999, 12, 31));
            }
            let (y2, m2, d2) = civil_from_days_exec(days);
            proof {
                lemma_fundamental_div_mod_converse(86399, 3600, 23, 3599);
                vstd::arithmetic::div_mod::lemma_div_is_ordered(rr as int, 86399, 3600);
            }
            let hh2: u8 = (rr / 3600) as u8;
            let rm: u64 = rr % 3600;
            proof {
                lemma_fundamental_div_mod(rr as int, 3600);
                vstd::arithmetic::div_mod::lemma_mod_bound(rr as int, 3600);
                lemma_fundamental_div_mod_converse(3599, 60, 59, 59);
                vstd::arithmetic::div_mod::lemma_div_is_ordered(rm as int, 3599, 60);
            }
            let mi2: u8 = (rm / 60) as u8;
            proof {
                lemma_fundamental_div_mod(rm as int, 60);
                vstd::arithmetic::div_mod::lemma_mod_bound(rm as int, 60);
                // The instant is a whole number of minutes, so no seconds
                // are lost in the civil decomposition.
                let f = stamp_view(st);
                let days_a = days_from_civil(f.year, f.month, f.day);
                let sk = days_a * 1440 + (h as int) * 60 + f.minute;
                assert(secs as int == 60 * sk);
                lemma_fundamental_div_mod(src as int, 60);
                let ok = (src as int) / 60;
                assert(src as int == 60 * ok);
                let lk = sk - ok + om as int;
                assert(local as int == 60 * lk);
                let rk = lk + 1035593280 - 1440 * (q as int);
                assert(rr as int == 60 * rk);
                lemma_fundamental_div_mod_converse(rr as int, 60, rk, 0);
                let bk = rk - 60 * (hh2 as int);
                assert(rm as int == 60 * bk);
                lemma_fundamental_div_mod_converse(rm as int, 60, bk, 0);
                assert(rm as int % 60 == 0);
                assert(rr as int == 3600 * (hh2 as int) + 60 * (mi2 as int));
            }
            let t = ZonedTime {
                year: y2,
                month: m2,
                day: d2,
                hour: hh2,
                minute: mi2,
                offset_minutes: om,
            };
            proof {
                let e = epoch as int;
                let o = off as int;
                assert(zt_wf(t) && zt_epoch(t) == e && (t.offset_minutes as int) * 60 == o);
                assert(exists|t2: ZonedTime|
                    zt_wf(t2) && zt_epoch(t2) == e && (t2.offset_minutes as int) * 60 == o);
                let c = zoned_of_instant(e, o);
                assert(zt_wf(c) && zt_epoch(c) == e && (c.offset_minutes as int) * 60 == o);
                lemma_zoned_time_unique(t, c);
            }
            Ok(Some(t))
        },
    }
}

} // verus!
