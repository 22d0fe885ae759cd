//! Log housekeeping helpers: reading the timestamp a log file's name
//! carries.  The directory walk and deletion live outside the library.

use vstd::prelude::*;
use vstd::string::StrSliceExecFns;

verus! {

/// A seconds count as the signed value the timestamp arithmetic uses;
/// counts beyond the signed range wrap as a plain cast does.
pub fn warp_to_i64(as_secs: u64) -> (r: i64)
    ensures
        r == as_secs as i64,
        as_secs <= i64::MAX ==> r == as_secs,
{
    #[verifier::truncate] (as_secs as i64)
}

pub open spec fn is_leap_year(y: int) -> bool {
    y % 4 == 0 && (y % 100 != 0 || y % 400 == 0)
}

pub open spec fn days_in_year(y: int) -> int {
    if is_leap_year(y) {
        366
    } else {
        365
    }
}

/// Days from the Unix epoch to the start of year `y`.
pub open spec fn days_before_year(y: int) -> int
    decreases y - 1970,
{
    if y <= 1970 {
        0
    } else {
        days_before_year(y - 1) + days_in_year(y - 1)
    }
}

pub open spec fn days_in_month(m: int, leap: bool) -> int {
    if m == 1 {
        31
    } else if m == 2 {
        if leap {
            29
        } else {
            28
        }
    } else if m == 3 {
        31
    } else if m == 4 {
        30
    } else if m == 5 {
        31
    } else if m == 6 {
        30
    } else if m == 7 {
        31
    } else if m == 8 {
        31
    } else if m == 9 {
        30
    } else if m == 10 {
        31
    } else if m == 11 {
        30
    } else {
        31
    }
}

/// Days from the start of the year to the start of month `m`.
pub open spec fn days_before_month(m: int, leap: bool) -> int
    decreases m,
{
    if m <= 1 {
        0
    } else {
        days_before_month(m - 1, leap) + days_in_month(m - 1, leap)
    }
}

pub open spec fn valid_date(y: int, m: int, d: int) -> bool {
    &&& 1970 <= y <= 9999
    &&& 1 <= m <= 12
    &&& 1 <= d <= days_in_month(m, is_leap_year(y))
}

/// Seconds since the Unix epoch of the given civil instant, taken
/// eight hours east of UTC as the log names are.
pub open spec fn spec_civil_timestamp(y: int, m: int, d: int, hh: int, mm: int, ss: int) -> int {
    (days_before_year(y) + days_before_month(m, is_leap_year(y)) + (d - 1)) * 86400 + hh * 3600
        + mm * 60 + ss - 28800
}

pub open spec fn digit_char(c: char) -> bool {
    0x30 <= (c as u32) <= 0x39
}

pub open spec fn dvc(c: char) -> int {
    (c as u32) - 0x30
}

/// The timestamp a log file name carries: either a date
/// (`YYYY-MM-DD`, read as midnight) or a date and time
/// (`YYYY-MM-DD HH_MM_SS`), both eight hours east of UTC.
pub open spec fn spec_parse_timestamp(s: Seq<char>) -> Option<i64> {
    if s.len() != 10 && s.len() != 19 {
        None
    } else if !(digit_char(s[0]) && digit_char(s[1]) && digit_char(s[2]) && digit_char(s[3])
        && s[4] == '-' && digit_char(s[5]) && digit_char(s[6]) && s[7] == '-' && digit_char(s[8])
        && digit_char(s[9])) {
        None
    } else {
        let y = dvc(s[0]) * 1000 + dvc(s[1]) * 100 + dvc(s[2]) * 10 + dvc(s[3]);
        let m = dvc(s[5]) * 10 + dvc(s[6]);
        let d = dvc(s[8]) * 10 + dvc(s[9]);
        if !valid_date(y, m, d) {
            None
        } else if s.len() == 10 {
            Some(spec_civil_timestamp(y, m, d, 0, 0, 0) as i64)
        } else if !(s[10] == ' ' && digit_char(s[11]) && digit_char(s[12]) && s[13] == '_'
            && digit_char(s[14]) && digit_char(s[15]) && s[16] == '_' && digit_char(s[17])
            && digit_char(s[18])) {
            None
        } else {
            let hh = dvc(s[11]) * 10 + dvc(s[12]);
            let mm = dvc(s[14]) * 10 + dvc(s[15]);
            let ss = dvc(s[17]) * 10 + dvc(s[18]);
            if hh <= 23 && mm <= 59 && ss <= 59 {
                Some(spec_civil_timestamp(y, m, d, hh, mm, ss) as i64)
            } else {
                None
            }
        }
    }
}

proof fn lemma_days_before_year_bound(y: int)
    requires
        1970 <= y <= 10000,
    ensures
        0 <= days_before_year(y) <= 366 * (y - 1970),
    decreases y - 1970,
{
    if y > 1970 {
        lemma_days_before_year_bound(y - 1);
    }
}

proof fn lemma_days_before_month_bound(m: int, leap: bool)
    requires
        1 <= m <= 12,
    ensures
        0 <= days_before_month(m, leap) <= 31 * (m - 1),
    decreases m,
{
    if m > 1 {
        lemma_days_before_month_bound(m - 1, leap);
    }
}

/// Computes days from the epoch to the start of year `y`.
fn days_before_year_exec(y: i64) -> (r: i64)
    requires
        1970 <= y <= 9999,
    ensures
        r == days_before_year(y as int),
{
    let mut acc: i64 = 0;
    let mut cur: i64 = 1970;
    while cur < y
        invariant
            1970 <= cur <= y <= 9999,
            acc == days_before_year(cur as int),
            0 <= acc <= 366 * (cur - 1970),
        decreases y - cur,
    {
        let leap = cur % 4 == 0 && (cur % 100 != 0 || cur % 400 == 0);
        acc = acc + (if leap {
            366
        } else {
            365
        });
        cur = cur + 1;
        proof {
            lemma_days_before_year_bound(cur as int);
        }
    }
    acc
}

/// Computes days from the start of the year to the start of month `m`.
fn days_before_month_exec(m: i64, leap: bool) -> (r: i64)
    requires
        1 <= m <= 12,
    ensures
        r == days_before_month(m as int, leap),
{
    let mut acc: i64 = 0;
    let mut cur: i64 = 1;
    while cur < m
        invariant
            1 <= cur <= m <= 12,
            acc == days_before_month(cur as int, leap),
            0 <= acc <= 31 * (cur - 1),
        decreases m - cur,
    {
        acc = acc + days_in_month_exec(cur, leap);
        cur = cur + 1;
        proof {
            lemma_days_before_month_bound(cur as int, leap);
        }
    }
    acc
}

fn days_in_month_exec(m: i64, leap: bool) -> (r: i64)
    requires
        1 <= m <= 12,
    ensures
        r == days_in_month(m as int, leap),
        28 <= r <= 31,
{
    if m == 1 {
        31
    } else if m == 2 {
        if leap {
            29
        } else {
            28
        }
    } else if m == 3 {
        31
    } else if m == 4 {
        30
    } else if m == 5 {
        31
    } else if m == 6 {
        30
    } else if m == 7 {
        31
    } else if m == 8 {
        31
    } else if m == 9 {
        30
    } else if m == 10 {
        31
    } else if m == 11 {
        30
    } else {
        31
    }
}

/// Reads the digit character at `i` as a value, or fails.
fn digit_at(s: &str, i: usize) -> (r: Option<i64>)
    requires
        i < s@.len(),
    ensures
        r is Some <==> digit_char(s@[i as int]),
        r is Some ==> r.unwrap() == dvc(s@[i as int]) && 0 <= r.unwrap() <= 9,
{
    let c = s.get_char(i);
    let v = c as u32;
    if v >= 0x30 && v <= 0x39 {
        Some((v - 0x30) as i64)
    } else {
        None
    }
}

/// Parses the timestamp a log file name carries; any other shape
/// gives nothing.
#[verifier::rlimit(100)]
#[verifier::spinoff_prover]
#[verifier::loop_isolation(false)]
pub fn parse_string_to_timestamp(date_time: &str) -> (r: Option<i64>)
    ensures
        r == spec_parse_timestamp(date_time@),
{
    let n = date_time.unicode_len();
    if n != 10 && n != 19 {
        return None;
    }
    let d0 = digit_at(date_time, 0);
    let d1 = digit_at(date_time, 1);
    let d2 = digit_at(date_time, 2);
    let d3 = digit_at(date_time, 3);
    let sep1 = date_time.get_char(4);
    let d5 = digit_at(date_time, 5);
    let d6 = digit_at(date_time, 6);
    let sep2 = date_time.get_char(7);
    let d8 = digit_at(date_time, 8);
    let d9 = digit_at(date_time, 9);
    let shape_ok = d0.is_some() && d1.is_some() && d2.is_some() && d3.is_some() && sep1 == '-'
        && d5.is_some() && d6.is_some() && sep2 == '-' && d8.is_some() && d9.is_some();
    if !shape_ok {
        return None;
    }
    let y = d0.unwrap() * 1000 + d1.unwrap() * 100 + d2.unwrap() * 10 + d3.unwrap();
    let m = d5.unwrap() * 10 + d6.unwrap();
    let d = d8.unwrap() * 10 + d9.unwrap();
    let leap = y % 4 == 0 && (y % 100 != 0 || y % 400 == 0);
    if !(1970 <= y && m >= 1 && m <= 12) {
        return None;
    }
    if !(d >= 1 && d <= days_in_month_exec(m, leap)) {
        return None;
    }
    proof {
        lemma_days_before_year_bound(y as int);
        lemma_days_before_month_bound(m as int, leap);
    }
    let days = days_before_year_exec(y) + days_before_month_exec(m, leap) + (d - 1);
    if n == 10 {
        return Some(days * 86400 - 28800);
    }
    let sep3 = date_time.get_char(10);
    let h1 = digit_at(date_time, 11);
    let h2 = digit_at(date_time, 12);
    let sep4 = date_time.get_char(13);
    let m1 = digit_at(date_time, 14);
    let m2 = digit_at(date_time, 15);
    let sep5 = date_time.get_char(16);
    let s1 = digit_at(date_time, 17);
    let s2 = digit_at(date_time, 18);
    let tail_ok = sep3 == ' ' && h1.is_some() && h2.is_some() && sep4 == '_' && m1.is_some()
        && m2.is_some() && sep5 == '_' && s1.is_some() && s2.is_some();
    if !tail_ok {
        return None;
    }
    let hh = h1.unwrap() * 10 + h2.unwrap();
    let mm = m1.unwrap() * 10 + m2.unwrap();
    let ss = s1.unwrap() * 10 + s2.unwrap();
    if !(hh <= 23 && mm <= 59 && ss <= 59) {
        return None;
    }
    Some(days * 86400 + hh * 3600 + mm * 60 + ss - 28800)
}

} // verus!
