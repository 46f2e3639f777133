//! Calendar arithmetic for timestamp handling.
//!
//! Timestamps arrive as ISO-8601 text (`YYYY-MM-DDThh:mm:ss`, with a
//! space accepted in place of the `T`). They are reduced to day numbers
//! relative to 1970-01-01 with the civil-calendar algorithms, and back.

use vstd::prelude::*;
use vstd::arithmetic::div_mod::{
    lemma_div_is_ordered, lemma_div_is_ordered_by_denominator, lemma_div_pos_is_pos,
    lemma_fundamental_div_mod, lemma_fundamental_div_mod_converse,
};
use vstd::string::StringSliceAdditionalSpecFns;

verus! {

/// An ASCII decimal digit.
pub open spec fn is_digit(b: u8) -> bool {
    0x30 <= b && b <= 0x39
}

pub open spec fn all_digits(s: Seq<u8>) -> bool {
    forall|i: int| 0 <= i < s.len() ==> is_digit(s[i])
}

/// Numeric value of a digit string, most significant digit first.
pub open spec fn digits_val(s: Seq<u8>) -> int
    decreases s.len(),
{
    if s.len() == 0 {
        0
    } else {
        digits_val(s.drop_last()) * 10 + (s.last() - 0x30)
    }
}

pub open spec fn pow10(n: nat) -> int
    decreases n,
{
    if n == 0 {
        1
    } else {
        10 * pow10((n - 1) as nat)
    }
}

pub proof fn lemma_digits_val_bound(s: Seq<u8>)
    requires
        all_digits(s),
    ensures
        0 <= digits_val(s) < pow10(s.len()),
    decreases s.len(),
{
    if s.len() > 0 {
        assert(all_digits(s.drop_last()));
        lemma_digits_val_bound(s.drop_last());
    }
}

/// The first 19 bytes spell `YYYY-MM-DDThh:mm:ss` (or with a space for
/// the `T`), all six fields being decimal digits.
pub open spec fn timestamp_shape_ok(b: Seq<u8>) -> bool {
    &&& b.len() >= 19
    &&& b[4] == 0x2d
    &&& b[7] == 0x2d
    &&& (b[10] == 0x54 || b[10] == 0x20)
    &&& b[13] == 0x3a
    &&& b[16] == 0x3a
    &&& all_digits(b.subrange(0, 4))
    &&& all_digits(b.subrange(5, 7))
    &&& all_digits(b.subrange(8, 10))
    &&& all_digits(b.subrange(11, 13))
    &&& all_digits(b.subrange(14, 16))
    &&& all_digits(b.subrange(17, 19))
}

/// The six parsed fields of a well-shaped timestamp.
pub open spec fn timestamp_fields(b: Seq<u8>) -> (i32, u32, u32, u32, u32, u32) {
    (
        digits_val(b.subrange(0, 4)) as i32,
        digits_val(b.subrange(5, 7)) as u32,
        digits_val(b.subrange(8, 10)) as u32,
        digits_val(b.subrange(11, 13)) as u32,
        digits_val(b.subrange(14, 16)) as u32,
        digits_val(b.subrange(17, 19)) as u32,
    )
}

/// Read a fixed-width decimal field out of `bytes`.
fn parse_fixed(bytes: &[u8], start: usize, width: usize) -> (r: Option<u32>)
    requires
        start + width <= bytes@.len(),
        width <= 4,
    ensures
        r is Some <==> all_digits(bytes@.subrange(start as int, start as int + width as int)),
        r is Some ==> r->0 == digits_val(
            bytes@.subrange(start as int, start as int + width as int),
        ),
{
    let blen: usize = bytes.len();
    let mut val: u32 = 0;
    let mut k: usize = 0;
    proof {
        assert(bytes@.subrange(start as int, start as int) =~= Seq::<u8>::empty());
    }
    while k < width
        invariant
            start + width <= bytes@.len(),
            bytes@.len() == blen,
            width <= 4,
            k <= width,
            all_digits(bytes@.subrange(start as int, start as int + k as int)),
            val == digits_val(bytes@.subrange(start as int, start as int + k as int)),
            val < 10000,
        decreases width - k,
    {
        let ghost pre = bytes@.subrange(start as int, start as int + k as int);
        let b = bytes[start + k];
        if b < 0x30 || b > 0x39 {
            proof {
                let whole = bytes@.subrange(start as int, start as int + width as int);
                assert(whole[k as int] == b);
                assert(!is_digit(whole[k as int]));
            }
            return None;
        }
        proof {
            reveal_with_fuel(pow10, 5);
            lemma_digits_val_bound(pre);
        }
        val = val * 10 + (b - 0x30) as u32;
        k = k + 1;
        proof {
            reveal_with_fuel(pow10, 5);
            let cur = bytes@.subrange(start as int, start as int + k as int);
            assert(cur.drop_last() =~= pre);
            assert(cur.last() == b);
            lemma_digits_val_bound(cur);
        }
    }
    proof {
        assert(bytes@.subrange(start as int, start as int + k as int) =~= bytes@.subrange(
            start as int,
            start as int + width as int,
        ));
    }
    Some(val)
}

/// Parse the `YYYY-MM-DDThh:mm:ss` prefix of an ISO-8601 string into
/// (year, month, day, hour, minute, second). Fractional seconds and any
/// timezone suffix are ignored; a space is accepted in place of the `T`.
pub fn parse_timestamp(s: &str) -> (r: Option<(i32, u32, u32, u32, u32, u32)>)
    ensures
        r is Some <==> timestamp_shape_ok(s.spec_bytes()),
        r is Some ==> r->0 == timestamp_fields(s.spec_bytes()),
{
    let bytes: &[u8] = s.as_bytes();
    if bytes.len() < 19 {
        return None;
    }
    if !(bytes[4] == 0x2d && bytes[7] == 0x2d && (bytes[10] == 0x54 || bytes[10] == 0x20)
        && bytes[13] == 0x3a && bytes[16] == 0x3a) {
        return None;
    }
    let year = match parse_fixed(bytes, 0, 4) {
        Some(v) => v,
        None => { return None; },
    };
    let month = match parse_fixed(bytes, 5, 2) {
        Some(v) => v,
        None => { return None; },
    };
    let day = match parse_fixed(bytes, 8, 2) {
        Some(v) => v,
        None => { return None; },
    };
    let hour = match parse_fixed(bytes, 11, 2) {
        Some(v) => v,
        None => { return None; },
    };
    let minute = match parse_fixed(bytes, 14, 2) {
        Some(v) => v,
        None => { return None; },
    };
    let second = match parse_fixed(bytes, 17, 2) {
        Some(v) => v,
        None => { return None; },
    };
    proof {
        lemma_digits_val_bound(s.spec_bytes().subrange(0, 4));
    }
    Some((year as i32, month, day, hour, minute, second))
}

/// Floor division by a positive divisor (rounds toward negative
/// infinity, as the mathematical `/` on `int` does).
fn floor_div(n: i64, d: i64) -> (q: i64)
    requires
        2 <= d <= 0x40000,
        -0x4000_0000_0000 <= n <= 0x4000_0000_0000,
    ensures
        q == n as int / d as int,
{
    if n >= 0 {
        let q = ((n as u64) / (d as u64)) as i64;
        proof {
            lemma_div_pos_is_pos(n as int, d as int);
        }
        q
    } else {
        let u: u64 = (-(n + 1)) as u64;
        let q0 = (u / (d as u64)) as i64;
        proof {
            let qi = q0 as int;
            let di = d as int;
            let ui = u as int;
            lemma_fundamental_div_mod(ui, di);
            vstd::arithmetic::div_mod::lemma_mod_bound(ui, di);
            let r0 = ui % di;
            assert(n as int == (-qi - 1) * di + (di - 1 - r0)) by (nonlinear_arith)
                requires
                    ui == di * qi + r0,
                    n as int == -ui - 1,
            ;
            lemma_fundamental_div_mod_converse(n as int, di, -qi - 1, di - 1 - r0);
        }
        -q0 - 1
    }
}

/// Day number of a civil date relative to 1970-01-01, following the
/// era/year-of-era decomposition of the Gregorian calendar.
pub open spec fn spec_days_from_civil(year: int, month: int, day: int) -> int {
    let y = if month <= 2 { year - 1 } else { year };
    let m = if month <= 2 { month + 9 } else { month - 3 };
    let era = y / 400;
    let yoe = y - era * 400;
    let doy = (153 * m + 2) / 5 + day - 1;
    let doe = yoe * 365 + yoe / 4 - yoe / 100 + doy;
    era * 146097 + doe - 719468
}

/// Days since 1970-01-01 of the given civil date (negative before the
/// epoch).
pub fn days_since_epoch(year: i32, month: u32, day: u32) -> (r: i64)
    requires
        1 <= month <= 12,
        1 <= day <= 31,
    ensures
        r == spec_days_from_civil(year as int, month as int, day as int),
{
    let y: i64 = if month <= 2 { year as i64 - 1 } else { year as i64 };
    let m: i64 = if month <= 2 { month as i64 + 9 } else { month as i64 - 3 };
    let era: i64 = floor_div(y, 400);
    proof {
        lemma_fundamental_div_mod(y as int, 400);
        vstd::arithmetic::div_mod::lemma_mod_bound(y as int, 400);
    }
    let yoe: i64 = y - era * 400;
    let doy: i64 = ((153 * (m as u64) + 2) / 5) as i64 + day as i64 - 1;
    let doe: i64 = yoe * 365 + ((yoe as u64) / 4) as i64 - ((yoe as u64) / 100) as i64 + doy;
    era * 146097 + doe - 719468
}

/// Civil date of a day number relative to 1970-01-01: the inverse
/// decomposition, era first, then year of era, then day of year.
pub open spec fn spec_civil_from_days(days: int) -> (int, int, int) {
    let z = days + 719468;
    let era = z / 146097;
    let doe = z - era * 146097;
    let yoe = (doe - doe / 1460 + doe / 36524 - doe / 146096) / 365;
    let y = yoe + era * 400;
    let doy0 = doe - (365 * yoe + yoe / 4 - yoe / 100);
    let doy = if doy0 < 0 {
        0
    } else {
        doy0
    };
    let mp = (5 * doy + 2) / 153;
    let d = doy - (153 * mp + 2) / 5 + 1;
    let m = if mp < 10 {
        mp + 3
    } else {
        mp - 9
    };
    (if m <= 2 {
        y + 1
    } else {
        y
    }, m, d)
}

/// Civil date (year, month, day) of a day number.
pub fn civil_from_days(days: i64) -> (r: (i32, u32, u32))
    requires
        -100_000_000 <= days <= 100_000_000,
    ensures
        r.0 == spec_civil_from_days(days as int).0,
        r.1 == spec_civil_from_days(days as int).1,
        r.2 == spec_civil_from_days(days as int).2,
{
    let z: i64 = days + 719468;
    let era: i64 = floor_div(z, 146097);
    proof {
        lemma_fundamental_div_mod(z as int, 146097);
        vstd::arithmetic::div_mod::lemma_mod_bound(z as int, 146097);
    }
    let doe: i64 = z - era * 146097;
    let de = doe as u64;
    proof {
        lemma_div_is_ordered_by_denominator(de as int, 1, 1460);
        lemma_div_is_ordered_by_denominator(de as int, 1460, 36524);
        lemma_div_is_ordered_by_denominator(de as int, 36524, 146096);
    }
    let acc: i64 = doe - (de / 1460) as i64 + (de / 36524) as i64 - (de / 146096) as i64;
    let yoe: i64 = floor_div(acc, 365);
    proof {
        lemma_div_pos_is_pos(acc as int, 365);
        lemma_div_is_ordered(acc as int, 146100, 365);
    }
    let y: i64 = yoe + era * 400;
    let doy0: i64 = doe - (365 * yoe + ((yoe as u64) / 4) as i64 - ((yoe as u64) / 100) as i64);
    let doy: i64 = if doy0 < 0 {
        0
    } else {
        doy0
    };
    let mp: i64 = floor_div(5 * doy + 2, 153);
    proof {
        lemma_div_pos_is_pos(5 * doy + 2, 153);
        lemma_div_is_ordered(5 * doy + 2, 730482int, 153);
        lemma_fundamental_div_mod(5 * doy + 2, 153);
        lemma_div_is_ordered(153 * mp + 2, 5 * doy + 4, 5);
        assert((5 * doy + 4) / 5 == doy) by {
            lemma_fundamental_div_mod_converse(5 * doy + 4, 5, doy as int, 4);
        };
        lemma_div_pos_is_pos(153 * mp + 2, 5);
    }
    let d: i64 = doy - ((153 * (mp as u64) + 2) / 5) as i64 + 1;
    let m: i64 = if mp < 10 {
        mp + 3
    } else {
        mp - 9
    };
    let year: i64 = if m <= 2 {
        y + 1
    } else {
        y
    };
    (year as i32, m as u32, d as u32)
}

/// Day of the week of a civil date, Monday = 0 through Sunday = 6
/// (Sakamoto's method, shifted so the week starts on Monday).
pub open spec fn spec_day_of_week(year: int, month: int, day: int) -> int {
    let t = seq![0int, 3, 2, 5, 0, 3, 5, 1, 4, 6, 2, 4];
    let y = if month < 3 {
        year - 1
    } else {
        year
    };
    let dow = (y + y / 4 - y / 100 + y / 400 + t[month - 1] + day) % 7;
    (dow + 6) % 7
}

pub fn day_of_week(year: i32, month: u32, day: u32) -> (r: u32)
    requires
        1 <= year,
        1 <= month <= 12,
        1 <= day <= 31,
    ensures
        r == spec_day_of_week(year as int, month as int, day as int),
        r < 7,
{
    let t: i64 = match month {
        1 => 0,
        2 => 3,
        3 => 2,
        4 => 5,
        5 => 0,
        6 => 3,
        7 => 5,
        8 => 1,
        9 => 4,
        10 => 6,
        11 => 2,
        _ => 4,
    };
    let y: i64 = if month < 3 {
        year as i64 - 1
    } else {
        year as i64
    };
    let sum: u64 = (y as u64) + (y as u64) / 4 - (y as u64) / 100 + (y as u64) / 400 + (t as u64)
        + day as u64;
    proof {
        lemma_div_is_ordered_by_denominator(y as int, 4, 100);
        let q = seq![0int, 3, 2, 5, 0, 3, 5, 1, 4, 6, 2, 4];
        assert(q[month - 1] == t as int);
        vstd::arithmetic::div_mod::lemma_mod_bound(sum as int, 7);
        vstd::arithmetic::div_mod::lemma_mod_bound((sum as int % 7) + 6, 7);
    }
    let dow = sum % 7;
    ((dow + 6) % 7) as u32
}

/// Seconds since the epoch of a civil date and time of day.
pub open spec fn spec_epoch_seconds(
    year: int,
    month: int,
    day: int,
    hour: int,
    minute: int,
    second: int,
) -> int {
    spec_days_from_civil(year, month, day) * 86400 + hour * 3600 + minute * 60 + second
}

pub fn epoch_seconds(year: i32, month: u32, day: u32, hour: u32, minute: u32, second: u32) -> (r:
    i64)
    requires
        1 <= month <= 12,
        1 <= day <= 31,
    ensures
        r == spec_epoch_seconds(
            year as int,
            month as int,
            day as int,
            hour as int,
            minute as int,
            second as int,
        ),
{
    let days = days_since_epoch(year, month, day);
    days * 86400 + hour as i64 * 3600 + minute as i64 * 60 + second as i64
}

} // verus!
