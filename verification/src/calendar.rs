//! Proleptic Gregorian calendar arithmetic over plain integers.
//!
//! Days are counted from the Unix epoch (1970-01-01 is day 0). The spec
//! functions define the calendar; the exec functions compute with `i64`
//! arithmetic and are proved against them.

use vstd::prelude::*;
use vstd::arithmetic::div_mod::lemma_fundamental_div_mod;
use vstd::arithmetic::div_mod::lemma_fundamental_div_mod_converse_div;
use vstd::arithmetic::div_mod::lemma_fundamental_div_mod_converse_mod;

verus! {

/// A year has an extra day exactly when the Gregorian leap rule says so.
pub open spec fn is_leap_year(y: int) -> bool {
    (y % 4 == 0 && y % 100 != 0) || y % 400 == 0
}

/// Day number (days since 1970-01-01) of the first day of year `y`.
/// 719162 is the number of days from 0001-01-01 to 1970-01-01.
pub open spec fn days_before_year(y: int) -> int {
    365 * (y - 1) + (y - 1) / 4 - (y - 1) / 100 + (y - 1) / 400 - 719162
}

/// Length of month `m` (1-based) of year `y`.
pub open spec fn days_in_month(y: int, m: int) -> int {
    if m == 2 {
        if is_leap_year(y) {
            29
        } else {
            28
        }
    } else if m == 4 || m == 6 || m == 9 || m == 11 {
        30
    } else {
        31
    }
}

/// Days from the first day of year `y` to the first day of its month `m`.
pub open spec fn days_before_month(y: int, m: int) -> int
    decreases m,
{
    if m <= 1 {
        0
    } else {
        days_before_month(y, m - 1) + days_in_month(y, m - 1)
    }
}

/// `y-m-d` names an existing calendar day.
pub open spec fn valid_date(y: int, m: int, d: int) -> bool {
    1 <= m <= 12 && 1 <= d <= days_in_month(y, m)
}

/// Day number (days since 1970-01-01) of the calendar day `y-m-d`.
pub open spec fn day_number(y: int, m: int, d: int) -> int {
    days_before_year(y) + days_before_month(y, m) + (d - 1)
}

/// Rust's truncating division, for a positive divisor, over mathematical
/// integers (`/` on `int` is Euclidean, which for a positive divisor floors).
pub open spec fn trunc_div(a: int, b: int) -> int {
    if a >= 0 {
        a / b
    } else {
        -((-a) / b)
    }
}

/// The UTC day number consulted for a request timestamp in epoch
/// milliseconds: seconds are obtained by truncating division (as the
/// request path computes them), days by flooring.
pub open spec fn epoch_day_of_ms(ms: int) -> int {
    trunc_div(ms, 1000) / 86400
}

/// Floor division by a positive divisor, proved equal to `/` on `int`.
pub fn div_floor(a: i64, b: i64) -> (q: i64)
    requires
        1 <= b,
    ensures
        q == a as int / b as int,
{
    if a >= 0 {
        let qu: u64 = (a as u64) / (b as u64);
        proof {
            lemma_fundamental_div_mod(a as int, b as int);
            assert(a as int / b as int <= a) by {
                lemma_fundamental_div_mod(a as int, b as int);
                let q0 = a as int / b as int;
                let r0 = a as int % b as int;
                assert(a == b * q0 + r0);
                if q0 > a {
                    assert(b * q0 >= q0) by (nonlinear_arith)
                        requires b >= 1 && q0 > a && a >= 0,
                    ;
                }
            };
        }
        qu as i64
    } else {
        // a == -(m + 1) with m >= 0; floor(a / b) == -(m / b) - 1.
        let m: u64 = (-(a + 1)) as u64;
        let qm: u64 = m / (b as u64);
        let q: i64 = -1 - (qm as i64);
        proof {
            let mi = m as int;
            let bi = b as int;
            let qi = mi / bi;
            let ri = mi % bi;
            lemma_fundamental_div_mod(mi, bi);
            assert(mi == bi * qi + ri);
            assert(qm as int == qi);
            // a == -(m + 1) == (-qi - 1) * b + (b - ri - 1), remainder in [0, b)
            assert(a as int == (-qi - 1) * bi + (bi - ri - 1)) by (nonlinear_arith)
                requires mi == bi * qi + ri && a as int == -(mi + 1),
            ;
            lemma_fundamental_div_mod_converse_div(a as int, bi, -qi - 1, bi - ri - 1);
            assert(qi <= mi) by {
                if qi > mi {
                    assert(bi * qi >= qi) by (nonlinear_arith)
                        requires bi >= 1 && qi > mi && mi >= 0,
                    ;
                }
            };
        }
        q
    }
}

/// Euclidean remainder for a positive divisor, proved equal to `%` on `int`.
pub fn mod_floor(a: i64, b: i64) -> (r: i64)
    requires
        1 <= b,
    ensures
        r == a as int % b as int,
{
    if a >= 0 {
        let r = ((a as u64) % (b as u64)) as i64;
        proof {
            lemma_fundamental_div_mod(a as int, b as int);
        }
        r
    } else {
        // a == -(m1 + 1); its remainder is b - ((m1 + 1) mod b), folded
        // back into [0, b).
        let m1: u64 = (-(a + 1)) as u64;
        let rm1: u64 = (m1 + 1) % (b as u64);
        let r: i64 = if rm1 == 0 {
            0
        } else {
            b - (rm1 as i64)
        };
        proof {
            let n = (m1 + 1) as int;
            let bi = b as int;
            let q = n / bi;
            let rr = n % bi;
            lemma_fundamental_div_mod(n, bi);
            assert(rm1 as int == rr);
            if rr == 0 {
                assert(a as int == (-q) * bi + 0) by (nonlinear_arith)
                    requires
                        n == bi * q + 0,
                        a as int == -n,
                ;
                lemma_fundamental_div_mod_converse_mod(a as int, bi, -q, 0);
            } else {
                assert(a as int == (-q - 1) * bi + (bi - rr)) by (nonlinear_arith)
                    requires
                        n == bi * q + rr,
                        a as int == -n,
                ;
                lemma_fundamental_div_mod_converse_mod(a as int, bi, -q - 1, bi - rr);
            }
        }
        r
    }
}

/// One step of the flooring quotient: it rises by one exactly at multiples.
proof fn lemma_div_step(a: int, b: int)
    requires
        1 <= b,
    ensures
        a / b - (a - 1) / b == if a % b == 0 {
            1int
        } else {
            0int
        },
{
    let q = a / b;
    let r = a % b;
    lemma_fundamental_div_mod(a, b);
    assert(a == b * q + r);
    if r == 0 {
        assert(a - 1 == (q - 1) * b + (b - 1)) by (nonlinear_arith)
            requires a == b * q,
        ;
        lemma_fundamental_div_mod_converse_div(a - 1, b, q - 1, b - 1);
    } else {
        assert(a - 1 == q * b + (r - 1)) by (nonlinear_arith)
            requires a == b * q + r,
        ;
        lemma_fundamental_div_mod_converse_div(a - 1, b, q, r - 1);
    }
}

/// A multiple of 400 is a multiple of 100, and one of 100 a multiple of 4.
proof fn lemma_divisibility_chain(y: int)
    ensures
        y % 400 == 0 ==> y % 100 == 0,
        y % 100 == 0 ==> y % 4 == 0,
{
    if y % 400 == 0 {
        lemma_fundamental_div_mod(y, 400);
        let k = y / 400;
        assert(y == 100 * (4 * k) + 0);
        lemma_fundamental_div_mod_converse_mod(y, 100, 4 * k, 0);
    }
    if y % 100 == 0 {
        lemma_fundamental_div_mod(y, 100);
        let k = y / 100;
        assert(y == 4 * (25 * k) + 0);
        lemma_fundamental_div_mod_converse_mod(y, 4, 25 * k, 0);
    }
}

/// The distance between consecutive year starts is the year's length.
pub proof fn lemma_year_length(y: int)
    ensures
        days_before_year(y + 1) - days_before_year(y) == if is_leap_year(y) {
            366int
        } else {
            365int
        },
{
    lemma_div_step(y, 4);
    lemma_div_step(y, 100);
    lemma_div_step(y, 400);
    lemma_divisibility_chain(y);
}

/// Year starts move forward by at least 365 and at most 366 days a year.
pub proof fn lemma_days_before_year_bounds(y1: int, y2: int)
    requires
        y1 <= y2,
    ensures
        days_before_year(y1) + 365 * (y2 - y1) <= days_before_year(y2),
        days_before_year(y2) <= days_before_year(y1) + 366 * (y2 - y1),
    decreases y2 - y1,
{
    if y1 < y2 {
        lemma_days_before_year_bounds(y1, y2 - 1);
        lemma_year_length(y2 - 1);
    }
}

/// Every 400 years the calendar repeats: a block holds 146097 days.
proof fn lemma_era_start(e: int)
    ensures
        days_before_year(1 + 400 * e) == 146097 * e - 719162,
{
    let y1 = 400 * e;
    assert(y1 == 4 * (100 * e) + 0);
    lemma_fundamental_div_mod_converse_div(y1, 4, 100 * e, 0);
    assert(y1 == 100 * (4 * e) + 0);
    lemma_fundamental_div_mod_converse_div(y1, 100, 4 * e, 0);
    assert(y1 == 400 * e + 0);
    lemma_fundamental_div_mod_converse_div(y1, 400, e, 0);
}

/// `days_before_year`, computed in `i64` arithmetic.
pub fn days_before_year_exec(y: i64) -> (r: i64)
    requires
        -700_000_000 <= y <= 700_000_000,
    ensures
        r == days_before_year(y as int),
{
    let y1 = y - 1;
    let q4 = div_floor(y1, 4);
    let q100 = div_floor(y1, 100);
    let q400 = div_floor(y1, 400);
    proof {
        lemma_fundamental_div_mod(y1 as int, 4);
        lemma_fundamental_div_mod(y1 as int, 100);
        lemma_fundamental_div_mod(y1 as int, 400);
    }
    365 * y1 + q4 - q100 + q400 - 719162
}

/// Whether year `y` is a leap year, decided in `i64` arithmetic.
pub fn is_leap_year_exec(y: i64) -> (b: bool)
    requires
        -700_000_000 <= y <= 700_000_000,
    ensures
        b == is_leap_year(y as int),
{
    let r4 = mod_floor(y, 4);
    let r100 = mod_floor(y, 100);
    let r400 = mod_floor(y, 400);
    (r4 == 0 && r100 != 0) || r400 == 0
}

/// The cumulative month offsets within a year, spelled out.
pub proof fn lemma_month_table(y: int)
    ensures
        days_before_month(y, 1) == 0,
        days_before_month(y, 2) == 31,
        days_before_month(y, 3) == 59 + if is_leap_year(y) {
            1int
        } else {
            0int
        },
        days_before_month(y, 4) == 90 + if is_leap_year(y) {
            1int
        } else {
            0int
        },
        days_before_month(y, 5) == 120 + if is_leap_year(y) {
            1int
        } else {
            0int
        },
        days_before_month(y, 6) == 151 + if is_leap_year(y) {
            1int
        } else {
            0int
        },
        days_before_month(y, 7) == 181 + if is_leap_year(y) {
            1int
        } else {
            0int
        },
        days_before_month(y, 8) == 212 + if is_leap_year(y) {
            1int
        } else {
            0int
        },
        days_before_month(y, 9) == 243 + if is_leap_year(y) {
            1int
        } else {
            0int
        },
        days_before_month(y, 10) == 273 + if is_leap_year(y) {
            1int
        } else {
            0int
        },
        days_before_month(y, 11) == 304 + if is_leap_year(y) {
            1int
        } else {
            0int
        },
        days_before_month(y, 12) == 334 + if is_leap_year(y) {
            1int
        } else {
            0int
        },
        days_before_month(y, 12) + days_in_month(y, 12) == 365 + if is_leap_year(y) {
            1int
        } else {
            0int
        },
{
    assert(days_before_month(y, 1) == 0);
    assert(days_before_month(y, 2) == days_before_month(y, 1) + days_in_month(y, 1));
    assert(days_before_month(y, 3) == days_before_month(y, 2) + days_in_month(y, 2));
    assert(days_before_month(y, 4) == days_before_month(y, 3) + days_in_month(y, 3));
    assert(days_before_month(y, 5) == days_before_month(y, 4) + days_in_month(y, 4));
    assert(days_before_month(y, 6) == days_before_month(y, 5) + days_in_month(y, 5));
    assert(days_before_month(y, 7) == days_before_month(y, 6) + days_in_month(y, 6));
    assert(days_before_month(y, 8) == days_before_month(y, 7) + days_in_month(y, 7));
    assert(days_before_month(y, 9) == days_before_month(y, 8) + days_in_month(y, 8));
    assert(days_before_month(y, 10) == days_before_month(y, 9) + days_in_month(y, 9));
    assert(days_before_month(y, 11) == days_before_month(y, 10) + days_in_month(y, 10));
    assert(days_before_month(y, 12) == days_before_month(y, 11) + days_in_month(y, 11));
}

/// The calendar day containing day number `z`: the inverse of `day_number`.
pub fn civil_from_days(z: i64) -> (r: (i64, u8, u8))
    requires
        -200_000_000_000 <= z <= 200_000_000_000,
    ensures
        valid_date(r.0 as int, r.1 as int, r.2 as int),
        day_number(r.0 as int, r.1 as int, r.2 as int) == z,
        -600_000_000 <= r.0 <= 600_000_000,
{
    let z2 = z + 719162;
    let era = div_floor(z2, 146097);
    let y0: i64 = 1 + 400 * era;
    proof {
        lemma_fundamental_div_mod(z2 as int, 146097);
        lemma_era_start(era as int);
        lemma_era_start(era as int + 1);
        assert(days_before_year(y0 as int) <= z);
        assert((z as int) < days_before_year(y0 as int + 400));
    }
    let mut y: i64 = y0;
    let mut dby_next = days_before_year_exec(y + 1);
    while dby_next <= z
        invariant
            y0 <= y < y0 + 400,
            -600_000_000 <= y0 && y0 <= 600_000_000,
            -200_000_000_000 <= z <= 200_000_000_000,
            days_before_year(y as int) <= z as int,
            (z as int) < days_before_year(y0 as int + 400),
            dby_next == days_before_year(y as int + 1),
        decreases y0 + 400 - y,
    {
        y = y + 1;
        proof {
            if y >= y0 + 400 {
                lemma_days_before_year_bounds(y0 as int + 400, y as int);
                assert(false);
            }
        }
        dby_next = days_before_year_exec(y + 1);
    }
    proof {
        lemma_year_length(y as int);
        lemma_month_table(y as int);
    }
    let dby = days_before_year_exec(y);
    let doy = z - dby;
    let leap: i64 = if is_leap_year_exec(y) {
        1
    } else {
        0
    };
    let (m, before): (u8, i64) = if doy < 31 {
        (1, 0)
    } else if doy < 59 + leap {
        (2, 31)
    } else if doy < 90 + leap {
        (3, 59 + leap)
    } else if doy < 120 + leap {
        (4, 90 + leap)
    } else if doy < 151 + leap {
        (5, 120 + leap)
    } else if doy < 181 + leap {
        (6, 151 + leap)
    } else if doy < 212 + leap {
        (7, 181 + leap)
    } else if doy < 243 + leap {
        (8, 212 + leap)
    } else if doy < 273 + leap {
        (9, 243 + leap)
    } else if doy < 304 + leap {
        (10, 273 + leap)
    } else if doy < 334 + leap {
        (11, 304 + leap)
    } else {
        (12, 334 + leap)
    };
    let d = doy - before + 1;
    (y, m, d as u8)
}

/// Months in calendar order, counted as one index.
pub open spec fn month_index(y: int, m: int) -> int {
    12 * y + m - 1
}

/// The first day of the month following (y, m).
proof fn lemma_month_start_step(y: int, m: int)
    requires
        1 <= m <= 12,
    ensures
        m < 12 ==> day_number(y, m, 1) + days_in_month(y, m) == day_number(y, m + 1, 1),
        m == 12 ==> day_number(y, m, 1) + days_in_month(y, m) == day_number(y + 1, 1, 1),
{
    if m < 12 {
        assert(days_before_month(y, m + 1) == days_before_month(y, m) + days_in_month(y, m));
    } else {
        lemma_month_table(y);
        lemma_year_length(y);
    }
}

/// An earlier month ends no later than a later month begins.
proof fn lemma_month_start_monotone(y1: int, m1: int, y2: int, m2: int)
    requires
        1 <= m1 <= 12,
        1 <= m2 <= 12,
        month_index(y1, m1) < month_index(y2, m2),
    ensures
        day_number(y1, m1, 1) + days_in_month(y1, m1) <= day_number(y2, m2, 1),
    decreases month_index(y2, m2) - month_index(y1, m1),
{
    let py = if m2 > 1 {
        y2
    } else {
        y2 - 1
    };
    let pm = if m2 > 1 {
        m2 - 1
    } else {
        12
    };
    lemma_month_start_step(py, pm);
    if month_index(y1, m1) < month_index(py, pm) {
        lemma_month_start_monotone(y1, m1, py, pm);
    } else {
        assert(y1 == py && m1 == pm);
    }
}

/// Law: a day lies in exactly one calendar month. Together with the
/// resolver's own contract this pins the (year, month) it returns: no other
/// pair places the request's UTC day inside its month.
pub proof fn lemma_containing_month_unique(y1: int, m1: int, y2: int, m2: int, z: int)
    requires
        1 <= m1 <= 12,
        1 <= m2 <= 12,
        day_number(y1, m1, 1) <= z < day_number(y1, m1, 1) + days_in_month(y1, m1),
        day_number(y2, m2, 1) <= z < day_number(y2, m2, 1) + days_in_month(y2, m2),
    ensures
        y1 == y2,
        m1 == m2,
{
    if month_index(y1, m1) < month_index(y2, m2) {
        lemma_month_start_monotone(y1, m1, y2, m2);
    } else if month_index(y2, m2) < month_index(y1, m1) {
        lemma_month_start_monotone(y2, m2, y1, m1);
    }
}

/// Law: distinct calendar days have distinct day numbers — `day_number`
/// is injective over valid dates.
pub proof fn lemma_day_number_injective(y1: int, m1: int, d1: int, y2: int, m2: int, d2: int)
    requires
        valid_date(y1, m1, d1),
        valid_date(y2, m2, d2),
        day_number(y1, m1, d1) == day_number(y2, m2, d2),
    ensures
        y1 == y2,
        m1 == m2,
        d1 == d2,
{
    let z = day_number(y1, m1, d1);
    assert(day_number(y1, m1, 1) <= z < day_number(y1, m1, 1) + days_in_month(y1, m1));
    assert(day_number(y2, m2, 1) <= z < day_number(y2, m2, 1) + days_in_month(y2, m2));
    lemma_containing_month_unique(y1, m1, y2, m2, z);
}

/// The calendar (year, month) whose partition holds a request's
/// lower-bound timestamp, given in milliseconds since the Unix epoch.
/// The month is always in 1..=12 and the UTC day of the timestamp falls
/// within that month of that year.
pub fn get_year_and_month(from_ms: i64) -> (r: (i32, i32))
    ensures
        1 <= r.1 <= 12,
        ({
            let z = epoch_day_of_ms(from_ms as int);
            day_number(r.0 as int, r.1 as int, 1) <= z
                < day_number(r.0 as int, r.1 as int, 1) + days_in_month(r.0 as int, r.1 as int)
        }),
{
    let secs: i64 = if from_ms >= 0 {
        div_floor(from_ms, 1000)
    } else {
        let m1: u64 = (-(from_ms + 1)) as u64;
        let qu: u64 = (m1 + 1) / 1000;
        proof {
            assert((m1 + 1) as int / 1000 == (-(from_ms as int)) / 1000);
        }
        -((qu) as i64)
    };
    let z = div_floor(secs, 86400);
    let (y, m, d) = civil_from_days(z);
    proof {
        assert(day_number(y as int, m as int, 1) == z as int - (d as int - 1));
    }
    (y as i32, m as i32)
}

} // verus!
