//! The RFC 3339 form in which the service writes its UTC timestamps:
//! `YYYY-MM-DDTHH:MM:SS.NNNNNNNNNZ`, thirty characters, nine fractional
//! digits. `format_rfc3339` renders a nanosecond instant and `parse_rfc3339`
//! reads one back; a formatted timestamp always parses to the instant it
//! was rendered from.

use vstd::prelude::*;
use vstd::arithmetic::div_mod::lemma_fundamental_div_mod;
use crate::calendar::day_number;
use crate::calendar::days_before_month;
use crate::calendar::days_before_year;
use crate::calendar::days_before_year_exec;
use crate::calendar::days_in_month;
use crate::calendar::div_floor;
use crate::calendar::is_leap_year_exec;
use crate::calendar::civil_from_days;
use crate::calendar::lemma_days_before_year_bounds;
use crate::calendar::lemma_month_table;
use crate::calendar::valid_date;
use crate::digits::digits_value;
use crate::digits::fixed_digits;
use crate::digits::is_digit_seq;
use crate::digits::lemma_digit_seq_canonical;
use crate::digits::lemma_fixed_digits_value;
use crate::digits::lemma_pow10_values;
use crate::digits::push_fixed;
use crate::digits::read_digits;

verus! {

/// The character layout of a timestamp: separators in place, digits
/// everywhere else.
pub open spec fn ts_shape_ok(s: Seq<char>) -> bool {
    &&& s.len() == 30
    &&& s[4] == '-'
    &&& s[7] == '-'
    &&& s[10] == 'T'
    &&& s[13] == ':'
    &&& s[16] == ':'
    &&& s[19] == '.'
    &&& s[29] == 'Z'
    &&& is_digit_seq(s.subrange(0, 4))
    &&& is_digit_seq(s.subrange(5, 7))
    &&& is_digit_seq(s.subrange(8, 10))
    &&& is_digit_seq(s.subrange(11, 13))
    &&& is_digit_seq(s.subrange(14, 16))
    &&& is_digit_seq(s.subrange(17, 19))
    &&& is_digit_seq(s.subrange(20, 29))
}

pub open spec fn ts_year(s: Seq<char>) -> int {
    digits_value(s.subrange(0, 4))
}

pub open spec fn ts_month(s: Seq<char>) -> int {
    digits_value(s.subrange(5, 7))
}

pub open spec fn ts_day(s: Seq<char>) -> int {
    digits_value(s.subrange(8, 10))
}

pub open spec fn ts_hour(s: Seq<char>) -> int {
    digits_value(s.subrange(11, 13))
}

pub open spec fn ts_minute(s: Seq<char>) -> int {
    digits_value(s.subrange(14, 16))
}

pub open spec fn ts_second(s: Seq<char>) -> int {
    digits_value(s.subrange(17, 19))
}

pub open spec fn ts_frac(s: Seq<char>) -> int {
    digits_value(s.subrange(20, 29))
}

/// The named fields denote an existing date and a time of day.
pub open spec fn ts_fields_ok(s: Seq<char>) -> bool {
    &&& valid_date(ts_year(s), ts_month(s), ts_day(s))
    &&& ts_hour(s) < 24
    &&& ts_minute(s) < 60
    &&& ts_second(s) < 60
}

/// The instant the fields denote, in nanoseconds since the Unix epoch.
pub open spec fn ts_value_ns(s: Seq<char>) -> int {
    (day_number(ts_year(s), ts_month(s), ts_day(s)) * 86400 + ts_hour(s) * 3600 + ts_minute(s)
        * 60 + ts_second(s)) * 1_000_000_000 + ts_frac(s)
}

/// The instant a character sequence denotes in the service's timestamp
/// form, if it denotes one representable in 64-bit nanoseconds.
pub open spec fn parse_ts_spec(s: Seq<char>) -> Option<int> {
    if ts_shape_ok(s) && ts_fields_ok(s) && i64::MIN <= ts_value_ns(s) <= i64::MAX {
        Some(ts_value_ns(s))
    } else {
        None
    }
}

/// `days_in_month`, computed in `i64` arithmetic.
pub fn days_in_month_exec(y: i64, m: i64) -> (r: i64)
    requires
        -700_000_000 <= y <= 700_000_000,
        1 <= m <= 12,
    ensures
        r == days_in_month(y as int, m as int),
{
    if m == 2 {
        if is_leap_year_exec(y) {
            29
        } else {
            28
        }
    } else if m == 4 || m == 6 || m == 9 || m == 11 {
        30
    } else {
        31
    }
}

/// `days_before_month`, computed from the spelled-out month table.
pub fn days_before_month_exec(y: i64, m: i64) -> (r: i64)
    requires
        -700_000_000 <= y <= 700_000_000,
        1 <= m <= 12,
    ensures
        r == days_before_month(y as int, m as int),
{
    proof {
        lemma_month_table(y as int);
    }
    let leap: i64 = if is_leap_year_exec(y) {
        1
    } else {
        0
    };
    if m == 1 {
        0
    } else if m == 2 {
        31
    } else if m == 3 {
        59 + leap
    } else if m == 4 {
        90 + leap
    } else if m == 5 {
        120 + leap
    } else if m == 6 {
        151 + leap
    } else if m == 7 {
        181 + leap
    } else if m == 8 {
        212 + leap
    } else if m == 9 {
        243 + leap
    } else if m == 10 {
        273 + leap
    } else if m == 11 {
        304 + leap
    } else {
        334 + leap
    }
}

/// Reads a timestamp in the service's form. Returns the instant exactly
/// when the characters denote one; `None` on any malformed, invalid or
/// out-of-range input.
pub fn parse_rfc3339(s: &str) -> (r: Option<i64>)
    ensures
        match r {
            Some(t) => parse_ts_spec(s@) == Some(t as int),
            None => parse_ts_spec(s@) is None,
        },
{
    if s.unicode_len() != 30 {
        return None;
    }
    if s.get_char(4) != '-' || s.get_char(7) != '-' || s.get_char(10) != 'T' || s.get_char(13)
        != ':' || s.get_char(16) != ':' || s.get_char(19) != '.' || s.get_char(29) != 'Z' {
        return None;
    }
    proof {
        lemma_pow10_values();
    }
    let y = match read_digits(s, 0, 4) {
        Some(v) => v as i64,
        None => {
            return None;
        },
    };
    let m = match read_digits(s, 5, 2) {
        Some(v) => v as i64,
        None => {
            return None;
        },
    };
    let d = match read_digits(s, 8, 2) {
        Some(v) => v as i64,
        None => {
            return None;
        },
    };
    let h = match read_digits(s, 11, 2) {
        Some(v) => v as i64,
        None => {
            return None;
        },
    };
    let mi = match read_digits(s, 14, 2) {
        Some(v) => v as i64,
        None => {
            return None;
        },
    };
    let sec = match read_digits(s, 17, 2) {
        Some(v) => v as i64,
        None => {
            return None;
        },
    };
    let frac = match read_digits(s, 20, 9) {
        Some(v) => v as i64,
        None => {
            return None;
        },
    };
    if m < 1 || m > 12 {
        return None;
    }
    if d < 1 || d > days_in_month_exec(y, m) {
        return None;
    }
    if h > 23 || mi > 59 || sec > 59 {
        return None;
    }
    proof {
        lemma_days_before_year_bounds(0, y as int);
        lemma_days_before_year_bounds(y as int, 10000);
        lemma_month_table(y as int);
    }
    let dn = days_before_year_exec(y) + days_before_month_exec(y, m) + (d - 1);
    let secs = dn * 86400 + h * 3600 + mi * 60 + sec;
    if secs > 9_223_372_036i64 {
        return None;
    }
    if secs == 9_223_372_036i64 && frac > 854_775_807i64 {
        return None;
    }
    if secs < -9_223_372_037i64 {
        return None;
    }
    if secs == -9_223_372_037i64 && frac < 145_224_192i64 {
        return None;
    }
    let t: i64 = if secs >= 0 {
        secs * 1_000_000_000 + frac
    } else {
        (secs + 1) * 1_000_000_000 - (1_000_000_000 - frac)
    };
    Some(t)
}

/// The field values a timestamp's character sequence carries, recovered
/// uniquely from the instant it denotes.
proof fn lemma_ts_fields_determined(s: Seq<char>, t: int)
    requires
        parse_ts_spec(s) == Some(t),
    ensures
        ts_frac(s) == t % 1_000_000_000,
        ({
            let q = t / 1_000_000_000;
            let dn = q / 86400;
            &&& ts_second(s) == (q % 86400) % 60
            &&& ts_minute(s) == ((q % 86400) % 3600) / 60
            &&& ts_hour(s) == (q % 86400) / 3600
            &&& day_number(ts_year(s), ts_month(s), ts_day(s)) == dn
        }),
{
    lemma_pow10_values();
    lemma_digit_seq_canonical(s.subrange(11, 13));
    lemma_digit_seq_canonical(s.subrange(14, 16));
    lemma_digit_seq_canonical(s.subrange(17, 19));
    lemma_digit_seq_canonical(s.subrange(20, 29));
    let h = ts_hour(s);
    let mi = ts_minute(s);
    let sec = ts_second(s);
    let frac = ts_frac(s);
    let dn = day_number(ts_year(s), ts_month(s), ts_day(s));
    let sod = h * 3600 + mi * 60 + sec;
    assert(0 <= sod < 86400);
    assert(0 <= frac < 1_000_000_000);
    assert(t == (dn * 86400 + sod) * 1_000_000_000 + frac);
    vstd::arithmetic::div_mod::lemma_fundamental_div_mod_converse_div(
        t,
        1_000_000_000,
        dn * 86400 + sod,
        frac,
    );
    vstd::arithmetic::div_mod::lemma_fundamental_div_mod_converse_mod(
        t,
        1_000_000_000,
        dn * 86400 + sod,
        frac,
    );
    let q = t / 1_000_000_000;
    assert(q == dn * 86400 + sod);
    vstd::arithmetic::div_mod::lemma_fundamental_div_mod_converse_div(q, 86400, dn, sod);
    vstd::arithmetic::div_mod::lemma_fundamental_div_mod_converse_mod(q, 86400, dn, sod);
    assert(q % 86400 == sod);
    vstd::arithmetic::div_mod::lemma_fundamental_div_mod_converse_div(
        sod,
        3600,
        h,
        mi * 60 + sec,
    );
    vstd::arithmetic::div_mod::lemma_fundamental_div_mod_converse_mod(
        sod,
        3600,
        h,
        mi * 60 + sec,
    );
    vstd::arithmetic::div_mod::lemma_fundamental_div_mod_converse_div(sod % 3600, 60, mi, sec);
    vstd::arithmetic::div_mod::lemma_fundamental_div_mod_converse_mod(sod % 3600, 60, mi, sec);
}

/// Law: the timestamp form is canonical — two character sequences that
/// denote the same instant are the same sequence, so every instant has
/// exactly one rendering and the serialization loses nothing.
pub proof fn lemma_ts_canonical(s1: Seq<char>, s2: Seq<char>, t: int)
    requires
        parse_ts_spec(s1) == Some(t),
        parse_ts_spec(s2) == Some(t),
    ensures
        s1 == s2,
{
    lemma_ts_fields_determined(s1, t);
    lemma_ts_fields_determined(s2, t);
    crate::calendar::lemma_day_number_injective(
        ts_year(s1),
        ts_month(s1),
        ts_day(s1),
        ts_year(s2),
        ts_month(s2),
        ts_day(s2),
    );
    lemma_pow10_values();
    lemma_digit_seq_canonical(s1.subrange(0, 4));
    lemma_digit_seq_canonical(s2.subrange(0, 4));
    lemma_digit_seq_canonical(s1.subrange(5, 7));
    lemma_digit_seq_canonical(s2.subrange(5, 7));
    lemma_digit_seq_canonical(s1.subrange(8, 10));
    lemma_digit_seq_canonical(s2.subrange(8, 10));
    lemma_digit_seq_canonical(s1.subrange(11, 13));
    lemma_digit_seq_canonical(s2.subrange(11, 13));
    lemma_digit_seq_canonical(s1.subrange(14, 16));
    lemma_digit_seq_canonical(s2.subrange(14, 16));
    lemma_digit_seq_canonical(s1.subrange(17, 19));
    lemma_digit_seq_canonical(s2.subrange(17, 19));
    lemma_digit_seq_canonical(s1.subrange(20, 29));
    lemma_digit_seq_canonical(s2.subrange(20, 29));
    assert(s1.subrange(0, 4) == s2.subrange(0, 4));
    assert(s1.subrange(5, 7) == s2.subrange(5, 7));
    assert(s1.subrange(8, 10) == s2.subrange(8, 10));
    assert(s1.subrange(11, 13) == s2.subrange(11, 13));
    assert(s1.subrange(14, 16) == s2.subrange(14, 16));
    assert(s1.subrange(17, 19) == s2.subrange(17, 19));
    assert(s1.subrange(20, 29) == s2.subrange(20, 29));
    assert forall|i: int| 0 <= i < 30 implies s1[i] == s2[i] by {
        if 0 <= i < 4 {
            assert(s1.subrange(0, 4)[i] == s2.subrange(0, 4)[i]);
        } else if 5 <= i < 7 {
            assert(s1.subrange(5, 7)[i - 5] == s2.subrange(5, 7)[i - 5]);
        } else if 8 <= i < 10 {
            assert(s1.subrange(8, 10)[i - 8] == s2.subrange(8, 10)[i - 8]);
        } else if 11 <= i < 13 {
            assert(s1.subrange(11, 13)[i - 11] == s2.subrange(11, 13)[i - 11]);
        } else if 14 <= i < 16 {
            assert(s1.subrange(14, 16)[i - 14] == s2.subrange(14, 16)[i - 14]);
        } else if 17 <= i < 19 {
            assert(s1.subrange(17, 19)[i - 17] == s2.subrange(17, 19)[i - 17]);
        } else if 20 <= i < 29 {
            assert(s1.subrange(20, 29)[i - 20] == s2.subrange(20, 29)[i - 20]);
        }
    };
    assert(s1 =~= s2);
}

/// Writes the instant `t` (nanoseconds since the Unix epoch) in the
/// service's timestamp form. The result always reads back as `t`: the
/// serialization round-trips.
#[verifier::rlimit(50)]
pub fn format_rfc3339(t: i64) -> (r: String)
    ensures
        parse_ts_spec(r@) == Some(t as int),
        r@.len() == 30,
{
    let days = div_floor(t, 86_400_000_000_000);
    let nod: i64 = crate::calendar::mod_floor(t, 86_400_000_000_000);
    proof {
        lemma_fundamental_div_mod(t as int, 86_400_000_000_000);
    }
    let nodu: u64 = nod as u64;
    let sod: u64 = nodu / 1_000_000_000;
    let frac: u64 = nodu % 1_000_000_000;
    let h: u64 = sod / 3600;
    let mi: u64 = (sod % 3600) / 60;
    let sec: u64 = sod % 60;
    let (y, m, d) = civil_from_days(days);
    proof {
        lemma_month_table(y as int);
        crate::calendar::lemma_year_length(y as int);
        assert(days_before_year(y as int) <= days as int);
        assert((days as int) < days_before_year((y as int) + 1));
        if y < 1600 {
            lemma_days_before_year_bounds((y as int) + 1, 1600);
            assert(false);
        }
        if y > 2400 {
            lemma_days_before_year_bounds(2401, y as int);
            assert(false);
        }
        lemma_pow10_values();
        lemma_fixed_digits_value(y as int, 4);
        lemma_fixed_digits_value(m as int, 2);
        lemma_fixed_digits_value(d as int, 2);
        lemma_fixed_digits_value(h as int, 2);
        lemma_fixed_digits_value(mi as int, 2);
        lemma_fixed_digits_value(sec as int, 2);
        lemma_fixed_digits_value(frac as int, 9);
        reveal_strlit("");
        reveal_strlit("-");
        reveal_strlit("T");
        reveal_strlit(":");
        reveal_strlit(".");
        reveal_strlit("Z");
    }
    let mut out = String::from_str("");
    push_fixed(&mut out, y as u64, 4);
    out.append("-");
    push_fixed(&mut out, m as u64, 2);
    out.append("-");
    push_fixed(&mut out, d as u64, 2);
    out.append("T");
    push_fixed(&mut out, h, 2);
    out.append(":");
    push_fixed(&mut out, mi, 2);
    out.append(":");
    push_fixed(&mut out, sec, 2);
    out.append(".");
    push_fixed(&mut out, frac, 9);
    out.append("Z");
    proof {
        let v = out@;
        assert(v.len() == 30);
        assert(v.subrange(0, 4) =~= fixed_digits(y as int, 4));
        assert(v.subrange(5, 7) =~= fixed_digits(m as int, 2));
        assert(v.subrange(8, 10) =~= fixed_digits(d as int, 2));
        assert(v.subrange(11, 13) =~= fixed_digits(h as int, 2));
        assert(v.subrange(14, 16) =~= fixed_digits(mi as int, 2));
        assert(v.subrange(17, 19) =~= fixed_digits(sec as int, 2));
        assert(v.subrange(20, 29) =~= fixed_digits(frac as int, 9));
        assert(ts_shape_ok(v));
        assert(ts_year(v) == y as int);
        assert(ts_month(v) == m as int);
        assert(ts_day(v) == d as int);
        assert(ts_hour(v) == h as int);
        assert(ts_minute(v) == mi as int);
        assert(ts_second(v) == sec as int);
        assert(ts_frac(v) == frac as int);
        assert(ts_fields_ok(v));
        assert(ts_value_ns(v) == t as int);
    }
    out
}

} // verus!
