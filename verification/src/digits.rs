//! Decimal rendering and reading of integers, character by character.

use vstd::prelude::*;
use vstd::arithmetic::div_mod::lemma_fundamental_div_mod;
use vstd::arithmetic::div_mod::lemma_fundamental_div_mod_converse_div;
use vstd::arithmetic::div_mod::lemma_fundamental_div_mod_converse_mod;

verus! {

/// The character of a single decimal digit.
pub open spec fn digit_char(d: int) -> char {
    if d == 0 {
        '0'
    } else if d == 1 {
        '1'
    } else if d == 2 {
        '2'
    } else if d == 3 {
        '3'
    } else if d == 4 {
        '4'
    } else if d == 5 {
        '5'
    } else if d == 6 {
        '6'
    } else if d == 7 {
        '7'
    } else if d == 8 {
        '8'
    } else {
        '9'
    }
}

/// The value of a decimal digit character; -1 for any other character.
pub open spec fn digit_val(c: char) -> int {
    if c == '0' {
        0
    } else if c == '1' {
        1
    } else if c == '2' {
        2
    } else if c == '3' {
        3
    } else if c == '4' {
        4
    } else if c == '5' {
        5
    } else if c == '6' {
        6
    } else if c == '7' {
        7
    } else if c == '8' {
        8
    } else if c == '9' {
        9
    } else {
        -1
    }
}

pub open spec fn is_digit(c: char) -> bool {
    digit_val(c) >= 0
}

pub open spec fn is_digit_seq(s: Seq<char>) -> bool {
    forall|i: int| 0 <= i < s.len() ==> is_digit(#[trigger] s[i])
}

pub open spec fn pow10(w: nat) -> int
    decreases w,
{
    if w == 0 {
        1
    } else {
        10 * pow10((w - 1) as nat)
    }
}

/// The low `w` decimal digits of `n`, zero padded, most significant first.
pub open spec fn fixed_digits(n: int, w: nat) -> Seq<char>
    decreases w,
{
    if w == 0 {
        Seq::empty()
    } else {
        fixed_digits(n / 10, (w - 1) as nat).push(digit_char(n % 10))
    }
}

/// The decimal digits of a nonnegative `n`, without leading zeros.
pub open spec fn nat_digits(n: int) -> Seq<char>
    decreases n,
{
    if n < 10 {
        seq![digit_char(n)]
    } else {
        nat_digits(n / 10).push(digit_char(n % 10))
    }
}

/// The decimal rendering of an integer, with a leading minus when negative.
pub open spec fn int_digits(n: int) -> Seq<char> {
    if n < 0 {
        seq!['-'] + nat_digits(-n)
    } else {
        nat_digits(n)
    }
}

/// The value of a sequence of decimal digit characters.
pub open spec fn digits_value(s: Seq<char>) -> int
    decreases s.len(),
{
    if s.len() == 0 {
        0
    } else {
        digits_value(s.drop_last()) * 10 + digit_val(s.last())
    }
}

/// Reading back the character of a digit gives the digit.
pub proof fn lemma_digit_char_val(d: int)
    requires
        0 <= d <= 9,
    ensures
        is_digit(digit_char(d)),
        digit_val(digit_char(d)) == d,
{
}

/// A fixed-width rendering holds `w` digit characters and reads back to `n`.
pub proof fn lemma_fixed_digits_value(n: int, w: nat)
    requires
        0 <= n < pow10(w),
    ensures
        fixed_digits(n, w).len() == w,
        is_digit_seq(fixed_digits(n, w)),
        digits_value(fixed_digits(n, w)) == n,
    decreases w,
{
    if w == 0 {
        assert(fixed_digits(n, w) =~= Seq::<char>::empty());
    } else {
        let s = fixed_digits(n, w);
        let q = n / 10;
        let r = n % 10;
        lemma_fundamental_div_mod(n, 10);
        assert(q < pow10((w - 1) as nat)) by {
            if q >= pow10((w - 1) as nat) {
                assert(n >= 10 * pow10((w - 1) as nat)) by (nonlinear_arith)
                    requires
                        n == 10 * q + r,
                        r >= 0,
                        q >= pow10((w - 1) as nat),
                ;
            }
        };
        assert(q >= 0) by {
            if q < 0 {
                assert(n < 0) by (nonlinear_arith)
                    requires
                        n == 10 * q + r,
                        r < 10,
                        q <= -1,
                ;
            }
        };
        lemma_fixed_digits_value(q, (w - 1) as nat);
        lemma_digit_char_val(r);
        assert(s.drop_last() =~= fixed_digits(q, (w - 1) as nat));
        assert(digits_value(s) == n);
        assert(forall|i: int|
            0 <= i < s.len() ==> is_digit(
                #[trigger] s[i],
            )) by {
            assert(forall|i: int|
                0 <= i < s.len() - 1 ==> s[i] == fixed_digits(q, (w - 1) as nat)[i]);
        };
    }
}

/// A digit sequence is the fixed-width rendering of its own value: widths
/// equal, values below the width's power of ten, characters recoverable.
pub proof fn lemma_digit_seq_canonical(s: Seq<char>)
    requires
        is_digit_seq(s),
    ensures
        0 <= digits_value(s) < pow10(s.len()),
        fixed_digits(digits_value(s), s.len()) == s,
    decreases s.len(),
{
    if s.len() == 0 {
        assert(fixed_digits(0, 0) =~= s);
    } else {
        let s0 = s.drop_last();
        assert(is_digit_seq(s0)) by {
            assert(forall|i: int| 0 <= i < s0.len() ==> s0[i] == s[i]);
        };
        lemma_digit_seq_canonical(s0);
        let v0 = digits_value(s0);
        let c = s.last();
        assert(is_digit(c));
        let d = digit_val(c);
        let v = digits_value(s);
        assert(v == v0 * 10 + d);
        assert(pow10(s.len()) == 10 * pow10(s0.len()));
        lemma_fundamental_div_mod_converse_div(v, 10, v0, d);
        lemma_fundamental_div_mod_converse_mod(v, 10, v0, d);
        assert(digit_char(d) == c);
        assert(fixed_digits(v, s.len()) == fixed_digits(v0, s0.len()).push(c));
        assert(s0.push(c) =~= s);
    }
}

/// Small powers of ten, spelled out for concrete widths.
pub proof fn lemma_pow10_values()
    ensures
        pow10(0) == 1,
        pow10(1) == 10,
        pow10(2) == 100,
        pow10(3) == 1000,
        pow10(4) == 10000,
        pow10(5) == 100000,
        pow10(6) == 1000000,
        pow10(7) == 10000000,
        pow10(8) == 100000000,
        pow10(9) == 1000000000,
        pow10(10) == 10000000000,
{
    assert(pow10(0) == 1);
    assert(pow10(1) == 10);
    assert(pow10(2) == 100);
    assert(pow10(3) == 1000);
    assert(pow10(4) == 10000);
    assert(pow10(5) == 100000);
    assert(pow10(6) == 1000000);
    assert(pow10(7) == 10000000);
    assert(pow10(8) == 100000000);
    assert(pow10(9) == 1000000000);
    assert(pow10(10) == 10000000000);
}

/// Appends the character of one decimal digit.
pub fn append_digit(s: &mut String, d: u64)
    requires
        d < 10,
    ensures
        final(s)@ == old(s)@ + seq![digit_char(d as int)],
{
    if d == 0 {
        proof {
            reveal_strlit("0");
        }
        s.append("0");
    } else if d == 1 {
        proof {
            reveal_strlit("1");
        }
        s.append("1");
    } else if d == 2 {
        proof {
            reveal_strlit("2");
        }
        s.append("2");
    } else if d == 3 {
        proof {
            reveal_strlit("3");
        }
        s.append("3");
    } else if d == 4 {
        proof {
            reveal_strlit("4");
        }
        s.append("4");
    } else if d == 5 {
        proof {
            reveal_strlit("5");
        }
        s.append("5");
    } else if d == 6 {
        proof {
            reveal_strlit("6");
        }
        s.append("6");
    } else if d == 7 {
        proof {
            reveal_strlit("7");
        }
        s.append("7");
    } else if d == 8 {
        proof {
            reveal_strlit("8");
        }
        s.append("8");
    } else {
        proof {
            reveal_strlit("9");
        }
        s.append("9");
    }
}

/// Appends the low `w` decimal digits of `n`, zero padded.
pub fn push_fixed(s: &mut String, n: u64, w: u64)
    ensures
        final(s)@ == old(s)@ + fixed_digits(n as int, w as nat),
    decreases w,
{
    if w == 0 {
        proof {
            assert(old(s)@ + fixed_digits(n as int, 0) =~= old(s)@);
        }
    } else {
        push_fixed(s, n / 10, w - 1);
        append_digit(s, n % 10);
        proof {
            assert(fixed_digits(n as int, w as nat) =~= fixed_digits(
                n as int / 10,
                (w - 1) as nat,
            ) + seq![digit_char(n as int % 10)]);
            assert(final(s)@ =~= old(s)@ + fixed_digits(n as int, w as nat));
        }
    }
}

/// Appends the decimal digits of `n`, without leading zeros.
pub fn push_nat(s: &mut String, n: u64)
    ensures
        final(s)@ == old(s)@ + nat_digits(n as int),
    decreases n,
{
    if n < 10 {
        append_digit(s, n);
    } else {
        push_nat(s, n / 10);
        append_digit(s, n % 10);
        proof {
            assert(nat_digits(n as int) =~= nat_digits(n as int / 10) + seq![
                digit_char(n as int % 10),
            ]);
            assert(final(s)@ =~= old(s)@ + nat_digits(n as int));
        }
    }
}

/// Appends the decimal rendering of `v`, with a minus sign when negative.
pub fn push_int(s: &mut String, v: i64)
    requires
        v > i64::MIN,
    ensures
        final(s)@ == old(s)@ + int_digits(v as int),
{
    if v < 0 {
        proof {
            reveal_strlit("-");
        }
        s.append("-");
        push_nat(s, (-v) as u64);
        proof {
            assert(final(s)@ =~= old(s)@ + int_digits(v as int));
        }
    } else {
        push_nat(s, v as u64);
    }
}

/// Reads the `w` characters of `s` starting at `start` as a decimal number;
/// `None` exactly when one of them is not a digit.
pub fn read_digits(s: &str, start: usize, w: usize) -> (r: Option<u64>)
    requires
        start + w <= s@.len(),
        start + w <= usize::MAX,
        w <= 18,
    ensures
        match r {
            Some(v) => {
                &&& is_digit_seq(s@.subrange(start as int, start as int + w as int))
                &&& v == digits_value(s@.subrange(start as int, start as int + w as int))
                &&& v < pow10(w as nat)
            },
            None => !is_digit_seq(s@.subrange(start as int, start as int + w as int)),
        },
{
    let mut acc: u64 = 0;
    let mut i: usize = 0;
    proof {
        assert(s@.subrange(start as int, start as int) =~= Seq::<char>::empty());
    }
    while i < w
        invariant
            0 <= i <= w,
            w <= 18,
            start + w <= s@.len(),
            start + w <= usize::MAX,
            is_digit_seq(s@.subrange(start as int, start as int + i as int)),
            acc == digits_value(s@.subrange(start as int, start as int + i as int)),
            acc < pow10(i as nat),
        decreases w - i,
    {
        let c = s.get_char(start + i);
        let d: u64 = match c {
            '0' => 0,
            '1' => 1,
            '2' => 2,
            '3' => 3,
            '4' => 4,
            '5' => 5,
            '6' => 6,
            '7' => 7,
            '8' => 8,
            '9' => 9,
            _ => {
                proof {
                    assert(s@.subrange(start as int, start as int + w as int)[i as int] == c);
                    assert(!is_digit(c));
                }
                return None;
            },
        };
        proof {
            lemma_pow10_bound(i as nat);
            assert(pow10(i as nat + 1) == 10 * pow10(i as nat));
        }
        acc = acc * 10 + d;
        i = i + 1;
        proof {
            let sub1 = s@.subrange(start as int, start as int + i as int);
            assert(sub1.drop_last() =~= s@.subrange(start as int, start as int + i as int - 1));
            assert(sub1.last() == c);
            assert(digit_val(c) == d);
        }
    }
    proof {
        assert(s@.subrange(start as int, start as int + w as int) =~= s@.subrange(
            start as int,
            start as int + i as int,
        ));
    }
    Some(acc)
}

/// Powers of ten up to the eighteenth fit comfortably in a `u64`.
pub proof fn lemma_pow10_bound(w: nat)
    requires
        w <= 18,
    ensures
        0 < pow10(w) <= 1000000000000000000,
{
    lemma_pow10_bound_pos(w);
    lemma_pow10_increases(w, 18);
    assert(pow10(11) == 10 * pow10(10));
    assert(pow10(12) == 10 * pow10(11));
    assert(pow10(13) == 10 * pow10(12));
    assert(pow10(14) == 10 * pow10(13));
    assert(pow10(15) == 10 * pow10(14));
    assert(pow10(16) == 10 * pow10(15));
    assert(pow10(17) == 10 * pow10(16));
    assert(pow10(18) == 10 * pow10(17));
    lemma_pow10_values();
}

/// `pow10` grows with the width.
pub proof fn lemma_pow10_increases(w1: nat, w2: nat)
    requires
        w1 <= w2,
    ensures
        pow10(w1) <= pow10(w2),
    decreases w2 - w1,
{
    if w1 < w2 {
        lemma_pow10_increases(w1, (w2 - 1) as nat);
        lemma_pow10_bound_pos((w2 - 1) as nat);
    }
}

proof fn lemma_pow10_bound_pos(w: nat)
    ensures
        pow10(w) > 0,
    decreases w,
{
    if w > 0 {
        lemma_pow10_bound_pos((w - 1) as nat);
    }
}

} // verus!
