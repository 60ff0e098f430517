//! Compact token counts (`1.2k`, `3.4M`) as the dashboard prints them.
//!
//! The figure is computed the way `format!("{:.1}", n as f64 / 1e6)` does
//! it, in exact integer arithmetic: `n` is rounded to the nearest double,
//! the quotient is rounded to the nearest double, and that double is
//! rounded to one decimal place with ties to even.
use vstd::prelude::*;
use vstd::arithmetic::power2::{
    lemma2_to64, lemma2_to64_rest, lemma_pow2_adds, lemma_pow2_pos, lemma_pow2_strictly_increases,
    lemma_pow2_unfold, pow2,
};
use crate::text::{decimal, decimal_chars, digit_char, string_of};

verus! {

/// `num / den` rounded to the nearest integer, ties to the even one.
pub open spec fn round_even(num: nat, den: nat) -> nat {
    let q = num / den;
    let r = num % den;
    if 2 * r < den {
        q
    } else if 2 * r > den {
        q + 1
    } else if q % 2 == 0 {
        q
    } else {
        q + 1
    }
}

/// The base-2 logarithm of `m`, rounded down (0 for `m < 2`).
pub open spec fn ilog2(m: nat) -> nat
    decreases m,
{
    if m < 2 {
        0
    } else {
        1 + ilog2(m / 2)
    }
}

/// The value of `n as f64`: `n` itself when it has at most 53 significant
/// bits, else `n` rounded to 53 significant bits, ties to even.
pub open spec fn u64_as_double(n: nat) -> nat {
    let l = ilog2(n);
    if l <= 52 {
        n
    } else {
        round_even(n, pow2((l - 52) as nat)) * pow2((l - 52) as nat)
    }
}

/// Ten times the double nearest to `a / d`, rounded to an integer with ties
/// to even: the figure, in tenths, that `{:.1}` prints for the quotient
/// `a as f64 / d as f64` (for `a >= d > 0`).
pub open spec fn quotient_tenths(a: nat, d: nat) -> nat {
    let l = ilog2(a / d);
    if l <= 52 {
        let s = pow2((52 - l) as nat);
        round_even(10 * round_even(a * s, d), s)
    } else {
        let s = pow2((l - 52) as nat);
        10 * round_even(a, d * s) * s
    }
}

/// A figure given in tenths, written with one decimal place.
pub open spec fn one_decimal(t: nat) -> Seq<char> {
    decimal(t / 10) + seq!['.', digit_char(t % 10)]
}

/// How the dashboard writes the count `n`: with one decimal in millions
/// (`M`) from a million on, in thousands (`k`) from a thousand on, else in
/// full.
pub open spec fn fmt_num_spec(n: nat) -> Seq<char> {
    if n >= 1_000_000 {
        one_decimal(quotient_tenths(u64_as_double(n), 1_000_000)).push('M')
    } else if n >= 1000 {
        one_decimal(quotient_tenths(u64_as_double(n), 1000)).push('k')
    } else {
        decimal(n)
    }
}

proof fn lemma_ilog2_bounds(m: nat)
    requires
        m >= 1,
    ensures
        pow2(ilog2(m)) <= m < pow2(ilog2(m) + 1),
    decreases m,
{
    if m < 2 {
        lemma2_to64();
    } else {
        lemma_ilog2_bounds(m / 2);
        lemma_pow2_unfold(ilog2(m));
        lemma_pow2_unfold(ilog2(m) + 1);
    }
}

proof fn lemma_ilog2_below(m: nat, k: nat)
    requires
        1 <= m < pow2(k),
    ensures
        ilog2(m) < k,
{
    lemma_ilog2_bounds(m);
    if ilog2(m) >= k {
        if ilog2(m) > k {
            lemma_pow2_strictly_increases(k, ilog2(m));
        }
    }
}

fn ilog2_exec(x: u128) -> (r: u32)
    requires
        x >= 1,
    ensures
        r == ilog2(x as nat),
        r < 128,
{
    let mut y = x;
    let mut l: u32 = 0;
    proof {
        lemma2_to64();
        lemma2_to64_rest();
        lemma_pow2_adds(64, 64);
        lemma_ilog2_below(x as nat, 128);
    }
    while y >= 2
        invariant
            y >= 1,
            ilog2(x as nat) == l + ilog2(y as nat),
            l + ilog2(y as nat) < 128,
        decreases y,
    {
        y = y / 2;
        l = l + 1;
    }
    proof {
        lemma2_to64();
        lemma2_to64_rest();
        lemma_pow2_adds(64, 64);
        lemma_ilog2_below(x as nat, 128);
    }
    l
}

proof fn lemma_pow2_128()
    ensures
        pow2(128) == 0x1_0000_0000_0000_0000_0000_0000_0000_0000nat,
{
    lemma2_to64_rest();
    lemma_pow2_adds(64, 64);
}

fn pow2_exec(k: u32) -> (r: u128)
    requires
        k < 128,
    ensures
        r == pow2(k as nat),
{
    let mut r: u128 = 1;
    proof {
        lemma2_to64();
    }
    for i in 0..k
        invariant
            k < 128,
            r == pow2(i as nat),
    {
        proof {
            lemma_pow2_unfold((i + 1) as nat);
            lemma_pow2_128();
            lemma_pow2_strictly_increases((i + 1) as nat, 128);
        }
        r = r * 2;
    }
    r
}

fn round_even_exec(num: u128, den: u128) -> (r: u128)
    requires
        0 < den < 0x8000_0000_0000_0000_0000_0000_0000_0000u128,
        num < 0x8000_0000_0000_0000_0000_0000_0000_0000u128,
    ensures
        r == round_even(num as nat, den as nat),
        r <= num / den + 1,
{
    let q = num / den;
    let rem = num % den;
    assert(q <= num) by (nonlinear_arith)
        requires
            q == num / den,
            den >= 1,
    ;
    if 2 * rem < den {
        q
    } else if 2 * rem > den {
        q + 1
    } else if q % 2 == 0 {
        q
    } else {
        q + 1
    }
}

/// The value of `n as f64` (see [`u64_as_double`]).
fn as_double(n: u64) -> (r: u128)
    requires
        n >= 1,
    ensures
        r == u64_as_double(n as nat),
        r <= 0x2_0000_0000_0000_0000u128,
{
    let l = ilog2_exec(n as u128);
    proof {
        lemma2_to64();
        lemma2_to64_rest();
        lemma_ilog2_below(n as nat, 64);
    }
    if l <= 52 {
        n as u128
    } else {
        let s = pow2_exec(l - 52);
        proof {
            lemma_pow2_strictly_increases((l - 52) as nat, 12);
        }
        let nn = n as u128;
        let m = round_even_exec(nn, s);
        proof {
            let x = nn as int;
            let y = s as int;
            let mm = m as int;
            assert(mm * y <= x + y) by (nonlinear_arith)
                requires
                    mm <= x / y + 1,
                    y > 0,
                    x >= 0,
            ;
        }
        m * s
    }
}

/// The tenths that `{:.1}` prints for `a as f64 / d as f64` (see
/// [`quotient_tenths`]).
fn quotient_tenths_exec(a: u128, d: u128) -> (t: u128)
    requires
        1 <= d <= 1_000_000,
        d <= a <= 0x2_0000_0000_0000_0000u128,
    ensures
        t == quotient_tenths(a as nat, d as nat),
{
    assert(a / d >= 1) by (nonlinear_arith)
        requires
            d <= a,
            d >= 1,
    ;
    assert(a / d <= a) by (nonlinear_arith)
        requires
            d >= 1,
    ;
    let l = ilog2_exec(a / d);
    proof {
        lemma2_to64();
        lemma2_to64_rest();
        lemma_pow2_unfold(65);
        lemma_pow2_unfold(66);
        assert(pow2(66) == 0x4_0000_0000_0000_0000nat);
        lemma_ilog2_below((a / d) as nat, 66);
    }
    if l <= 52 {
        let s = pow2_exec(52 - l);
        proof {
            if 52 - l < 52 {
                lemma_pow2_strictly_increases((52 - l) as nat, 52);
            }
        }
        assert(a * s <= 0x2_0000_0000_0000_0000u128 * 0x10_0000_0000_0000u128) by (nonlinear_arith)
            requires
                a <= 0x2_0000_0000_0000_0000u128,
                s <= 0x10_0000_0000_0000u128,
        ;
        let prod = a * s;
        let m = round_even_exec(prod, d);
        proof {
            let x = prod as int;
            let dd = d as int;
            assert(x / dd <= x) by (nonlinear_arith)
                requires
                    dd >= 1,
                    x >= 0,
            ;
        }
        proof {
            lemma_pow2_pos((52 - l) as nat);
        }
        let t = round_even_exec(10 * m, s);
        t
    } else {
        let s = pow2_exec(l - 52);
        proof {
            lemma_pow2_strictly_increases((l - 52) as nat, 14);
            lemma_pow2_pos((l - 52) as nat);
            assert(s < 0x4000);
            assert(d * s <= 1_000_000 * 0x4000 && d * s >= 1) by (nonlinear_arith)
                requires
                    1 <= d <= 1_000_000,
                    1 <= s < 0x4000,
            ;
        }
        let ds = d * s;
        let m = round_even_exec(a, ds);
        proof {
            let x = a as int;
            let y = ds as int;
            assert(x / y <= x) by (nonlinear_arith)
                requires
                    y >= 1,
                    x >= 0,
            ;
            assert(10 * m * s <= 10 * (x + 1) * 0x4000) by (nonlinear_arith)
                requires
                    m <= x + 1,
                    s <= 0x4000,
                    m >= 0,
                    s >= 0,
            ;
        }
        10 * m * s
    }
}

/// `t` tenths written with one decimal place, followed by `unit`.
fn write_tenths(t: u128, unit: char) -> (r: String)
    ensures
        r@ == one_decimal(t as nat).push(unit),
{
    let mut cs = decimal_chars(t / 10);
    cs.push('.');
    let d = (t % 10) as u8;
    cs.push((d + 48u8) as char);
    cs.push(unit);
    string_of(&cs)
}

/// The count `n` as the dashboard writes it (see [`fmt_num_spec`]).
pub fn fmt_num(n: u64) -> (r: String)
    ensures
        r@ == fmt_num_spec(n as nat),
{
    if n >= 1_000_000 {
        let a = as_double(n);
        proof {
            assert(u64_as_double(n as nat) >= 1_000_000) by {
                lemma_double_at_least(n as nat, 1_000_000);
            }
        }
        write_tenths(quotient_tenths_exec(a, 1_000_000), 'M')
    } else if n >= 1000 {
        let a = as_double(n);
        proof {
            lemma_double_at_least(n as nat, 1000);
        }
        write_tenths(quotient_tenths_exec(a, 1000), 'k')
    } else {
        string_of(&decimal_chars(n as u128))
    }
}

proof fn lemma_double_at_least(n: nat, b: nat)
    requires
        n >= b,
        b <= 1_000_000,
    ensures
        u64_as_double(n) >= b,
{
    lemma2_to64();
    lemma2_to64_rest();
    let l = ilog2(n);
    if l > 52 {
        lemma_ilog2_bounds(n);
        let s = pow2((l - 52) as nat);
        lemma_pow2_pos((l - 52) as nat);
        lemma_pow2_adds((l - 52) as nat, 52);
        assert(n / s >= pow2(52)) by (nonlinear_arith)
            requires
                n >= pow2(l),
                pow2(l) == s * pow2(52),
                s > 0,
        ;
        assert(round_even(n, s) * s >= pow2(52)) by (nonlinear_arith)
            requires
                round_even(n, s) >= n / s,
                n / s >= pow2(52),
                s >= 1,
        ;
    }
}

} // verus!
