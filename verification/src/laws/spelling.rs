//! How doubles are written.

use crate::exec::text::{
    digits, f64_text, int_text, low_digits, magnitude_text, padded, scaled_down, scaled_up, trimmed, zeros, F_1E14,
    F_1E15, MAX_SCALINGS,
};
use crate::float::{
    f_finite, f_less, f_negated, f_negative, f_of_int, f_product, f_scaled, f_shift, f_significand, f_sum, f_units,
    f_whole, F_HALF, F_TEN, F_ZERO,
};
use crate::laws::rounding::{
    doubles_are_ordered_as_numbers, exact_products_are_kept, exact_sums_are_kept, lemma_short_number, lemma_ten,
    lemma_zero, short_numbers_are_exact, ten_to, unit,
};
use crate::laws::sampling::lemma_half;
use crate::order::f64_magnitude;
use vstd::arithmetic::power2::{lemma_pow2_adds, lemma_pow2_pos, lemma_pow2_unfold, pow2};
use vstd::prelude::*;

verus! {

proof fn lemma_bounds_of_scaling()
    ensures
        f_finite(F_1E15),
        f_finite(F_1E14),
        f_scaled(F_1E15) == 1_000_000_000_000_000 * unit(),
        f_scaled(F_1E14) == 100_000_000_000_000 * unit(),
{
    vstd::arithmetic::power2::lemma2_to64();
    assert(F_1E15 / 0x10_0000_0000_0000 == 1072);
    assert(f_shift(F_1E15) == 1071);
    assert(f_significand(F_1E15) == 8 * 1_000_000_000_000_000);
    lemma_pow2_adds(3, 1071);
    assert(F_1E14 / 0x10_0000_0000_0000 == 1069);
    assert(f_shift(F_1E14) == 1068);
    assert(f_significand(F_1E14) == 64 * 100_000_000_000_000);
    lemma_pow2_adds(6, 1068);
    let p = pow2(1071);
    let q = pow2(1068);
    assert((8 * 1_000_000_000_000_000) * p == 1_000_000_000_000_000 * (8 * p));
    assert((64 * 100_000_000_000_000) * q == 100_000_000_000_000 * (64 * q));
}

proof fn lemma_less_whole(a: u64, b: u64, x: int, y: int)
    requires
        f_finite(a),
        f_finite(b),
        f_scaled(a) == x * unit(),
        f_scaled(b) == y * unit(),
    ensures
        f_less(a, b) == (x < y),
{
    doubles_are_ordered_as_numbers(a, b);
    let u = unit();
    lemma_pow2_pos(1074);
    assert((x * u < y * u) == (x < y)) by (nonlinear_arith)
        requires
            u > 0,
    ;
}

/// Scaling up a whole number multiplies it by ten until it has fifteen digits.
proof fn lemma_scaled_up(m: u64, e: int, k: nat, x: int, j: nat)
    requires
        f_finite(m),
        f_scaled(m) == x * unit(),
        0 < x < 1_000_000_000_000_000,
        100_000_000_000_000 <= x * ten_to(j) < 1_000_000_000_000_000,
        j <= k,
    ensures
        f_finite(scaled_up(m, e, k).0),
        f_scaled(scaled_up(m, e, k).0) == x * ten_to(j) * unit(),
        scaled_up(m, e, k).1 == e - j,
    decreases k,
{
    lemma_bounds_of_scaling();
    lemma_less_whole(m, F_1E14, x, 100_000_000_000_000);
    if j == 0 {
        assert(ten_to(0) == 1);
        assert(x * 1 == x);
    } else {
        let t = ten_to((j - 1) as nat);
        assert(ten_to(j) == 10 * t);
        assert(x * (10 * t) == (10 * x) * t) by (nonlinear_arith);
        lemma_ten_at_least_one((j - 1) as nat);
        assert(10 * x <= (10 * x) * t) by (nonlinear_arith)
            requires
                x > 0,
                t >= 1,
        ;
        assert(x < 100_000_000_000_000);
        lemma_ten();
        short_numbers_are_exact(10 * x);
        let u = unit();
        assert(u * ((10 * x) * u) == (x * u) * (10 * u)) by (nonlinear_arith);
        exact_products_are_kept(m, F_TEN, f_of_int(10 * x));
        lemma_scaled_up(f_product(m, F_TEN), e - 1, (k - 1) as nat, 10 * x, (j - 1) as nat);
    }
}

proof fn lemma_ten_at_least_one(n: nat)
    ensures
        ten_to(n) >= 1,
    decreases n,
{
    if n > 0 {
        lemma_ten_at_least_one((n - 1) as nat);
    }
}

/// The digits of a number, counted out.
proof fn lemma_low_digits(x: nat, d: nat)
    requires
        d > 0,
        x < ten_to(d),
        d > 1 ==> x >= ten_to((d - 1) as nat),
    ensures
        low_digits(x, d) == digits(x),
        digits(x).len() == d,
    decreases d,
{
    assert(ten_to(d) == 10 * ten_to((d - 1) as nat));
    if d == 1 {
        assert(ten_to(0) == 1);
        assert(low_digits(x / 10, 0) =~= Seq::<u8>::empty());
        assert(low_digits(x, 1) =~= digits(x));
    } else {
        if d > 2 {
            assert(ten_to((d - 1) as nat) == 10 * ten_to((d - 2) as nat));
        } else {
            assert(ten_to(1) == 10 * ten_to(0));
            assert(ten_to(0) == 1);
        }
        lemma_low_digits(x / 10, (d - 1) as nat);
    }
}

/// Multiplying by ten adds a zero.
proof fn lemma_low_digits_scaled(x: nat, d: nat, j: nat)
    ensures
        x * ten_to(j) >= 0,
        low_digits((x * ten_to(j)) as nat, d + j) == low_digits(x, d) + zeros(j),
    decreases j,
{
    lemma_ten_at_least_one(j);
    let t = ten_to(j);
    let xi = x as int;
    assert(xi * t >= 0) by (nonlinear_arith)
        requires
            xi >= 0,
            t >= 1,
    ;
    if j == 0 {
        assert(xi * 1 == xi);
        assert(low_digits(x, d) + zeros(0) =~= low_digits(x, d));
    } else {
        let s = ten_to((j - 1) as nat);
        lemma_low_digits_scaled(x, d, (j - 1) as nat);
        assert(xi * (10 * s) == 10 * (xi * s)) by (nonlinear_arith);
        let n = (x * t) as nat;
        assert(n / 10 == xi * s && n % 10 == 0);
        assert(zeros(j) =~= zeros((j - 1) as nat).push(48));
        assert(low_digits(n, d + j) == low_digits(n / 10, (d + j - 1) as nat).push(48));
        assert(low_digits(x, d) + zeros(j) =~= (low_digits(x, d) + zeros((j - 1) as nat)).push(48));
    }
}

/// Trimming takes zeros off the end.
proof fn lemma_trimmed(d: Seq<u8>)
    requires
        d.len() > 0,
    ensures
        0 < trimmed(d).len() <= d.len(),
        d == trimmed(d) + zeros((d.len() - trimmed(d).len()) as nat),
    decreases d.len(),
{
    if d.len() > 1 && d.last() == 48 {
        let f = d.drop_last();
        lemma_trimmed(f);
        let k = (f.len() - trimmed(f).len()) as nat;
        assert(zeros(k + 1) =~= zeros(k).push(48));
        assert(d =~= f.push(48));
        assert(f.push(48) =~= trimmed(f) + zeros(k).push(48));
        assert(trimmed(d) == trimmed(f));
        assert(d.len() - trimmed(d).len() == k + 1);
    } else {
        assert(d =~= d + zeros(0));
    }
}

proof fn lemma_trimmed_zeros(d: Seq<u8>, j: nat)
    requires
        d.len() > 0,
    ensures
        trimmed(d + zeros(j)) == trimmed(d),
    decreases j,
{
    if j == 0 {
        assert(d + zeros(0) =~= d);
    } else {
        let all = d + zeros(j);
        assert(all.drop_last() =~= d + zeros((j - 1) as nat));
        assert(all.last() == 48);
        lemma_trimmed_zeros(d, (j - 1) as nat);
    }
}

/// How many tens make a number have fifteen digits.
proof fn lemma_tens(x: int, d: nat) -> (j: nat)
    requires
        0 < d <= 15,
        x < ten_to(d),
        x >= ten_to((d - 1) as nat),
    ensures
        j == 15 - d,
        100_000_000_000_000 <= x * ten_to(j) < 1_000_000_000_000_000,
    decreases 15 - d,
{
    reveal_with_fuel(ten_to, 16);
    if d == 15 {
        assert(ten_to(0) == 1);
        assert(x * 1 == x);
        0
    } else {
        assert(ten_to(d + 1) == 10 * ten_to(d));
        assert(ten_to(d) == 10 * ten_to((d - 1) as nat));
        let j = lemma_tens(10 * x, d + 1);
        let t = ten_to(j);
        assert(x * (10 * t) == (10 * x) * t) by (nonlinear_arith);
        assert(ten_to(j + 1) == 10 * t);
        j + 1
    }
}

proof fn lemma_length(x: int, d: nat) -> (r: nat)
    requires
        0 < x < ten_to(d),
        d <= 15,
    ensures
        0 < r <= d,
        x < ten_to(r),
        x >= ten_to((r - 1) as nat),
    decreases d,
{
    assert(ten_to(0) == 1);
    if x >= ten_to((d - 1) as nat) {
        d
    } else {
        lemma_length(x, (d - 1) as nat)
    }
}

proof fn lemma_magnitude(v: u64, x: int)
    requires
        f_finite(v),
        f_scaled(v) == x * unit(),
        0 < x < 1_000_000_000_000_000,
    ensures
        magnitude_text(v) == digits(x as nat),
{
    lemma_bounds_of_scaling();
    lemma_less_whole(v, F_1E15, x, 1_000_000_000_000_000);
    assert(scaled_down(v, 0, MAX_SCALINGS as nat) == (v, 0int));
    reveal_with_fuel(ten_to, 16);
    assert(ten_to(15) == 1_000_000_000_000_000);
    let d = lemma_length(x, 15);
    let j = lemma_tens(x, d);
    lemma_scaled_up(v, 0, MAX_SCALINGS as nat, x, j);
    let up = scaled_up(v, 0, MAX_SCALINGS as nat);
    let m = x * ten_to(j);
    lemma_rounded_off(up.0, m);
    let ds = digits(x as nat);
    lemma_low_digits(x as nat, d);
    lemma_low_digits_scaled(x as nat, d, j);
    assert(low_digits(m as nat, 15) == ds + zeros(j));
    lemma_trimmed_zeros(ds, j);
    lemma_trimmed(ds);
}

/// Half is added and the fraction cut off: a whole number stays.
proof fn lemma_rounded_off(v: u64, m: int)
    requires
        f_finite(v),
        f_scaled(v) == m * unit(),
        0 <= m < 1_000_000_000_000_000,
    ensures
        f_whole(f_sum(v, F_HALF)) == m,
{
    let u = unit();
    lemma_pow2_pos(1074);
    lemma_half();
    let p = pow2(1073) as int;
    lemma_pow2_pos(1073);
    lemma_pow2_unfold(1074);
    let c = lemma_short_number((2 * m + 1) as nat, 1073);
    assert((2 * m + 1) * p == m * u + p) by (nonlinear_arith)
        requires
            u == 2 * p,
    ;
    exact_sums_are_kept(v, F_HALF, c);
    let s = f_sum(v, F_HALF);
    reveal(f_whole);
    assert(m * u >= 0) by (nonlinear_arith)
        requires
            m >= 0,
            u > 0,
    ;
    assert(!f_negative(s)) by {
        if f_negative(s) {
            assert(f_scaled(s) <= 0);
        }
    }
    vstd::arithmetic::div_mod::lemma_fundamental_div_mod_converse(f_units(s) as int, u, m, p);
}

/// A double that stands for a whole number of up to fifteen digits is written as that number.
pub proof fn whole_doubles_are_written_as_whole_numbers(k: int)
    requires
        -1_000_000_000_000_000 < k < 1_000_000_000_000_000,
    ensures
        f64_text(f_of_int(k)) == int_text(k, 0),
{
    let v = f_of_int(k);
    short_numbers_are_exact(k);
    lemma_zero(F_ZERO);
    let u = unit();
    lemma_pow2_pos(1074);
    assert(0 * u == 0) by (nonlinear_arith);
    lemma_less_whole(v, F_ZERO, k, 0);
    let n: nat = (if k < 0 {
        -k
    } else {
        k
    }) as nat;
    let d = digits(n);
    assert(d.len() > 0);
    assert(padded(d, 1) == d);
    if k == 0 {
        if f64_magnitude(v) != 0 {
            crate::laws::rounding::lemma_nonzero(v);
        }
        assert(d =~= seq![48u8]);
        assert(int_text(k, 0) =~= seq![48u8]);
    } else {
        if f64_magnitude(v) == 0 {
            lemma_zero(v);
            assert(k * u != 0) by (nonlinear_arith)
                requires
                    k != 0,
                    u > 0,
            ;
        }
        if k < 0 {
            let w = f_negated(v);
            assert(f_units(w) == f_units(v));
            assert((-k) * u == -(k * u)) by (nonlinear_arith);
            lemma_magnitude(w, -k);
            assert(int_text(k, 0) =~= seq![45u8] + d);
        } else {
            lemma_magnitude(v, k);
            assert(int_text(k, 0) =~= d);
        }
    }
}

} // verus!
