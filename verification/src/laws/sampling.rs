//! What samples hold.

use crate::exec::sample::{drawn, drawn_fraction, lucky, probability, rng_after, rng_start, wanted_rows, F_2M53};
use crate::float::{
    f_finite, f_less, f_negative, f_of_int, f_quotient, f_scaled, f_significand, f_shift, f_sum, f_units, f_whole,
    rounded, F_HALF, F_HUNDRED, F_ONE, F_ZERO,
};
use crate::laws::rounding::{
    doubles_are_ordered_as_numbers, exact_products_are_kept, exact_sums_are_kept, gap, lemma_not_infinite,
    lemma_short_number, lemma_signed, lemma_zero, quotients_are_nearest, short_numbers_are_exact, unit,
};
use crate::laws::elements::lemma_shrink;
use crate::order::f64_magnitude;
use vstd::arithmetic::power2::{lemma_pow2_adds, lemma_pow2_pos, lemma_pow2_unfold, pow2};
use vstd::prelude::*;

verus! {

/// The generator never comes to a stop: no state is followed by zero but zero, and it does not
/// start at zero.
pub proof fn the_generator_does_not_stop(x: u64, k: nat)
    requires
        x != 0,
    ensures
        rng_after(x, k) != 0,
        rng_start(x) == x,
        rng_start(0) != 0,
    decreases k,
{
    if k > 0 {
        the_generator_does_not_stop(x, (k - 1) as nat);
        let s = rng_after(x, (k - 1) as nat);
        let a = s ^ (s >> 12);
        let b = a ^ (a << 25);
        let c = b ^ (b >> 27);
        assert(s ^ (s >> 12) == 0 ==> s == 0) by (bit_vector);
        assert(a ^ (a << 25) == 0 ==> a == 0) by (bit_vector);
        assert(b ^ (b >> 27) == 0 ==> b == 0) by (bit_vector);
    }
}

proof fn lemma_small_power()
    ensures
        f_units(F_2M53) == pow2(1021),
        f_finite(F_2M53),
        !f_negative(F_2M53),
        unit() == 0x20_0000_0000_0000 * pow2(1021),
{
    vstd::arithmetic::power2::lemma2_to64_rest();
    assert(F_2M53 / 0x10_0000_0000_0000 == 970);
    assert(F_2M53 % 0x10_0000_0000_0000 == 0);
    assert(f_shift(F_2M53) == 969);
    lemma_pow2_adds(52, 969);
    lemma_pow2_adds(53, 1021);
}

/// A number drawn is from 0 up to, but not including, 1.
pub proof fn a_draw_is_below_one(x: u64, k: nat)
    ensures
        f_finite(drawn_fraction(x, k)),
        0 <= f_scaled(drawn_fraction(x, k)) < unit(),
        !f_less(drawn_fraction(x, k), F_ZERO),
        f_less(drawn_fraction(x, k), F_ONE),
{
    let d = drawn(x, k);
    let m = (d >> 11) as int;
    assert(d >> 11 < 0x20_0000_0000_0000) by (bit_vector);
    short_numbers_are_exact(m);
    lemma_small_power();
    let u = unit();
    let p = pow2(1021) as int;
    lemma_pow2_pos(1021);
    let c = lemma_short_number(m as nat, 1021);
    assert(u * (m * p) == (m * u) * p) by (nonlinear_arith);
    exact_products_are_kept(f_of_int(m), F_2M53, c);
    assert(0 <= m * p && m * p < 0x20_0000_0000_0000 * p) by (nonlinear_arith)
        requires
            0 <= m < 0x20_0000_0000_0000,
            p > 0,
    ;
    lemma_zero(F_ZERO);
    crate::laws::rounding::lemma_one();
    let v = drawn_fraction(x, k);
    doubles_are_ordered_as_numbers(v, F_ZERO);
    doubles_are_ordered_as_numbers(v, F_ONE);
}

proof fn lemma_hundred()
    ensures
        f_units(F_HUNDRED) == 100 * unit(),
        f_finite(F_HUNDRED),
        !f_negative(F_HUNDRED),
{
    vstd::arithmetic::power2::lemma2_to64();
    vstd::arithmetic::power2::lemma2_to64_rest();
    assert(F_HUNDRED / 0x10_0000_0000_0000 == 1029);
    assert(F_HUNDRED % 0x10_0000_0000_0000 == 0x9_0000_0000_0000);
    assert(f_shift(F_HUNDRED) == 1028);
    assert(f_significand(F_HUNDRED) == 0x19_0000_0000_0000);
    lemma_pow2_adds(48, 1028);
    lemma_pow2_adds(2, 1074);
    assert(pow2(48) == 0x1_0000_0000_0000);
    let p = pow2(1028);
    assert(0x19_0000_0000_0000 * p == 25 * (0x1_0000_0000_0000 * p));
}

/// The probability of a whole percentage of up to 100 is the double nearest to that many
/// hundredths; that of more is 1.
pub proof fn percentages_are_hundredths(m: int, c: u64)
    requires
        0 <= m < 0x20_0000_0000_0000,
        f_finite(c),
    ensures
        f_finite(probability(f_of_int(m))),
        m <= 100 ==> gap(100 * f_scaled(probability(f_of_int(m))), m * unit()) <= gap(100 * f_scaled(c), m * unit()),
        m >= 100 ==> f_scaled(probability(f_of_int(m))) == unit(),
{
    crate::laws::rounding::lemma_one();
    if m >= 100 {
        lemma_at_least_one(m);
    } else {
        let a = f_of_int(m);
        let q = f_quotient(a, F_HUNDRED);
        let u = unit();
        lemma_pow2_pos(1074);
        lemma_hundred();
        short_numbers_are_exact(m);
        lemma_zero(F_ZERO);
        lemma_finite(m);
        if f64_magnitude(F_HUNDRED) == 0 {
            lemma_zero(F_HUNDRED);
        }
        quotients_are_nearest(a, F_HUNDRED, c);
        quotients_are_nearest(a, F_HUNDRED, F_ONE);
        quotients_are_nearest(a, F_HUNDRED, F_ZERO);
        let s = f_scaled(q);
        let z = f_scaled(c);
        let h = 100 * u;
        assert(h * s == u * (100 * s) && h * z == u * (100 * z) && h * u == u * (100 * u) && h * 0 == u * 0) by (nonlinear_arith)
            requires
                h == 100 * u,
        ;
        lemma_shrink(u, 100 * s, m * u);
        lemma_shrink(u, 100 * z, m * u);
        lemma_shrink(u, 100 * u, m * u);
        lemma_shrink(u, 0, m * u);
        assert(gap(100 * s, m * u) <= gap(100 * z, m * u) && gap(100 * s, m * u) <= gap(100 * u, m * u) && gap(100 * s, m * u)
            <= gap(0, m * u)) by (nonlinear_arith)
            requires
                u * gap(100 * s, m * u) <= u * gap(100 * z, m * u),
                u * gap(100 * s, m * u) <= u * gap(100 * u, m * u),
                u * gap(100 * s, m * u) <= u * gap(0, m * u),
                u > 0,
        ;
        assert(0 <= m * u <= 100 * u) by (nonlinear_arith)
            requires
                0 <= m <= 100,
                u > 0,
        ;
        assert(0 <= s <= u);
        doubles_are_ordered_as_numbers(q, F_ZERO);
        doubles_are_ordered_as_numbers(F_ONE, q);
    }
}

proof fn lemma_finite(m: int)
    requires
        0 <= m < 100,
    ensures
        f_finite(f_quotient(f_of_int(m), F_HUNDRED)),
{
    reveal(f_quotient);
    let u = pow2(1074) as int;
    lemma_pow2_pos(1074);
    lemma_hundred();
    short_numbers_are_exact(m);
    if f64_magnitude(F_HUNDRED) == 0 {
        lemma_zero(F_HUNDRED);
    }
    let n = (m * u) * u;
    let d = 100 * u;
    vstd::arithmetic::power2::lemma_pow2_strictly_increases(1074, 2000);
    assert(0 <= n && 0 <= m * u && n < d * pow2(2000)) by (nonlinear_arith)
        requires
            n == (m * u) * u,
            d == 100 * u,
            0 <= m < 100,
            0 < u < pow2(2000),
    ;
    lemma_not_infinite(n as nat, d as nat);
    lemma_signed(false, rounded(n as nat, d as nat));
}

/// `m / 100` with `m` at least 100 is not rounded below one.
proof fn lemma_at_least_one(m: int)
    requires
        100 <= m < 0x20_0000_0000_0000,
    ensures
        f_scaled(probability(f_of_int(m))) == unit(),
        f_finite(probability(f_of_int(m))),
{
    let a = f_of_int(m);
    let q = f_quotient(a, F_HUNDRED);
    short_numbers_are_exact(m);
    lemma_hundred();
    lemma_zero(F_ZERO);
    crate::laws::rounding::lemma_one();
    let u = unit();
    lemma_pow2_pos(1074);
    if f64_magnitude(F_HUNDRED) == 0 {
        lemma_zero(F_HUNDRED);
    }
    if f_finite(q) {
        crate::laws::rounding::quotients_are_nearest(a, F_HUNDRED, F_ONE);
        let s = f_scaled(q);
        let h = 100 * u;
        assert(h * u == u * h && u * (m * u) >= u * h) by (nonlinear_arith)
            requires
                h == 100 * u,
                m >= 100,
                u > 0,
        ;
        if s < u {
            assert(h * s < h * u) by (nonlinear_arith)
                requires
                    s < u,
                    h > 0,
            ;
            assert(false);
        }
        doubles_are_ordered_as_numbers(q, F_ZERO);
        doubles_are_ordered_as_numbers(F_ONE, q);
        if s != u {
            assert(f_less(F_ONE, q));
        }
    } else {
        reveal(f_quotient);
        doubles_are_ordered_as_numbers(F_ONE, q);
        assert(!f_negative(q));
        assert(f64_magnitude(q) == 0x7ff0_0000_0000_0000);
        assert(f_less(F_ONE, q));
    }
}

/// A sample of a percentage keeps no row with probability 0, every row with probability 1, and
/// with a greater probability every row that it keeps with a smaller one.
pub proof fn samples_grow_with_the_probability(state: u64, p: u64, q: u64, n: nat, i: int)
    requires
        0 <= i < n,
        f_finite(p),
        f_finite(q),
        f_scaled(p) <= f_scaled(q),
    ensures
        lucky(state, p, n).len() == n,
        f_scaled(p) <= 0 ==> !lucky(state, p, n)[i],
        f_scaled(p) >= unit() ==> lucky(state, p, n)[i],
        lucky(state, p, n)[i] ==> lucky(state, q, n)[i],
{
    let x = drawn_fraction(state, (i + 1) as nat);
    a_draw_is_below_one(state, (i + 1) as nat);
    doubles_are_ordered_as_numbers(x, p);
    doubles_are_ordered_as_numbers(x, q);
}

/// The rows wanted of a whole number are that many; no rows are wanted of less than nothing.
pub proof fn whole_amounts_of_rows_are_wanted(m: int)
    requires
        -0x10_0000_0000_0000 < m < 0x10_0000_0000_0000,
    ensures
        wanted_rows(f_of_int(m)) == if m < 0 {
            0
        } else {
            m
        },
{
    let a = f_of_int(m);
    short_numbers_are_exact(m);
    lemma_zero(F_ZERO);
    doubles_are_ordered_as_numbers(F_ZERO, a);
    let u = unit();
    lemma_pow2_pos(1074);
    lemma_half();
    let k: int = if m < 0 {
        0
    } else {
        m
    };
    let x: u64 = if f_less(F_ZERO, a) {
        a
    } else {
        F_ZERO
    };
    assert(m < 0 ==> m * u < 0) by (nonlinear_arith)
        requires
            u > 0,
    ;
    assert(m > 0 ==> m * u > 0) by (nonlinear_arith)
        requires
            u > 0,
    ;
    assert(0 * u == 0) by (nonlinear_arith);
    assert(f_scaled(x) == k * u);
    let p = pow2(1073) as int;
    lemma_pow2_unfold(1074);
    let c = lemma_short_number((2 * k + 1) as nat, 1073);
    assert((2 * k + 1) * p == k * u + p) by (nonlinear_arith)
        requires
            u == 2 * p,
    ;
    exact_sums_are_kept(x, F_HALF, c);
    let s = f_sum(x, F_HALF);
    reveal(f_whole);
    assert(f_scaled(s) == k * u + p);
    assert(k * u >= 0) by (nonlinear_arith)
        requires
            k >= 0,
            u > 0,
    ;
    assert(!f_negative(s)) by {
        if f_negative(s) {
            assert(f_scaled(s) <= 0);
        }
    }
    assert(f_units(s) as int == k * u + p);
    vstd::arithmetic::div_mod::lemma_fundamental_div_mod_converse(f_units(s) as int, u, k, p);
}

pub(crate) proof fn lemma_half()
    ensures
        f_units(F_HALF) == pow2(1073),
        f_finite(F_HALF),
        !f_negative(F_HALF),
{
    vstd::arithmetic::power2::lemma2_to64_rest();
    assert(F_HALF / 0x10_0000_0000_0000 == 1022);
    assert(F_HALF % 0x10_0000_0000_0000 == 0);
    assert(f_shift(F_HALF) == 1021);
    lemma_pow2_adds(52, 1021);
}

} // verus!
