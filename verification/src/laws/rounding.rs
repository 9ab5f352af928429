//! Double arithmetic gives the nearest double to the exact result.

use crate::float::{
    f_finite, f_less, f_negative, f_of_int, f_product, f_quotient, f_scaled, f_shift, f_significand, f_sum, f_units, f_whole,
    half_even, lemma_spacing, rounded, spacing, with_sign, F_ONE, F_TEN, F_ZERO, INFINITY,
};
use crate::exec::rowkey::f_pow10;
use crate::order::{f64_is_nan, f64_magnitude, f64_rank};
use vstd::arithmetic::div_mod::lemma_fundamental_div_mod;
use vstd::arithmetic::power2::{lemma_pow2_adds, lemma_pow2_pos, lemma_pow2_strictly_increases, lemma_pow2_unfold, pow2};
use vstd::prelude::*;

verus! {

/// How far two whole numbers are apart.
pub open spec fn gap(a: int, b: int) -> int {
    if a < b {
        b - a
    } else {
        a - b
    }
}

/// The units of 2^-1074 in one.
pub open spec fn unit() -> int {
    pow2(1074) as int
}

// --- Rounding to a whole number ------------------------------------------------------------

/// Rounding `n / d` to a whole number gives one that no other is nearer than.
pub proof fn rounding_to_a_whole_number_is_nearest(n: nat, d: nat, j: int)
    requires
        d > 0,
    ensures
        gap((d * half_even(n, d)) as int, n as int) <= gap(d * j, n as int),
        2 * gap((d * half_even(n, d)) as int, n as int) <= d,
{
    let q = (n / d) as int;
    let r = (n % d) as int;
    let di = d as int;
    lemma_fundamental_div_mod(n as int, di);
    assert(0 <= r < di);
    assert(di * (q + 1) == di * q + di) by (nonlinear_arith);
    if j <= q {
        assert(di * j <= di * q) by (nonlinear_arith)
            requires
                j <= q,
                di > 0,
        ;
    } else {
        assert(di * j >= di * (q + 1)) by (nonlinear_arith)
            requires
                j >= q + 1,
                di > 0,
        ;
    }
}

pub(crate) proof fn lemma_spacing_fits(q: nat)
    ensures
        q < pow2(53 + spacing(q)),
        spacing(q) > 0 ==> q >= pow2(52 + spacing(q)),
    decreases q,
{
    vstd::arithmetic::power2::lemma2_to64_rest();
    if q >= 0x20_0000_0000_0000 {
        let k = spacing(q / 2);
        lemma_spacing_fits(q / 2);
        assert(spacing(q) == 1 + k);
        lemma_pow2_unfold(54 + k);
        lemma_pow2_unfold(53 + k);
    }
}

/// The double with significand `h` at spacing `2^k`.
proof fn lemma_units_at(k: nat, h: nat)
    requires
        h <= 0x20_0000_0000_0000,
        k > 0 ==> h >= 0x10_0000_0000_0000,
        k * 0x10_0000_0000_0000 + h < 0x7ff0_0000_0000_0000,
    ensures
        f_finite((k * 0x10_0000_0000_0000 + h) as u64),
        f_units((k * 0x10_0000_0000_0000 + h) as u64) == h * pow2(k),
{
    let b = (k * 0x10_0000_0000_0000 + h) as u64;
    assert(f64_magnitude(b) == k * 0x10_0000_0000_0000 + h);
    lemma_pow2_pos(k);
    vstd::arithmetic::power2::lemma2_to64();
    if h == 0x20_0000_0000_0000 {
        assert(f64_magnitude(b) / 0x10_0000_0000_0000 == k + 2);
        assert(f_significand(b) == 0x10_0000_0000_0000);
        assert(f_shift(b) == k + 1);
        lemma_pow2_unfold(k + 1);
        assert(0x10_0000_0000_0000 * (2 * pow2(k)) == 0x20_0000_0000_0000 * pow2(k));
    } else if h >= 0x10_0000_0000_0000 {
        assert(f64_magnitude(b) / 0x10_0000_0000_0000 == k + 1);
        assert(f_significand(b) == h);
        assert(f_shift(b) == k);
    } else {
        assert(k == 0);
        assert(f_significand(b) == h);
        assert(f_shift(b) == 0);
    }
}

/// A double of at least `2^(52 + k)` units is a multiple of `2^k` units.
proof fn lemma_multiple(b: u64, k: nat) -> (j: int)
    requires
        f_units(b) >= pow2(52 + k),
    ensures
        f_units(b) == j * pow2(k),
{
    let s = f_shift(b);
    let m = f_significand(b);
    vstd::arithmetic::power2::lemma2_to64_rest();
    assert(m < 0x20_0000_0000_0000);
    if s < k {
        lemma_pow2_adds(53, s);
        lemma_pow2_pos(s);
        assert(m * pow2(s) < 0x20_0000_0000_0000 * pow2(s)) by (nonlinear_arith)
            requires
                m < 0x20_0000_0000_0000,
                pow2(s) > 0,
        ;
        if 53 + s < 52 + k {
            lemma_pow2_strictly_increases(53 + s, 52 + k);
        }
        assert(false);
    }
    let t = (s - k) as nat;
    lemma_pow2_adds(t, k);
    assert(m * (pow2(t) * pow2(k)) == (m * pow2(t)) * pow2(k)) by (nonlinear_arith);
    (m * pow2(t)) as int
}

/// What a rounded ratio is: a multiple of a power of two, as near as such a multiple can be.
pub(crate) proof fn lemma_rounded(n: nat, d: nat) -> (r: (nat, nat))
    requires
        d > 0,
        rounded(n, d) < 0x7ff0_0000_0000_0000,
    ensures
        f_finite(rounded(n, d) as u64),
        f_units(rounded(n, d) as u64) == r.1 * pow2(r.0),
        r.1 == half_even(n, d * pow2(r.0)),
        r.0 == spacing(n / d),
        r.0 > 0 ==> n >= d * pow2(52 + r.0),
{
    let q = n / d;
    let k = spacing(q);
    let p = pow2(k);
    lemma_pow2_pos(k);
    let dp = d * p;
    assert(dp > 0) by (nonlinear_arith)
        requires
            dp == d * p,
            d > 0,
            p > 0,
    ;
    lemma_spacing_fits(q);
    vstd::arithmetic::power2::lemma2_to64_rest();
    lemma_pow2_adds(53, k);
    lemma_pow2_adds(52, k);
    lemma_fundamental_div_mod(n as int, d as int);
    lemma_fundamental_div_mod(n as int, dp as int);
    let h = half_even(n, dp);
    let hq = n / dp;
    // n < d * (q + 1) <= d * 2^53 * p
    assert(d * (q + 1) == d * q + d) by (nonlinear_arith);
    assert(d * (q + 1) <= d * (0x20_0000_0000_0000 * p)) by (nonlinear_arith)
        requires
            q + 1 <= 0x20_0000_0000_0000 * p,
    ;
    assert(d * (0x20_0000_0000_0000 * p) == dp * 0x20_0000_0000_0000) by (nonlinear_arith)
        requires
            dp == d * p,
    ;
    assert(dp * hq <= n < dp * 0x20_0000_0000_0000);
    assert(hq < 0x20_0000_0000_0000) by (nonlinear_arith)
        requires
            dp * hq < dp * 0x20_0000_0000_0000,
            dp > 0,
    ;
    if k > 0 {
        assert(d * q >= d * (0x10_0000_0000_0000 * p)) by (nonlinear_arith)
            requires
                q >= 0x10_0000_0000_0000 * p,
        ;
        assert(d * (0x10_0000_0000_0000 * p) == dp * 0x10_0000_0000_0000) by (nonlinear_arith)
            requires
                dp == d * p,
        ;
        assert(dp * (hq + 1) == dp * hq + dp) by (nonlinear_arith);
        assert(dp * (hq + 1) > dp * 0x10_0000_0000_0000);
        assert(hq + 1 > 0x10_0000_0000_0000) by (nonlinear_arith)
            requires
                dp * (hq + 1) > dp * 0x10_0000_0000_0000,
                dp > 0,
        ;
    }
    lemma_units_at(k, h);
    (k, h)
}

/// A rounded ratio is the nearest of all finite doubles to the exact one.
pub proof fn no_double_is_nearer(n: nat, d: nat, b: u64)
    requires
        d > 0,
        rounded(n, d) < 0x7ff0_0000_0000_0000,
        f_finite(b),
    ensures
        gap((d * f_units(rounded(n, d) as u64)) as int, n as int) <= gap((d * f_units(b)) as int, n as int),
{
    let (k, h) = lemma_rounded(n, d);
    let p = pow2(k);
    lemma_pow2_pos(k);
    let dp = d * p;
    assert(dp > 0) by (nonlinear_arith)
        requires
            dp == d * p,
            d > 0,
            p > 0,
    ;
    assert(d * (h * p) == dp * h) by (nonlinear_arith)
        requires
            dp == d * p,
    ;
    if k == 0 || f_units(b) >= pow2(52 + k) {
        vstd::arithmetic::power2::lemma2_to64();
        let j: int = if k == 0 {
            f_units(b) as int
        } else {
            lemma_multiple(b, k)
        };
        if k == 0 {
            assert(j * p == j) by (nonlinear_arith)
                requires
                    p == 1,
            ;
        }
        assert(f_units(b) == j * p);
        rounding_to_a_whole_number_is_nearest(n, dp, j);
        assert(d * (j * p) == dp * j) by (nonlinear_arith)
            requires
                dp == d * p,
        ;
    } else {
        vstd::arithmetic::power2::lemma2_to64_rest();
        lemma_pow2_adds(52, k);
        rounding_to_a_whole_number_is_nearest(n, dp, 0x10_0000_0000_0000);
        assert(d * (0x10_0000_0000_0000 * p) == dp * 0x10_0000_0000_0000) by (nonlinear_arith)
            requires
                dp == d * p,
        ;
        assert(d * f_units(b) <= d * pow2(52 + k)) by (nonlinear_arith)
            requires
                f_units(b) <= pow2(52 + k),
        ;
    }
}

/// A rounded ratio of at least `2^52` units is off by at most one part in `2^53`.
pub proof fn rounding_is_close(n: nat, d: nat)
    requires
        d > 0,
        rounded(n, d) < 0x7ff0_0000_0000_0000,
        n >= d * 0x10_0000_0000_0000,
    ensures
        0x20_0000_0000_0000 * gap((d * f_units(rounded(n, d) as u64)) as int, n as int) <= n,
{
    let (k, h) = lemma_rounded(n, d);
    let p = pow2(k);
    lemma_pow2_pos(k);
    let dp = d * p;
    assert(dp > 0) by (nonlinear_arith)
        requires
            dp == d * p,
            d > 0,
            p > 0,
    ;
    assert(d * (h * p) == dp * h) by (nonlinear_arith)
        requires
            dp == d * p,
    ;
    rounding_to_a_whole_number_is_nearest(n, dp, 0);
    vstd::arithmetic::power2::lemma2_to64();
    vstd::arithmetic::power2::lemma2_to64_rest();
    lemma_pow2_adds(52, k);
    assert(d * (0x10_0000_0000_0000 * p) == dp * 0x10_0000_0000_0000) by (nonlinear_arith)
        requires
            dp == d * p,
    ;
    if k == 0 {
        assert(dp == d);
    }
}

/// Where the exact ratio is a double, rounding gives that double.
pub proof fn rounding_keeps_doubles(n: nat, d: nat, c: u64)
    requires
        d > 0,
        f_finite(c),
        n == d * f_units(c),
    ensures
        rounded(n, d) == f64_magnitude(c),
{
    let u = f_units(c);
    let s = f_shift(c);
    let m = f_significand(c);
    let p = pow2(s);
    lemma_pow2_pos(s);
    vstd::arithmetic::power2::lemma2_to64_rest();
    assert(n == u * d) by (nonlinear_arith)
        requires
            n == d * u,
    ;
    vstd::arithmetic::div_mod::lemma_fundamental_div_mod_converse(n as int, d as int, u as int, 0);
    assert(n / d == u);
    assert(m < 0x20_0000_0000_0000);
    lemma_pow2_adds(53, s);
    lemma_pow2_adds(52, s);
    assert(m * p < 0x20_0000_0000_0000 * p) by (nonlinear_arith)
        requires
            m < 0x20_0000_0000_0000,
            p > 0,
    ;
    if s > 0 {
        assert(m * p >= 0x10_0000_0000_0000 * p) by (nonlinear_arith)
            requires
                m >= 0x10_0000_0000_0000,
                p > 0,
        ;
    }
    lemma_spacing(u, s);
    let dp = d * p;
    assert(dp > 0 && n == m * dp) by (nonlinear_arith)
        requires
            dp == d * p,
            d > 0,
            p > 0,
            n == d * (m * p),
    ;
    vstd::arithmetic::div_mod::lemma_fundamental_div_mod_converse(n as int, dp as int, m as int, 0);
    assert(half_even(n, dp) == m);
    assert(s * 0x10_0000_0000_0000 + m == f64_magnitude(c));
}

/// A ratio that is not too large is not rounded to infinity.
pub(crate) proof fn lemma_not_infinite(n: nat, d: nat)
    requires
        d > 0,
        n < d * pow2(2000),
    ensures
        rounded(n, d) < 0x7ff0_0000_0000_0000,
{
    let q = n / d;
    let k = spacing(q);
    lemma_fundamental_div_mod(n as int, d as int);
    assert(q < pow2(2000)) by (nonlinear_arith)
        requires
            d * q <= n,
            n < d * pow2(2000),
            d > 0,
    ;
    lemma_spacing_fits(q);
    if 52 + k >= 2000 {
        if 52 + k > 2000 {
            lemma_pow2_strictly_increases(2000, 52 + k);
        }
        assert(false);
    }
    let p = pow2(k);
    lemma_pow2_pos(k);
    let dp = d * p;
    assert(dp > 0) by (nonlinear_arith)
        requires
            dp == d * p,
            d > 0,
            p > 0,
    ;
    vstd::arithmetic::power2::lemma2_to64_rest();
    lemma_pow2_adds(53, k);
    lemma_fundamental_div_mod(n as int, dp as int);
    let hq = n / dp;
    assert(d * (q + 1) == d * q + d) by (nonlinear_arith);
    assert(d * (q + 1) <= d * (0x20_0000_0000_0000 * p)) by (nonlinear_arith)
        requires
            q + 1 <= 0x20_0000_0000_0000 * p,
    ;
    assert(d * (0x20_0000_0000_0000 * p) == dp * 0x20_0000_0000_0000) by (nonlinear_arith)
        requires
            dp == d * p,
    ;
    assert(hq < 0x20_0000_0000_0000) by (nonlinear_arith)
        requires
            dp * hq < dp * 0x20_0000_0000_0000,
            dp > 0,
    ;
}

// --- The operations ---------------------------------------------------------------------------

pub(crate) proof fn lemma_signed(neg: bool, m: nat)
    requires
        m < 0x8000_0000_0000_0000,
    ensures
        f_units(with_sign(neg, m)) == f_units(m as u64),
        f_finite(with_sign(neg, m)) == (m < 0x7ff0_0000_0000_0000),
        f_scaled(with_sign(neg, m)) == if neg {
            -(f_units(m as u64) as int)
        } else {
            f_units(m as u64) as int
        },
        f64_magnitude(with_sign(neg, m)) == m,
        f_negative(with_sign(neg, m)) == neg,
{
}

/// The sum of two doubles is the double nearest to the exact sum.
pub proof fn sums_are_nearest(a: u64, b: u64, c: u64)
    requires
        f_finite(a),
        f_finite(b),
        f_finite(c),
        f_finite(f_sum(a, b)),
    ensures
        gap(f_scaled(f_sum(a, b)), f_scaled(a) + f_scaled(b)) <= gap(f_scaled(c), f_scaled(a) + f_scaled(b)),
{
    reveal(f_sum);
    let s = f_scaled(a) + f_scaled(b);
    vstd::arithmetic::power2::lemma2_to64();
    if s == 0 {
        lemma_zero(0u64);
        lemma_zero(0x8000_0000_0000_0000u64);
    } else {
        let n: nat = if s < 0 {
            (-s) as nat
        } else {
            s as nat
        };
        lemma_signed(s < 0, rounded(n, 1));
        no_double_is_nearer(n, 1, c);
    }
}

/// The product of two doubles is the double nearest to the exact product.
pub proof fn products_are_nearest(a: u64, b: u64, c: u64)
    requires
        f_finite(a),
        f_finite(b),
        f_finite(c),
        f_finite(f_product(a, b)),
    ensures
        gap(unit() * f_scaled(f_product(a, b)), f_scaled(a) * f_scaled(b)) <= gap(
            unit() * f_scaled(c),
            f_scaled(a) * f_scaled(b),
        ),
{
    reveal(f_product);
    let n = f_units(a) * f_units(b);
    let u = pow2(1074);
    lemma_pow2_pos(1074);
    let r = rounded(n, u);
    let neg = f_negative(a) != f_negative(b);
    lemma_signed(neg, r);
    no_double_is_nearer(n, u, c);
    let x = f_units(a) as int;
    let y = f_units(b) as int;
    assert((-x) * y == -(x * y) && x * (-y) == -(x * y) && (-x) * (-y) == x * y) by (nonlinear_arith);
    let w = f_units(r as u64) as int;
    let z = f_units(c) as int;
    assert(u * (-w) == -(u * w) && u * (-z) == -(u * z) && u * w >= 0 && u * z >= 0 && x * y >= 0) by (nonlinear_arith)
        requires
            u > 0,
            w >= 0,
            z >= 0,
            x >= 0,
            y >= 0,
    ;
}

/// The quotient of two doubles is the double nearest to the exact quotient.
pub proof fn quotients_are_nearest(a: u64, b: u64, c: u64)
    requires
        f_finite(a),
        f_finite(b),
        f_finite(c),
        f64_magnitude(b) != 0,
        f_finite(f_quotient(a, b)),
    ensures
        gap(f_scaled(b) * f_scaled(f_quotient(a, b)), unit() * f_scaled(a)) <= gap(
            f_scaled(b) * f_scaled(c),
            unit() * f_scaled(a),
        ),
{
    reveal(f_quotient);
    let u = pow2(1074);
    let n = f_units(a) * u;
    let d = f_units(b);
    lemma_nonzero(b);
    let r = rounded(n, d);
    let neg = f_negative(a) != f_negative(b);
    lemma_signed(neg, r);
    no_double_is_nearer(n, d, c);
    let x = f_units(a) as int;
    let w = f_units(r as u64) as int;
    let z = f_units(c) as int;
    let di = d as int;
    let ui = u as int;
    assert(ui * x == x * ui && ui * (-x) == -(x * ui)) by (nonlinear_arith);
    assert(di * (-w) == -(di * w) && di * (-z) == -(di * z) && (-di) * w == -(di * w) && (-di) * (-w) == di * w && (-di)
        * z == -(di * z) && (-di) * (-z) == di * z && di * w >= 0 && di * z >= 0 && x * ui >= 0) by (nonlinear_arith)
        requires
            di > 0,
            ui >= 0,
            w >= 0,
            z >= 0,
            x >= 0,
    ;
}

/// The double of a whole number is the one nearest to it.
pub proof fn whole_numbers_are_nearest(x: int, c: u64)
    requires
        f_finite(c),
        f_finite(f_of_int(x)),
    ensures
        gap(f_scaled(f_of_int(x)), unit() * x) <= gap(f_scaled(c), unit() * x),
{
    reveal(f_of_int);
    let u = pow2(1074) as int;
    lemma_pow2_pos(1074);
    let ax: int = if x < 0 {
        -x
    } else {
        x
    };
    assert(ax * u >= 0 && u * x == x * u && (-x) * u == -(x * u)) by (nonlinear_arith)
        requires
            ax >= 0,
            u >= 0,
    ;
    let n = (ax * u) as nat;
    lemma_signed(x < 0, rounded(n, 1));
    no_double_is_nearer(n, 1, c);
}

pub(crate) proof fn lemma_zero(b: u64)
    requires
        f64_magnitude(b) == 0,
    ensures
        f_units(b) == 0,
{
    let p = pow2(f_shift(b));
    assert(0 * p == 0) by (nonlinear_arith);
}

pub(crate) proof fn lemma_nonzero(b: u64)
    requires
        f64_magnitude(b) != 0,
    ensures
        f_units(b) > 0,
{
    lemma_pow2_pos(f_shift(b));
    let m = f_significand(b);
    let p = pow2(f_shift(b));
    assert(m * p > 0) by (nonlinear_arith)
        requires
            m > 0,
            p > 0,
    ;
}

/// A whole number below `2^53` times a power of two is a double.
pub(crate) proof fn lemma_short_number(x: nat, e: nat) -> (c: u64)
    requires
        x < 0x20_0000_0000_0000,
        e <= 2000,
    ensures
        f_finite(c),
        !f_negative(c),
        f_units(c) == x * pow2(e),
    decreases e,
{
    vstd::arithmetic::power2::lemma2_to64();
    if x >= 0x10_0000_0000_0000 || e == 0 {
        lemma_units_at(e, x);
        (e * 0x10_0000_0000_0000 + x) as u64
    } else {
        let c = lemma_short_number(2 * x, (e - 1) as nat);
        lemma_pow2_unfold(e);
        assert((2 * x) * pow2((e - 1) as nat) == x * pow2(e)) by (nonlinear_arith)
            requires
                pow2(e) == 2 * pow2((e - 1) as nat),
        ;
        c
    }
}

/// Whole numbers below `2^53` are kept as they are.
pub proof fn short_numbers_are_exact(x: int)
    requires
        -0x20_0000_0000_0000 < x < 0x20_0000_0000_0000,
    ensures
        f_finite(f_of_int(x)),
        f_scaled(f_of_int(x)) == x * unit(),
        f_negative(f_of_int(x)) == (x < 0),
{
    reveal(f_of_int);
    let ax: nat = if x < 0 {
        (-x) as nat
    } else {
        x as nat
    };
    let u = pow2(1074);
    let c = lemma_short_number(ax, 1074);
    assert(ax * u == 1 * f_units(c));
    rounding_keeps_doubles(ax * u, 1, c);
    lemma_signed(x < 0, f64_magnitude(c) as nat);
    assert((-x) * u == -(x * u)) by (nonlinear_arith);
}

/// A finite number other than zero, divided by itself, is one.
pub proof fn a_number_goes_into_itself_once(a: u64)
    requires
        f_finite(a),
        f64_magnitude(a) != 0,
    ensures
        f_quotient(a, a) == F_ONE,
{
    reveal(f_quotient);
    lemma_nonzero(a);
    lemma_one();
    rounding_keeps_doubles(f_units(a) * pow2(1074), f_units(a), F_ONE);
}

pub(crate) proof fn lemma_one()
    ensures
        f_units(F_ONE) == pow2(1074),
        f_finite(F_ONE),
{
    vstd::arithmetic::power2::lemma2_to64_rest();
    assert(F_ONE / 0x10_0000_0000_0000 == 1023);
    assert(F_ONE % 0x10_0000_0000_0000 == 0);
    assert(f_shift(F_ONE) == 1022);
    lemma_pow2_adds(52, 1022);
}

/// A share `a / b` with `0 < a` and `b` below `2^53` is more than zero.
pub proof fn a_share_is_more_than_zero(a: int, b: int)
    requires
        0 < a < 0x20_0000_0000_0000,
        0 < b < 0x20_0000_0000_0000,
    ensures
        f_finite(f_quotient(f_of_int(a), f_of_int(b))),
        f_less(F_ZERO, f_quotient(f_of_int(a), f_of_int(b))),
        0x20_0000_0000_0000 * gap(b * f_scaled(f_quotient(f_of_int(a), f_of_int(b))), a * unit()) <= a * unit(),
{
    reveal(f_quotient);
    short_numbers_are_exact(a);
    short_numbers_are_exact(b);
    let x = f_of_int(a);
    let y = f_of_int(b);
    let u = pow2(1074) as int;
    lemma_pow2_pos(1074);
    assert(a * u > 0 && b * u > 0) by (nonlinear_arith)
        requires
            a > 0,
            b > 0,
            u > 0,
    ;
    assert(f_units(x) == a * u && f_units(y) == b * u);
    if f64_magnitude(y) == 0 {
        lemma_zero(y);
    }
    let n = (a * u) * u;
    let d = b * u;
    vstd::arithmetic::power2::lemma2_to64_rest();
    lemma_pow2_adds(52, 1022);
    lemma_pow2_adds(53, 969);
    lemma_pow2_pos(969);
    lemma_pow2_adds(53, 1947);
    lemma_pow2_adds(1074, 873);
    lemma_pow2_pos(873);
    assert(u >= 0x10_0000_0000_0000 * 0x20_0000_0000_0000) by (nonlinear_arith)
        requires
            u == 0x10_0000_0000_0000 * (0x20_0000_0000_0000 * pow2(969)),
            pow2(969) > 0,
    ;
    assert(pow2(1947) >= u) by (nonlinear_arith)
        requires
            pow2(1947) == u * pow2(873),
            pow2(873) > 0,
            u > 0,
    ;
    assert(n >= d * 0x10_0000_0000_0000) by (nonlinear_arith)
        requires
            n == (a * u) * u,
            d == b * u,
            a >= 1,
            b < 0x20_0000_0000_0000,
            u >= 0x10_0000_0000_0000 * 0x20_0000_0000_0000,
    ;
    let t = pow2(2000) as int;
    assert(n < d * t) by (nonlinear_arith)
        requires
            n == (a * u) * u,
            d == b * u,
            a < 0x20_0000_0000_0000,
            b >= 1,
            u > 0,
            t >= 0x20_0000_0000_0000 * u,
    ;
    lemma_not_infinite(n as nat, d as nat);
    rounding_is_close(n as nat, d as nat);
    let r = rounded(n as nat, d as nat);
    lemma_signed(false, r);
    let w = f_units(r as u64) as int;
    assert(u * (b * w) == d * w) by (nonlinear_arith)
        requires
            d == b * u,
    ;
    let g = gap(b * w, a * u);
    assert(u * g == gap(d * w, n)) by (nonlinear_arith)
        requires
            u > 0,
            n == (a * u) * u,
            u * (b * w) == d * w,
            g == gap(b * w, a * u),
            gap(b * w, a * u) == if b * w < a * u {
                a * u - b * w
            } else {
                b * w - a * u
            },
            gap(d * w, n) == if d * w < n {
                n - d * w
            } else {
                d * w - n
            },
    ;
    assert(0x20_0000_0000_0000 * g <= a * u) by (nonlinear_arith)
        requires
            0x20_0000_0000_0000 * (u * g) <= (a * u) * u,
            u > 0,
    ;
    if r == 0 {
        lemma_zero(r as u64);
        assert(b * w == 0) by (nonlinear_arith)
            requires
                w == 0,
        ;
        assert(false);
    }
}

/// `10^n`.
pub open spec fn ten_to(n: nat) -> int
    decreases n,
{
    if n == 0 {
        1
    } else {
        10 * ten_to((n - 1) as nat)
    }
}

spec fn five_to(n: nat) -> int
    decreases n,
{
    if n == 0 {
        1
    } else {
        5 * five_to((n - 1) as nat)
    }
}

proof fn lemma_fives(n: nat)
    ensures
        ten_to(n) == five_to(n) * pow2(n),
        0 < five_to(n),
        n <= 22 ==> five_to(n) <= five_to(22),
    decreases 22 - n, n,
{
    vstd::arithmetic::power2::lemma2_to64();
    lemma_ten_is_five_and_two(n);
    if n < 22 {
        lemma_fives(n + 1);
    }
}

proof fn lemma_ten_is_five_and_two(n: nat)
    ensures
        ten_to(n) == five_to(n) * pow2(n),
        0 < five_to(n),
        0 < ten_to(n),
    decreases n,
{
    vstd::arithmetic::power2::lemma2_to64();
    if n > 0 {
        lemma_ten_is_five_and_two((n - 1) as nat);
        lemma_pow2_unfold(n);
        let f = five_to((n - 1) as nat);
        let p = pow2((n - 1) as nat) as int;
        assert(10 * (f * p) == (5 * f) * (2 * p)) by (nonlinear_arith);
    }
}

pub(crate) proof fn lemma_ten()
    ensures
        f_units(F_TEN) == 10 * pow2(1074),
        f_finite(F_TEN),
        !f_negative(F_TEN),
{
    vstd::arithmetic::power2::lemma2_to64_rest();
    vstd::arithmetic::power2::lemma2_to64();
    assert(F_TEN / 0x10_0000_0000_0000 == 1026);
    assert(F_TEN % 0x10_0000_0000_0000 == 0x4_0000_0000_0000);
    assert(f_shift(F_TEN) == 1025);
    assert(f_significand(F_TEN) == 0x14_0000_0000_0000);
    lemma_pow2_adds(50, 1025);
    lemma_pow2_unfold(1075);
    assert(pow2(50) == 0x4_0000_0000_0000);
    let p = pow2(1025);
    assert(0x14_0000_0000_0000 * p == 5 * (0x4_0000_0000_0000 * p));
}

/// The powers of ten up to the 22nd are kept as they are.
pub proof fn powers_of_ten_are_exact(n: nat)
    requires
        n <= 22,
    ensures
        f_finite(f_pow10(n)),
        f_scaled(f_pow10(n)) == ten_to(n) * unit(),
        !f_negative(f_pow10(n)),
        ten_to(n) > 0,
    decreases n,
{
    let u = pow2(1074) as int;
    lemma_pow2_pos(1074);
    lemma_ten_is_five_and_two(n);
    if n == 0 {
        lemma_one();
        assert(ten_to(0) == 1);
    } else {
        let m = (n - 1) as nat;
        powers_of_ten_are_exact(m);
        lemma_ten();
        lemma_fives(n);
        reveal_with_fuel(five_to, 23);
        assert(five_to(22) == 2384185791015625);
        let c = lemma_short_number(five_to(n) as nat, 1074 + n);
        lemma_pow2_adds(1074, n);
        let f = five_to(n);
        let p = pow2(n) as int;
        assert(f * (u * p) == (f * p) * u) by (nonlinear_arith);
        assert(f_units(c) == ten_to(n) * u);
        reveal(f_product);
        let t = ten_to(m);
        assert((t * u) * (10 * u) == u * ((10 * t) * u)) by (nonlinear_arith);
        rounding_keeps_doubles(f_units(f_pow10(m)) * f_units(F_TEN), pow2(1074), c);
        lemma_signed(false, f64_magnitude(c) as nat);
    }
}

pub(crate) proof fn lemma_ten_bound(p: nat)
    requires
        p <= 22,
    ensures
        0 < ten_to(p) <= 10000000000000000000000,
    decreases 22 - p,
{
    if p == 22 {
        reveal_with_fuel(ten_to, 23);
        assert(ten_to(22) == 10000000000000000000000);
    } else {
        lemma_ten_bound(p + 1);
    }
}

/// The whole part of a number is the greatest whole number that is not above it.
pub proof fn the_whole_part_is_not_above(a: u64)
    requires
        f_finite(a),
        f_scaled(a) < 0x1_0000_0000_0000_0000 * unit(),
    ensures
        f_scaled(a) <= 0 ==> f_whole(a) == 0,
        f_scaled(a) >= 0 ==> f_whole(a) * unit() <= f_scaled(a) < (f_whole(a) + 1) * unit(),
{
    reveal(f_whole);
    let u = unit();
    lemma_pow2_pos(1074);
    let x = f_units(a) as int;
    let q = x / u;
    lemma_fundamental_div_mod(x, u);
    assert(u * q == q * u && (q + 1) * u == q * u + u) by (nonlinear_arith);
    assert(0 * u == 0) by (nonlinear_arith);
    if !f_negative(a) {
        assert(q <= u64::MAX) by (nonlinear_arith)
            requires
                q * u <= x,
                x < 0x1_0000_0000_0000_0000 * u,
                u > 0,
        ;
    }
    if x == 0 {
        assert(q == 0) by (nonlinear_arith)
            requires
                x == u * q + x % u,
                0 <= x % u < u,
                x == 0,
                u > 0,
        ;
    }
}

// --- Order ----------------------------------------------------------------------------------------

pub(crate) proof fn lemma_units_grow(a: u64, b: u64)
    requires
        f64_magnitude(a) < f64_magnitude(b),
    ensures
        f_units(a) < f_units(b),
{
    let sa = f_shift(a);
    let sb = f_shift(b);
    let ma = f_significand(a);
    let mb = f_significand(b);
    let pa = pow2(sa);
    let pb = pow2(sb);
    lemma_pow2_pos(sa);
    lemma_pow2_pos(sb);
    assert(ma < 0x20_0000_0000_0000);
    if sa == sb {
        assert(ma < mb);
        assert(ma * pa < mb * pa) by (nonlinear_arith)
            requires
                ma < mb,
                pa > 0,
        ;
    } else {
        assert(sa < sb);
        assert(mb >= 0x10_0000_0000_0000);
        lemma_pow2_unfold(sa + 1);
        if sa + 1 < sb {
            lemma_pow2_strictly_increases(sa + 1, sb);
        }
        assert(ma * pa < mb * pb) by (nonlinear_arith)
            requires
                ma < 0x20_0000_0000_0000,
                mb >= 0x10_0000_0000_0000,
                pb >= 2 * pa,
                pa > 0,
        ;
    }
}

/// Finite doubles are ordered as the numbers they stand for; no finite one is above infinity, and
/// a NaN is neither less nor greater.
pub proof fn doubles_are_ordered_as_numbers(a: u64, b: u64)
    ensures
        f_finite(a) && f_finite(b) ==> (f_less(a, b) <==> f_scaled(a) < f_scaled(b)),
        f_finite(a) && f_finite(b) ==> (f64_rank(a) < f64_rank(b) <==> f_scaled(a) < f_scaled(b)),
        f_finite(a) ==> f_less(a, INFINITY) && !f_less(INFINITY, a),
        f64_is_nan(a) ==> !f_less(a, b) && !f_less(b, a),
        f64_is_nan(a) && !f64_is_nan(b) ==> f64_rank(b) < f64_rank(a),
{
    if f_finite(a) && f_finite(b) {
        let x = f64_magnitude(a);
        let y = f64_magnitude(b);
        if x < y {
            lemma_units_grow(a, b);
        } else if y < x {
            lemma_units_grow(b, a);
        } else {
            lemma_same_units(a, b);
        }
        if x == 0 {
            lemma_zero(a);
        } else {
            lemma_nonzero(a);
        }
        if y == 0 {
            lemma_zero(b);
        } else {
            lemma_nonzero(b);
        }
    }
}

pub(crate) proof fn lemma_same_units(a: u64, b: u64)
    requires
        f64_magnitude(a) == f64_magnitude(b),
    ensures
        f_units(a) == f_units(b),
{
}

// --- Exact results -----------------------------------------------------------------------------------

/// Where the exact sum of two doubles is a double, it is the sum.
pub proof fn exact_sums_are_kept(a: u64, b: u64, c: u64)
    requires
        f_finite(a),
        f_finite(b),
        f_finite(c),
        f_scaled(c) == f_scaled(a) + f_scaled(b),
    ensures
        f_finite(f_sum(a, b)),
        f_scaled(f_sum(a, b)) == f_scaled(c),
{
    reveal(f_sum);
    let s = f_scaled(a) + f_scaled(b);
    if s == 0 {
        lemma_zero(0u64);
        lemma_zero(0x8000_0000_0000_0000u64);
    } else {
        let n: nat = if s < 0 {
            (-s) as nat
        } else {
            s as nat
        };
        rounding_keeps_doubles(n, 1, c);
        lemma_signed(s < 0, rounded(n, 1));
        lemma_same_units(f64_magnitude(c) as u64, c);
    }
}

/// Where the exact product of two doubles is a double, it is the product.
pub proof fn exact_products_are_kept(a: u64, b: u64, c: u64)
    requires
        f_finite(a),
        f_finite(b),
        f_finite(c),
        unit() * f_scaled(c) == f_scaled(a) * f_scaled(b),
    ensures
        f_finite(f_product(a, b)),
        f_scaled(f_product(a, b)) == f_scaled(c),
{
    reveal(f_product);
    let u = pow2(1074) as int;
    lemma_pow2_pos(1074);
    let x = f_units(a) as int;
    let y = f_units(b) as int;
    let z = f_units(c) as int;
    assert((-x) * y == -(x * y) && x * (-y) == -(x * y) && (-x) * (-y) == x * y && x * y >= 0 && u * z >= 0 && u * (-z)
        == -(u * z)) by (nonlinear_arith)
        requires
            x >= 0,
            y >= 0,
            z >= 0,
            u > 0,
    ;
    assert(x * y == u * z);
    rounding_keeps_doubles((x * y) as nat, u as nat, c);
    let neg = f_negative(a) != f_negative(b);
    lemma_signed(neg, f64_magnitude(c) as nat);
    lemma_same_units(f64_magnitude(c) as u64, c);
    if z != 0 {
        assert(u * z > 0) by (nonlinear_arith)
            requires
                u > 0,
                z > 0,
        ;
    }
}

/// Where the exact quotient of two doubles is a double, it is the quotient.
pub proof fn exact_quotients_are_kept(a: u64, b: u64, c: u64)
    requires
        f_finite(a),
        f_finite(b),
        f_finite(c),
        f64_magnitude(b) != 0,
        f_scaled(b) * f_scaled(c) == unit() * f_scaled(a),
    ensures
        f_finite(f_quotient(a, b)),
        f_scaled(f_quotient(a, b)) == f_scaled(c),
{
    reveal(f_quotient);
    let u = pow2(1074) as int;
    lemma_pow2_pos(1074);
    lemma_nonzero(b);
    let x = f_units(a) as int;
    let y = f_units(b) as int;
    let z = f_units(c) as int;
    assert((-y) * z == -(y * z) && y * (-z) == -(y * z) && (-y) * (-z) == y * z && y * z >= 0 && u * x >= 0 && u * (-x)
        == -(u * x) && x * u == u * x) by (nonlinear_arith)
        requires
            x >= 0,
            y >= 0,
            z >= 0,
            u > 0,
    ;
    assert(x * u == y * z);
    rounding_keeps_doubles((x * u) as nat, y as nat, c);
    let neg = f_negative(a) != f_negative(b);
    lemma_signed(neg, f64_magnitude(c) as nat);
    lemma_same_units(f64_magnitude(c) as u64, c);
    if z != 0 {
        assert(y * z > 0) by (nonlinear_arith)
            requires
                y > 0,
                z > 0,
        ;
    }
}

} // verus!
