//! Square roots.

use crate::exec::accum::{f_newton, f_sqrt};
use crate::float::{
    f_finite, f_negative, f_product, f_quotient, f_scaled, f_shift, f_significand, f_sum, f_units, rounded, F_HALF,
    F_ZERO,
};
use crate::laws::rounding::{
    doubles_are_ordered_as_numbers, exact_products_are_kept, gap, lemma_nonzero, lemma_not_infinite, lemma_short_number,
    lemma_signed, lemma_zero, rounding_is_close, unit,
};
use crate::laws::sampling::lemma_half;
use crate::order::f64_magnitude;
use vstd::arithmetic::power2::{lemma_pow2_adds, lemma_pow2_pos, lemma_pow2_strictly_increases, lemma_pow2_unfold, pow2};
use vstd::prelude::*;

verus! {

/// How far the square of `y` is from `p`, against `p`: at most one part in `d`.
spec fn close(y: int, p: int, d: int) -> bool {
    d * gap(y * y, p) <= p
}

// --- One step -------------------------------------------------------------------------------------

/// The exact part of a step: the square of the difference of the two numbers whose mean is taken.
proof fn lemma_difference(y: int, q: int, p: int, d: int)
    requires
        p > 0,
        y > 0,
        d >= 7,
        8 * (y * y) >= 7 * p,
        d * gap(y * y, y * q) <= p,
    ensures
        7 * (d * d) * ((y - q) * (y - q)) <= 8 * p,
{
    let g = (y - q) * (y - q);
    let e = y * y - y * q;
    let yy = y * y;
    assert(yy * g == e * e) by (nonlinear_arith)
        requires
            g == (y - q) * (y - q),
            e == y * y - y * q,
            yy == y * y,
    ;
    let de = d * e;
    assert(-p <= de <= p) by (nonlinear_arith)
        requires
            de == d * e,
            d > 0,
            d * gap(y * y, y * q) <= p,
            gap(y * y, y * q) == if e < 0 {
                -e
            } else {
                e
            },
    ;
    assert(de * de <= p * p) by (nonlinear_arith)
        requires
            -p <= de <= p,
    ;
    let dd = d * d;
    assert(de * de == dd * (yy * g)) by (nonlinear_arith)
        requires
            de == d * e,
            dd == d * d,
            yy * g == e * e,
    ;
    let x = dd * g;
    assert(g >= 0) by (nonlinear_arith)
        requires
            g == (y - q) * (y - q),
    ;
    assert(x >= 0 && dd * (yy * g) == yy * x) by (nonlinear_arith)
        requires
            x == dd * g,
            dd == d * d,
            g >= 0,
    ;
    // 7 p x <= 8 yy x <= 8 p p
    assert((7 * p) * x <= (8 * yy) * x) by (nonlinear_arith)
        requires
            7 * p <= 8 * yy,
            x >= 0,
    ;
    assert((8 * yy) * x == 8 * (yy * x)) by (nonlinear_arith);
    assert((7 * p) * x == p * (7 * x)) by (nonlinear_arith);
    assert(p * (7 * x) <= p * (8 * p)) by (nonlinear_arith)
        requires
            p * (7 * x) <= 8 * (p * p),
    ;
    assert(7 * x <= 8 * p) by (nonlinear_arith)
        requires
            p * (7 * x) <= p * (8 * p),
            p > 0,
    ;
    assert(7 * dd * g == 7 * x) by (nonlinear_arith)
        requires
            x == dd * g,
    ;
}

/// A step with its roundings.
proof fn lemma_step_close(y: int, q: int, s: int, p: int, d: int, next: int)
    requires
        p > 0,
        y > 0,
        q >= 0,
        d >= 7,
        8 * (y * y) >= 7 * p,
        d * gap(y * y, y * q) <= p,
        0x20_0000_0000_0000 * gap(y * q, p) <= p,
        0x20_0000_0000_0000 * gap(s, y + q) <= y + q,
        0 < next <= 0x8_0000_0000_0000,
        8 * 0x20_0000_0000_0000 * next + 7 * 15 * (d * d) * next <= 7 * 4 * 0x20_0000_0000_0000 * (d * d),
    ensures
        next * gap(s * s, 4 * p) <= 4 * p,
{
    let t = 0x20_0000_0000_0000int;
    let g = (y - q) * (y - q);
    lemma_difference(y, q, p, d);
    let w = y * q - p;
    let a = y + q;
    let aa = a * a;
    assert(aa == g + 4 * (p + w)) by (nonlinear_arith)
        requires
            aa == (y + q) * (y + q),
            g == (y - q) * (y - q),
            w == y * q - p,
    ;
    let dd = d * d;
    assert(dd >= 49) by (nonlinear_arith)
        requires
            dd == d * d,
            d >= 7,
    ;
    assert(g >= 0) by (nonlinear_arith)
        requires
            g == (y - q) * (y - q),
    ;
    assert(7 * 49 * g <= 8 * p) by (nonlinear_arith)
        requires
            7 * dd * g <= 8 * p,
            dd >= 49,
            g >= 0,
    ;
    let yq = y * q;
    assert(gap(yq, p) == if w < 0 {
        -w
    } else {
        w
    });
    assert(-p <= 0x20_0000_0000_0000 * w <= p);
    assert(343 * g <= 8 * p);
    assert(aa <= 5 * p);
    let e = s - a;
    assert(-a <= 0x20_0000_0000_0000 * e <= a);
    assert(-a <= t * e <= a);
    let ae = a * e;
    let ee = e * e;
    assert(-aa <= t * ae <= aa) by (nonlinear_arith)
        requires
            -a <= t * e <= a,
            ae == a * e,
            aa == a * a,
            a >= 0,
    ;
    assert(0 <= ee && t * (t * ee) <= aa) by (nonlinear_arith)
        requires
            -a <= t * e <= a,
            ee == e * e,
            aa == a * a,
    ;
    let ss = s * s;
    assert(ss == aa + 2 * ae + ee) by (nonlinear_arith)
        requires
            ss == s * s,
            s == a + e,
            aa == a * a,
            ae == a * e,
            ee == e * e,
    ;
    let off = gap(ss, 4 * p);
    assert(0x20_0000_0000_0000 * (0x20_0000_0000_0000 * ee) <= aa);
    assert(-aa <= 0x20_0000_0000_0000 * ae <= aa);
    assert(0x20_0000_0000_0000 * off <= 0x20_0000_0000_0000 * g + 15 * p);
    assert(t * off <= t * g + 15 * p);
    // t * off * next * 7 dd <= (8 t p + 105 dd p) next <= 28 t dd p
    let k = 7 * dd;
    assert(k * (t * g) <= t * (8 * p)) by (nonlinear_arith)
        requires
            k * g <= 8 * p,
            t > 0,
    ;
    assert(k * (t * off) <= t * (8 * p) + k * (15 * p)) by (nonlinear_arith)
        requires
            t * off <= t * g + 15 * p,
            k * (t * g) <= t * (8 * p),
            k > 0,
    ;
    let lhs = k * (t * off);
    let rhs = t * (8 * p) + k * (15 * p);
    assert(next * lhs <= next * rhs) by (nonlinear_arith)
        requires
            lhs <= rhs,
            next > 0,
    ;
    assert(next * rhs == p * (8 * t * next + 15 * k * next)) by (nonlinear_arith)
        requires
            rhs == t * (8 * p) + k * (15 * p),
    ;
    assert(15 * k * next == 7 * 15 * dd * next) by (nonlinear_arith)
        requires
            k == 7 * dd,
    ;
    assert(p * (8 * t * next + 15 * k * next) <= p * (4 * t * k)) by (nonlinear_arith)
        requires
            8 * t * next + 15 * k * next <= 7 * 4 * t * dd,
            k == 7 * dd,
            p > 0,
    ;
    assert(next * lhs == (k * t) * (next * off)) by (nonlinear_arith)
        requires
            lhs == k * (t * off),
    ;
    assert(p * (4 * t * k) == (k * t) * (4 * p)) by (nonlinear_arith);
    assert(next * off <= 4 * p) by (nonlinear_arith)
        requires
            (k * t) * (next * off) <= (k * t) * (4 * p),
            k > 0,
            t > 0,
    ;
}

/// Two relative errors together.
proof fn lemma_both(yy: int, yq: int, p: int, big: int, d: int)
    requires
        p > 0,
        big > 0,
        d > 0,
        big * gap(yy, p) <= p,
        0x20_0000_0000_0000 * gap(yq, p) <= p,
        d * (0x20_0000_0000_0000 + big) <= big * 0x20_0000_0000_0000,
    ensures
        d * gap(yy, yq) <= p,
{
    let t = 0x20_0000_0000_0000int;
    let a = gap(yy, p);
    let b = gap(yq, p);
    let c = gap(yy, yq);
    assert(0 <= c <= a + b && a >= 0 && b >= 0);
    // t big c <= t p + big p
    assert((t * big) * c <= t * p + big * p) by (nonlinear_arith)
        requires
            big * a <= p,
            t * b <= p,
            c <= a + b,
            t > 0,
            big > 0,
    ;
    assert(d * ((t * big) * c) <= d * (t * p + big * p)) by (nonlinear_arith)
        requires
            (t * big) * c <= t * p + big * p,
            d > 0,
    ;
    assert(d * (t * p + big * p) == (d * (t + big)) * p) by (nonlinear_arith);
    assert((d * (t + big)) * p <= (big * t) * p) by (nonlinear_arith)
        requires
            d * (t + big) <= big * t,
            p > 0,
    ;
    assert(d * ((t * big) * c) == (t * big) * (d * c)) by (nonlinear_arith);
    assert((big * t) * p == (t * big) * p) by (nonlinear_arith);
    assert(d * c <= p) by (nonlinear_arith)
        requires
            (t * big) * (d * c) <= (t * big) * p,
            t > 0,
            big > 0,
    ;
}

/// What is known of the numbers in the middle of the computation.
spec fn in_reach(y: int, p: int) -> bool {
    &&& pow2(500) <= y < pow2(1600)
    &&& 7 * p <= 8 * (y * y) <= 9 * p
}

proof fn lemma_in_reach(y: int, p: int, d: int)
    requires
        pow2(1100) <= p < pow2(3190),
        y >= 0,
        d >= 8,
        close(y, p, d),
    ensures
        in_reach(y, p),
{
    let yy = y * y;
    let g = gap(yy, p);
    assert(8 * g <= p) by (nonlinear_arith)
        requires
            d * g <= p,
            d >= 8,
            g >= 0,
    ;
    lemma_pow2_adds(500, 500);
    lemma_pow2_strictly_increases(1000, 1100);
    lemma_pow2_pos(500);
    lemma_pow2_pos(1000);
    lemma_pow2_adds(10, 1000);
    lemma_pow2_strictly_increases(1010, 1100);
    vstd::arithmetic::power2::lemma2_to64();
    if y < pow2(500) {
        assert(yy <= pow2(500) * pow2(500)) by (nonlinear_arith)
            requires
                yy == y * y,
                0 <= y <= pow2(500),
        ;
        assert(false);
    }
    lemma_pow2_adds(1600, 1600);
    lemma_pow2_pos(1600);
    lemma_pow2_adds(10, 3190);
    lemma_pow2_pos(3190);
    if y >= pow2(1600) {
        assert(yy >= pow2(1600) * pow2(1600)) by (nonlinear_arith)
            requires
                yy == y * y,
                y >= pow2(1600),
                pow2(1600) > 0,
        ;
        assert(false);
    }
}

/// Half of a large double is exact.
proof fn lemma_halved(s: u64)
    requires
        f_finite(s),
        !f_negative(s),
        pow2(100) <= f_units(s) < pow2(1700),
    ensures
        f_finite(f_product(F_HALF, s)),
        2 * f_scaled(f_product(F_HALF, s)) == f_units(s),
{
    let m = f_significand(s);
    let k = f_shift(s);
    let p = pow2(k);
    lemma_pow2_pos(k);
    vstd::arithmetic::power2::lemma2_to64();
    vstd::arithmetic::power2::lemma2_to64_rest();
    if k == 0 {
        lemma_pow2_strictly_increases(53, 100);
        assert(m * 1 == m);
        assert(false);
    }
    if k >= 1700 {
        if k > 1700 {
            lemma_pow2_strictly_increases(1700, k);
        }
        assert(m * p >= p) by (nonlinear_arith)
            requires
                m >= 1,
                p > 0,
        ;
        assert(false);
    }
    let c = lemma_short_number(m, (k - 1) as nat);
    lemma_pow2_unfold(k);
    let h = pow2((k - 1) as nat);
    lemma_half();
    lemma_pow2_unfold(1074);
    let v = pow2(1073) as int;
    let u = unit();
    let z = (m * h) as int;
    assert(f_units(s) == 2 * z) by (nonlinear_arith)
        requires
            f_units(s) == m * p,
            p == 2 * h,
            z == m * h,
    ;
    assert(u * z == v * (2 * z)) by (nonlinear_arith)
        requires
            u == 2 * v,
    ;
    exact_products_are_kept(F_HALF, s, c);
}

/// A step of Newton's method, with its roundings, makes the root better.
#[verifier::rlimit(60)]
proof fn lemma_float_step(x: u64, y: u64, big: int, d: int, next: int)
    requires
        f_finite(x),
        !f_negative(x),
        f_finite(y),
        !f_negative(y),
        pow2(1100) <= f_units(x) * unit() < pow2(3190),
        big >= 8,
        close(f_units(y) as int, f_units(x) * unit(), big),
        d >= 7,
        d * (0x20_0000_0000_0000 + big) <= big * 0x20_0000_0000_0000,
        0 < next <= 0x8_0000_0000_0000,
        8 * 0x20_0000_0000_0000 * next + 7 * 15 * (d * d) * next <= 7 * 4 * 0x20_0000_0000_0000 * (d * d),
    ensures
        ({
            let z = f_product(F_HALF, f_sum(y, f_quotient(x, y)));
            &&& f_finite(z)
            &&& !f_negative(z)
            &&& close(f_units(z) as int, f_units(x) * unit(), next)
        }),
{
    let p = f_units(x) * unit();
    let yi = f_units(y) as int;
    let t = 0x20_0000_0000_0000int;
    lemma_in_reach(yi, p, big);
    lemma_pow2_pos(500);
    lemma_pow2_pos(1600);
    if f64_magnitude(y) == 0 {
        lemma_zero(y);
    }
    vstd::arithmetic::power2::lemma2_to64();
    vstd::arithmetic::power2::lemma2_to64_rest();
    lemma_pow2_strictly_increases(53, 500);
    lemma_pow2_unfold(1601);
    lemma_pow2_unfold(1602);
    lemma_pow2_unfold(1603);
    lemma_pow2_strictly_increases(1603, 1700);
    lemma_pow2_strictly_increases(1700, 2000);
    lemma_pow2_unfold(500);
    lemma_pow2_strictly_increases(100, 499);
    lemma_pow2_pos(1100);
    let yy = yi * yi;
    // The quotient.
    assert(yi * 0x10_0000_0000_0000 <= p) by (nonlinear_arith)
        requires
            8 * (yi * yi) <= 9 * p,
            yi >= 0x20_0000_0000_0000,
            p > 0,
    ;
    assert(p < yi * pow2(2000)) by (nonlinear_arith)
        requires
            7 * p <= 8 * (yi * yi),
            0 < yi,
            2 * yi < pow2(2000),
    ;
    let q = f_quotient(x, y);
    reveal(f_quotient);
    lemma_not_infinite(p as nat, yi as nat);
    rounding_is_close(p as nat, yi as nat);
    lemma_signed(false, rounded(p as nat, yi as nat));
    let qi = f_units(q) as int;
    assert(f_finite(q) && !f_negative(q));
    assert(t * gap(yi * qi, p) <= p);
    // The sum.
    let yq = yi * qi;
    assert(yq <= 2 * p);
    assert(qi <= 3 * yi) by (nonlinear_arith)
        requires
            yi * qi <= 2 * p,
            7 * p <= 8 * (yi * yi),
            yi > 0,
            qi >= 0,
    ;
    let n = (yi + qi) as nat;
    lemma_not_infinite(n, 1);
    rounding_is_close(n, 1);
    let s = f_sum(y, q);
    reveal(f_sum);
    assert(s == crate::float::with_sign(false, rounded(n, 1)));
    lemma_signed(false, rounded(n, 1));
    let si = f_units(s) as int;
    assert(t * gap(si, yi + qi) <= yi + qi);
    assert(2 * si >= yi + qi && si <= 2 * (yi + qi));
    assert(pow2(100) <= si < pow2(1700));
    // The half.
    lemma_halved(s);
    let z = f_product(F_HALF, s);
    let zi = f_units(z) as int;
    assert(!f_negative(z)) by {
        if f_negative(z) {
            assert(f_scaled(z) <= 0);
        }
    }
    lemma_both(yy, yq, p, big, d);
    lemma_step_close(yi, qi, si, p, d, next);
    let zz = zi * zi;
    assert(si * si == 4 * zz) by (nonlinear_arith)
        requires
            si == 2 * zi,
            zz == zi * zi,
    ;
    assert(gap(4 * zz, 4 * p) == 4 * gap(zz, p));
    let g = gap(zz, p);
    assert(next * (4 * g) == 4 * (next * g)) by (nonlinear_arith);
}

// --- Where it starts -------------------------------------------------------------------------------

/// The first guess is half the exponent: its square is off by at most an eighth.
proof fn lemma_guess(h: int, f: int, even: bool, f0: int)
    requires
        h == 0x10_0000_0000_0000,
        0 <= f < h,
        even ==> f0 == f / 2,
        !even ==> f0 == (h + f) / 2,
    ensures
        close(
            h + f0,
            if even {
                h * (h + f)
            } else {
                2 * h * (h + f)
            },
            8,
        ),
{
    let a = h + f0;
    let aa = a * a;
    if even {
        let p = h * (h + f);
        let r = f - 2 * f0;
        // 4 aa == (2h + f - r)^2
        assert(4 * aa == 4 * p + f * f - r * (4 * h + 2 * f - r)) by (nonlinear_arith)
            requires
                aa == (h + f0) * (h + f0),
                p == h * (h + f),
                r == f - 2 * f0,
        ;
        let ff = f * f;
        assert(0 <= r <= 1);
        assert(0 <= r * (4 * h + 2 * f - r) <= 6 * h) by (nonlinear_arith)
            requires
                0 <= r <= 1,
                0 <= f < h,
                h > 0,
        ;
        assert(2 * ff <= p && 0 <= ff) by (nonlinear_arith)
            requires
                ff == f * f,
                p == h * (h + f),
                0 <= f < h,
        ;
        assert(p >= 12 * h) by (nonlinear_arith)
            requires
                p == h * (h + f),
                h == 0x10_0000_0000_0000,
                f >= 0,
        ;
        assert(8 * gap(aa, p) <= p);
    } else {
        let p = 2 * h * (h + f);
        let r = (h + f) - 2 * f0;
        assert(4 * aa == 4 * p + (h - f) * (h - f) - r * (6 * h + 2 * f - r)) by (nonlinear_arith)
            requires
                aa == (h + f0) * (h + f0),
                p == 2 * h * (h + f),
                r == (h + f) - 2 * f0,
        ;
        let ff = (h - f) * (h - f);
        assert(0 <= r <= 1);
        assert(0 <= r * (6 * h + 2 * f - r) <= 8 * h) by (nonlinear_arith)
            requires
                0 <= r <= 1,
                0 <= f < h,
                h > 0,
        ;
        assert(2 * ff <= p && 0 <= ff) by (nonlinear_arith)
            requires
                ff == (h - f) * (h - f),
                p == 2 * h * (h + f),
                0 <= f < h,
        ;
        assert(p >= 16 * h) by (nonlinear_arith)
            requires
                p == 2 * h * (h + f),
                h == 0x10_0000_0000_0000,
                f >= 0,
        ;
        assert(8 * gap(aa, p) <= p);
    }
}

proof fn lemma_scale_close(a: int, b: int, d: int, k: int)
    requires
        k > 0,
        d > 0,
        close(a, b, d),
    ensures
        close(a * k, b * (k * k), d),
{
    let aa = a * a;
    let kk = k * k;
    let g = gap(aa, b);
    assert(kk > 0) by (nonlinear_arith)
        requires
            kk == k * k,
            k > 0,
    ;
    assert((a * k) * (a * k) == aa * kk) by (nonlinear_arith)
        requires
            aa == a * a,
            kk == k * k,
    ;
    assert((aa - b) * kk == aa * kk - b * kk && (b - aa) * kk == b * kk - aa * kk) by (nonlinear_arith);
    assert((aa * kk < b * kk) == (aa < b)) by (nonlinear_arith)
        requires
            kk > 0,
    ;
    assert(gap(aa * kk, b * kk) == g * kk);
    assert(d * (g * kk) <= b * kk) by (nonlinear_arith)
        requires
            d * g <= b,
            kk > 0,
    ;
}

proof fn lemma_start(x: u64)
    requires
        f_finite(x),
        !f_negative(x),
        f64_magnitude(x) >= 0x10_0000_0000_0000,
    ensures
        ({
            let y = ((x + 0x3ff0_0000_0000_0000) / 2) as u64;
            &&& f_finite(y)
            &&& !f_negative(y)
            &&& close(f_units(y) as int, f_units(x) * unit(), 8)
            &&& pow2(1100) <= f_units(x) * unit() < pow2(3190)
        }),
{
    let h = 0x10_0000_0000_0000int;
    let b = x as int;
    let e = b / h;
    let f = b % h;
    let y = ((x + 0x3ff0_0000_0000_0000) / 2) as u64;
    let m = h + f;
    assert(f_significand(x) == m && f_shift(x) == e - 1);
    let even = e % 2 == 1;
    let e0: int = if even {
        (e + 1023) / 2
    } else {
        (e + 1022) / 2
    };
    let f0: int = if even {
        f / 2
    } else {
        (h + f) / 2
    };
    assert(y as int == e0 * h + f0 && 0 <= f0 < h);
    assert(f_significand(y) == h + f0 && f_shift(y) == e0 - 1);
    lemma_guess(h, f, even, f0);
    let k = pow2((e0 - 1) as nat) as int;
    lemma_pow2_pos((e0 - 1) as nat);
    vstd::arithmetic::power2::lemma2_to64();
    vstd::arithmetic::power2::lemma2_to64_rest();
    lemma_pow2_adds((e0 - 1) as nat, (e0 - 1) as nat);
    lemma_pow2_adds((e - 1) as nat, 1074);
    let w = pow2((2 * (e0 - 1)) as nat) as int;
    assert(k * k == w);
    let c: int = if even {
        h * m
    } else {
        2 * h * m
    };
    lemma_scale_close(h + f0, c, 8, k);
    let xw = pow2((e + 1073) as nat) as int;
    let pe = pow2((e - 1) as nat) as int;
    let u = unit();
    assert(f_units(x) * u == m * xw) by (nonlinear_arith)
        requires
            f_units(x) == m * pe,
            xw == pe * u,
    ;
    if even {
        lemma_pow2_adds(52, (2 * (e0 - 1)) as nat);
        assert(52 + 2 * (e0 - 1) == e + 1073);
        assert(c * w == m * xw) by (nonlinear_arith)
            requires
                c == h * m,
                xw == h * w,
        ;
    } else {
        lemma_pow2_adds(53, (2 * (e0 - 1)) as nat);
        assert(53 + 2 * (e0 - 1) == e + 1073);
        assert(c * w == m * xw) by (nonlinear_arith)
            requires
                c == 2 * h * m,
                xw == (2 * h) * w,
        ;
    }
    assert(f_units(y) as int == (h + f0) * k);
    // The size.
    lemma_pow2_adds(52, (e + 1073) as nat);
    lemma_pow2_adds(53, (e + 1073) as nat);
    lemma_pow2_pos((e + 1073) as nat);
    assert(h * xw <= m * xw < (2 * h) * xw) by (nonlinear_arith)
        requires
            h <= m < 2 * h,
            xw > 0,
    ;
    lemma_pow2_strictly_increases(1100, (52 + e + 1073) as nat);
    lemma_pow2_strictly_increases((53 + e + 1073) as nat, 3190);
}

/// The square of a square root is off from the number by at most one part in `2^51`, for every
/// positive number that is not below all normal ones; the root of zero is zero.
#[verifier::rlimit(40)]
pub proof fn the_square_of_a_root_is_the_number(x: u64)
    requires
        f_finite(x),
        !f_negative(x),
        f64_magnitude(x) == 0 || f64_magnitude(x) >= 0x10_0000_0000_0000,
    ensures
        f_finite(f_sqrt(x)),
        !f_negative(f_sqrt(x)),
        0x8_0000_0000_0000 * gap(f_scaled(f_sqrt(x)) * f_scaled(f_sqrt(x)), f_scaled(x) * unit()) <= f_scaled(x) * unit(),
{
    lemma_zero(F_ZERO);
    doubles_are_ordered_as_numbers(x, F_ZERO);
    doubles_are_ordered_as_numbers(F_ZERO, x);
    let u = unit();
    if f64_magnitude(x) == 0 {
        lemma_zero(x);
        assert(0 * u == 0 && 0int * 0int == 0) by (nonlinear_arith);
    } else {
        lemma_nonzero(x);
        reveal_with_fuel(f_newton, 6);
        lemma_start(x);
        let y0 = ((x + 0x3ff0_0000_0000_0000) / 2) as u64;
        let y1 = f_product(F_HALF, f_sum(y0, f_quotient(x, y0)));
        lemma_float_step(x, y0, 8, 7, 170);
        let y2 = f_product(F_HALF, f_sum(y1, f_quotient(x, y1)));
        lemma_float_step(x, y1, 170, 169, 99000);
        let y3 = f_product(F_HALF, f_sum(y2, f_quotient(x, y2)));
        lemma_float_step(x, y2, 99000, 98999, 30_000_000_000);
        let y4 = f_product(F_HALF, f_sum(y3, f_quotient(x, y3)));
        lemma_float_step(x, y3, 30_000_000_000, 15_000_000_000, 0x8_0000_0000_0000);
        let y5 = f_product(F_HALF, f_sum(y4, f_quotient(x, y4)));
        lemma_float_step(x, y4, 0x8_0000_0000_0000, 0x4_0000_0000_0000, 0x8_0000_0000_0000);
        assert(f_sqrt(x) == y5);
    }
}

} // verus!
