//! Double-precision arithmetic on bit patterns.
//!
//! A double is held as its 64-bit pattern. Every finite double is a whole number
//! of units of 2^-1074, so exact sums, products and quotients are ratios of whole
//! numbers, and each operation is stated as the rounding of an exact ratio to the
//! nearest double, ties to the even significand.

use crate::order::{f64_is_nan, f64_magnitude, f64_rank};
use vstd::arithmetic::div_mod::lemma_fundamental_div_mod;
use vstd::arithmetic::div_mod::lemma_fundamental_div_mod_converse;
use vstd::arithmetic::power2::{
    lemma_pow2_adds, lemma_pow2_pos, lemma_pow2_strictly_increases, lemma_pow2_unfold, pow2,
};
use vstd::prelude::*;

verus! {

/// The sign bit alone: negative zero.
pub const NEG_ZERO: u64 = 0x8000_0000_0000_0000;

/// Positive infinity.
pub const INFINITY: u64 = 0x7ff0_0000_0000_0000;

/// The quiet NaN that operations return.
pub const NAN: u64 = 0x7ff8_0000_0000_0000;

pub const F_ZERO: u64 = 0;

pub const F_HALF: u64 = 0x3fe0_0000_0000_0000;

pub const F_ONE: u64 = 0x3ff0_0000_0000_0000;

pub const F_TEN: u64 = 0x4024_0000_0000_0000;

pub const F_HUNDRED: u64 = 0x4059_0000_0000_0000;

const P52: u64 = 0x10_0000_0000_0000;

const P127: u128 = 0x8000_0000_0000_0000_0000_0000_0000_0000;

// --- What a pattern stands for ------------------------------------------------------

pub open spec fn f_negative(bits: u64) -> bool {
    bits >= 0x8000_0000_0000_0000
}

pub open spec fn f_infinite(bits: u64) -> bool {
    f64_magnitude(bits) == 0x7ff0_0000_0000_0000
}

pub open spec fn f_finite(bits: u64) -> bool {
    f64_magnitude(bits) < 0x7ff0_0000_0000_0000
}

/// The power of two by which the significand is scaled, in units of 2^-1074.
pub open spec fn f_shift(bits: u64) -> nat {
    let e = f64_magnitude(bits) / 0x10_0000_0000_0000;
    if e == 0 {
        0
    } else {
        (e - 1) as nat
    }
}

/// The significand as a whole number, with the leading bit of a normal number.
pub open spec fn f_significand(bits: u64) -> nat {
    let m = f64_magnitude(bits);
    if m / 0x10_0000_0000_0000 == 0 {
        m as nat
    } else {
        (m % 0x10_0000_0000_0000 + 0x10_0000_0000_0000) as nat
    }
}

/// The absolute value of a finite number, in units of 2^-1074.
pub open spec fn f_units(bits: u64) -> nat {
    f_significand(bits) * pow2(f_shift(bits))
}

/// The value of a finite number, in units of 2^-1074.
pub open spec fn f_scaled(bits: u64) -> int {
    if f_negative(bits) {
        -(f_units(bits) as int)
    } else {
        f_units(bits) as int
    }
}

// --- Rounding -------------------------------------------------------------------------

/// `n / d` rounded to a whole number, a tie to the even one.
pub open spec fn half_even(n: nat, d: nat) -> nat {
    let q = n / d;
    let r = n % d;
    if 2 * r > d || (2 * r == d && q % 2 == 1) {
        q + 1
    } else {
        q
    }
}

/// How far the doubles near a value are spaced apart: the power of two, in units.
pub open spec fn spacing(q: nat) -> nat
    decreases q,
{
    if q < 0x20_0000_0000_0000 {
        0
    } else {
        1 + spacing(q / 2)
    }
}

/// The magnitude pattern of the double nearest to `n / d` units, ties to even.
/// What is too large for any double is infinity.
pub open spec fn rounded(n: nat, d: nat) -> nat {
    let k = spacing(n / d);
    let bits = k * 0x10_0000_0000_0000 + half_even(n, d * pow2(k));
    if bits > 0x7ff0_0000_0000_0000 {
        0x7ff0_0000_0000_0000
    } else {
        bits
    }
}

pub open spec fn with_sign(neg: bool, magnitude: nat) -> u64 {
    if neg {
        (magnitude + 0x8000_0000_0000_0000) as u64
    } else {
        magnitude as u64
    }
}

// --- The operations -------------------------------------------------------------------

/// The sum.
#[verifier::opaque]
pub open spec fn f_sum(a: u64, b: u64) -> u64 {
    if f64_is_nan(a) || f64_is_nan(b) {
        NAN
    } else if f_infinite(a) {
        if f_infinite(b) && f_negative(a) != f_negative(b) {
            NAN
        } else {
            a
        }
    } else if f_infinite(b) {
        b
    } else {
        let s = f_scaled(a) + f_scaled(b);
        if s == 0 {
            if f_negative(a) && f_negative(b) {
                NEG_ZERO
            } else {
                F_ZERO
            }
        } else if s < 0 {
            with_sign(true, rounded((-s) as nat, 1))
        } else {
            with_sign(false, rounded(s as nat, 1))
        }
    }
}

/// The number with its sign turned.
pub open spec fn f_negated(a: u64) -> u64 {
    if f_negative(a) {
        (a - 0x8000_0000_0000_0000) as u64
    } else {
        (a + 0x8000_0000_0000_0000) as u64
    }
}

pub open spec fn f_difference(a: u64, b: u64) -> u64 {
    f_sum(a, f_negated(b))
}

#[verifier::opaque]
pub open spec fn f_product(a: u64, b: u64) -> u64 {
    let neg = f_negative(a) != f_negative(b);
    if f64_is_nan(a) || f64_is_nan(b) {
        NAN
    } else if f_infinite(a) || f_infinite(b) {
        if f64_magnitude(a) == 0 || f64_magnitude(b) == 0 {
            NAN
        } else {
            with_sign(neg, 0x7ff0_0000_0000_0000)
        }
    } else {
        with_sign(neg, rounded(f_units(a) * f_units(b), pow2(1074)))
    }
}

#[verifier::opaque]
pub open spec fn f_quotient(a: u64, b: u64) -> u64 {
    let neg = f_negative(a) != f_negative(b);
    if f64_is_nan(a) || f64_is_nan(b) {
        NAN
    } else if f_infinite(a) {
        if f_infinite(b) {
            NAN
        } else {
            with_sign(neg, 0x7ff0_0000_0000_0000)
        }
    } else if f_infinite(b) {
        with_sign(neg, 0)
    } else if f64_magnitude(b) == 0 {
        if f64_magnitude(a) == 0 {
            NAN
        } else {
            with_sign(neg, 0x7ff0_0000_0000_0000)
        }
    } else {
        with_sign(neg, rounded(f_units(a) * pow2(1074), f_units(b)))
    }
}

/// The double nearest to a whole number.
#[verifier::opaque]
pub open spec fn f_of_int(x: int) -> u64 {
    if x < 0 {
        with_sign(true, rounded(((-x) * pow2(1074)) as nat, 1))
    } else {
        with_sign(false, rounded((x * pow2(1074)) as nat, 1))
    }
}

/// The whole part as an unsigned number; below 0 and NaN give 0, too large gives
/// the largest.
#[verifier::opaque]
pub open spec fn f_whole(a: u64) -> u64 {
    if f64_is_nan(a) || f_negative(a) {
        0
    } else if f_infinite(a) || f_units(a) / pow2(1074) > u64::MAX {
        u64::MAX
    } else {
        (f_units(a) / pow2(1074)) as u64
    }
}

/// Whether one number is less than another; a NaN is not.
pub open spec fn f_less(a: u64, b: u64) -> bool {
    !f64_is_nan(a) && !f64_is_nan(b) && f64_rank(a) < f64_rank(b)
}

// --- Lemmas -----------------------------------------------------------------------------

/// A ratio of whole numbers fixes the quotient, and whether there is a remainder.
proof fn lemma_same_ratio(n: nat, p: nat, a: nat, b: nat)
    requires
        p > 0,
        b > 0,
        n * b == a * p,
    ensures
        n / p == a / b,
        (n % p == 0) == (a % b == 0),
{
    let m = a / b;
    let r = a % b;
    lemma_fundamental_div_mod(a as int, b as int);
    let z = n - m * p;
    assert(b * z == r * p) by (nonlinear_arith)
        requires
            z == n - m * p,
            n * b == a * p,
            a == b * m + r,
    ;
    assert(0 <= z < p) by (nonlinear_arith)
        requires
            b * z == r * p,
            0 <= r < b,
            b > 0,
            p > 0,
    ;
    assert(n == m * p + z);
    lemma_fundamental_div_mod_converse(n as int, p as int, m as int, z);
    assert((z == 0) == (r == 0)) by (nonlinear_arith)
        requires
            b * z == r * p,
            b > 0,
            p > 0,
    ;
}

pub(crate) proof fn lemma_spacing(q: nat, k: nat)
    requires
        q < pow2(53 + k),
        k > 0 ==> q >= pow2((52 + k) as nat),
    ensures
        spacing(q) == k,
    decreases k,
{
    vstd::arithmetic::power2::lemma2_to64_rest();
    if k == 0 {
        assert(pow2(53) == 0x20_0000_0000_0000);
    } else {
        lemma_pow2_unfold((53 + k) as nat);
        lemma_pow2_unfold((52 + k) as nat);
        if k > 1 {
            lemma_pow2_strictly_increases(53, (52 + k) as nat);
        }
        assert(pow2(53) == 0x20_0000_0000_0000);
        assert(q >= 0x20_0000_0000_0000);
        assert(52 + k == 53 + (k - 1));
        lemma_spacing(q / 2, (k - 1) as nat);
    }
}

/// The rounding of `n / d`, read off the whole part of `4n / (d * 2^e)`.
proof fn lemma_rounding(n: nat, d: nat, m: nat, e: nat, k: nat, s: nat, len: nat)
    requires
        d > 0,
        m == (4 * n) / (d * pow2(e)),
        m < pow2(len),
        len > 0 ==> m >= pow2((len - 1) as nat),
        k == if len + e > 55 {
            (len + e - 55) as nat
        } else {
            0
        },
        s >= 1,
        s + e == k + 2,
    ensures
        spacing(n / d) == k,
        half_even(n, d * pow2(k)) == {
            let t = pow2(s);
            let q = m / t;
            let mr = m % t;
            let h = pow2((s - 1) as nat);
            let sticky = (4 * n) % (d * pow2(e)) != 0;
            if mr > h || (mr == h && (sticky || q % 2 == 1)) {
                q + 1
            } else {
                q
            }
        },
{
    let p = d * pow2(e);
    lemma_pow2_pos(e);
    lemma_pow2_pos(k);
    lemma_pow2_pos(s);
    assert(p > 0) by (nonlinear_arith)
        requires
            p == d * pow2(e),
            d > 0,
            pow2(e) > 0,
    ;
    let r0 = (4 * n) % p;
    lemma_fundamental_div_mod(4 * n as int, p as int);
    assert(4 * n == p * m + r0);
    // spacing
    let q0 = n / d;
    lemma_fundamental_div_mod(n as int, d as int);
    let top = pow2(len);
    lemma_pow2_adds(e, len);
    assert(4 * n < d * pow2(e + len)) by (nonlinear_arith)
        requires
            4 * n == p * m + r0,
            r0 < p,
            m + 1 <= top,
            pow2(e) * top == pow2(e + len),
            p == d * pow2(e),
            p > 0,
    ;
    let hi = pow2((53 + k) as nat);
    lemma_pow2_unfold((55 + k) as nat);
    lemma_pow2_unfold((54 + k) as nat);
    assert(pow2((55 + k) as nat) == 4 * hi);
    if e + len < 55 + k {
        lemma_pow2_strictly_increases((e + len) as nat, (55 + k) as nat);
    }
    assert(pow2(e + len) <= 4 * hi);
    assert(q0 < hi) by (nonlinear_arith)
        requires
            4 * n < d * pow2(e + len),
            pow2(e + len) <= 4 * hi,
            n == d * q0 + n % d,
            n % d >= 0,
            d > 0,
    ;
    if k > 0 {
        let lo = pow2((52 + k) as nat);
        lemma_pow2_unfold((53 + k) as nat);
        lemma_pow2_adds(e, (len - 1) as nat);
        assert(e + (len - 1) == 54 + k);
        lemma_pow2_unfold((54 + k) as nat);
        let low = pow2((len - 1) as nat);
        assert(4 * n >= d * (4 * lo)) by (nonlinear_arith)
            requires
                4 * n == p * m + r0,
                r0 >= 0,
                m >= low,
                p == d * pow2(e),
                p > 0,
                pow2(e) * low == 4 * lo,
        ;
        assert(q0 >= lo) by (nonlinear_arith)
            requires
                4 * n >= d * (4 * lo),
                n == d * q0 + n % d,
                n % d < d,
                d > 0,
        ;
    }
    lemma_spacing(q0, k);
    // rounding
    let t = pow2(s);
    let h = pow2((s - 1) as nat);
    lemma_pow2_unfold(s);
    lemma_pow2_pos((s - 1) as nat);
    let big = d * pow2(k);
    assert(big > 0) by (nonlinear_arith)
        requires
            big == d * pow2(k),
            d > 0,
            pow2(k) > 0,
    ;
    lemma_pow2_adds(e, s);
    lemma_pow2_unfold((k + 2) as nat);
    lemma_pow2_unfold((k + 1) as nat);
    assert(4 * big == p * t) by (nonlinear_arith)
        requires
            big == d * pow2(k),
            p == d * pow2(e),
            pow2(e) * t == 4 * pow2(k),
    ;
    let q = m / t;
    let mr = m % t;
    lemma_fundamental_div_mod(m as int, t as int);
    let rest = p * mr + r0;
    assert(4 * n == 4 * big * q + rest) by (nonlinear_arith)
        requires
            4 * n == p * m + r0,
            m == t * q + mr,
            4 * big == p * t,
            rest == p * mr + r0,
    ;
    assert(0 <= rest < 4 * big) by (nonlinear_arith)
        requires
            rest == p * mr + r0,
            0 <= mr < t,
            0 <= r0 < p,
            4 * big == p * t,
    ;
    let r1 = n - big * q;
    assert(4 * r1 == rest) by (nonlinear_arith)
        requires
            r1 == n - big * q,
            4 * n == 4 * big * q + rest,
    ;
    assert(q * big + r1 == n) by (nonlinear_arith)
        requires
            r1 == n - big * q,
    ;
    lemma_fundamental_div_mod_converse(n as int, big as int, q as int, r1);
    assert(2 * big == p * h) by (nonlinear_arith)
        requires
            4 * big == p * t,
            t == 2 * h,
    ;
    if mr > h {
        assert(rest > p * h) by (nonlinear_arith)
            requires
                rest == p * mr + r0,
                mr >= h + 1,
                r0 >= 0,
                p > 0,
        ;
    } else if mr < h {
        assert(rest < p * h) by (nonlinear_arith)
            requires
                rest == p * mr + r0,
                mr + 1 <= h,
                r0 < p,
                p > 0,
        ;
    }
}

// --- Pieces of the arithmetic --------------------------------------------------------

/// `2^j`.
fn power_of_two(j: u32) -> (r: u128)
    requires
        j < 128,
    ensures
        r == pow2(j as nat),
{
    proof {
        vstd::arithmetic::power2::lemma2_to64();
    }
    let mut r: u128 = 1;
    let mut i: u32 = 0;
    while i < j
        invariant
            i <= j < 128,
            r == pow2(i as nat),
        decreases j - i,
    {
        proof {
            lemma_pow2_unfold((i + 1) as nat);
            lemma_pow2_127(i as nat);
        }
        r = r * 2;
        i = i + 1;
    }
    r
}

proof fn lemma_pow2_127(i: nat)
    requires
        i < 127,
    ensures
        pow2(i) < 0x8000_0000_0000_0000_0000_0000_0000_0000,
        pow2(i) * 2 <= 0x8000_0000_0000_0000_0000_0000_0000_0000,
{
    vstd::arithmetic::power2::lemma2_to64();
    vstd::arithmetic::power2::lemma2_to64_rest();
    lemma_pow2_adds(63, 64);
    assert(pow2(127) == 0x8000_0000_0000_0000_0000_0000_0000_0000);
    lemma_pow2_strictly_increases(i, 127);
    lemma_pow2_unfold((i + 1) as nat);
    if i + 1 < 127 {
        lemma_pow2_strictly_increases((i + 1) as nat, 127);
    }
}

pub fn is_negative(bits: u64) -> (r: bool)
    ensures
        r == f_negative(bits),
{
    bits >= 0x8000_0000_0000_0000
}

pub fn magnitude_of(bits: u64) -> (r: u64)
    ensures
        r == f64_magnitude(bits),
{
    if bits >= 0x8000_0000_0000_0000 {
        bits - 0x8000_0000_0000_0000
    } else {
        bits
    }
}

/// The significand and shift of a finite number.
fn split(bits: u64) -> (r: (u64, u32))
    requires
        f_finite(bits),
    ensures
        r.0 == f_significand(bits),
        r.1 == f_shift(bits),
        r.0 < 0x20_0000_0000_0000,
        r.1 <= 2045,
        r.1 > 0 ==> r.0 >= 0x10_0000_0000_0000,
        f_units(bits) == r.0 * pow2(r.1 as nat),
        (r.0 == 0) == (f64_magnitude(bits) == 0),
{
    let m: u64 = magnitude_of(bits);
    let e: u64 = m / P52;
    let f: u64 = m % P52;
    assert(m == P52 * e + f) by {
        lemma_fundamental_div_mod(m as int, P52 as int);
    }
    if e == 0 {
        (m, 0)
    } else {
        (f + P52, (e - 1) as u32)
    }
}

fn signed(neg: bool, mag: u64) -> (r: u64)
    requires
        mag <= 0x7ff0_0000_0000_0000,
    ensures
        r == with_sign(neg, mag as nat),
{
    if neg {
        mag + 0x8000_0000_0000_0000
    } else {
        mag
    }
}

/// The pattern of the double nearest to `n / d` units, given the whole part of
/// `4n / (d * 2^e)` and whether a remainder is left.
fn round_whole(m: u128, sticky: bool, e: u32, Ghost(n): Ghost<nat>, Ghost(d): Ghost<nat>) -> (r: u64)
    requires
        d > 0,
        e <= 8000,
        m == (4 * n) / (d * pow2(e as nat)),
        sticky == ((4 * n) % (d * pow2(e as nat)) != 0),
        sticky ==> e == 0 || m >= 0x80_0000_0000_0000,
    ensures
        r == rounded(n, d),
        r <= 0x7ff0_0000_0000_0000,
{
    let mut m1: u128 = m;
    let mut e1: u32 = e;
    if !sticky {
        proof {
            lemma_pow2_pos(e as nat);
            let p = d * pow2(e as nat);
            assert(p > 0) by (nonlinear_arith)
                requires
                    p == d * pow2(e as nat),
                    d > 0,
                    pow2(e as nat) > 0,
            ;
            lemma_fundamental_div_mod(4 * n as int, p as int);
            assert(4 * n == m1 * (d * pow2(e1 as nat))) by (nonlinear_arith)
                requires
                    4 * n == p * m1,
                    p == d * pow2(e1 as nat),
            ;
        }
        while e1 > 0 && m1 < P127
            invariant
                d > 0,
                e1 <= 8000,
                4 * n == m1 * (d * pow2(e1 as nat)),
            decreases e1,
        {
            proof {
                lemma_pow2_unfold(e1 as nat);
                let half = pow2((e1 - 1) as nat);
                assert(m1 * (d * (2 * half)) == (m1 * 2) * (d * half)) by (nonlinear_arith);
            }
            m1 = m1 * 2;
            e1 = e1 - 1;
        }
        proof {
            lemma_pow2_pos(e1 as nat);
            let p = d * pow2(e1 as nat);
            assert(p > 0) by (nonlinear_arith)
                requires
                    p == d * pow2(e1 as nat),
                    d > 0,
                    pow2(e1 as nat) > 0,
            ;
            lemma_fundamental_div_mod_converse(4 * n as int, p as int, m1 as int, 0);
        }
    }
    // The bit length of m1.
    let mut len: u32 = 0;
    let mut top: u128 = m1;
    proof {
        vstd::arithmetic::power2::lemma2_to64();
        vstd::arithmetic::power2::lemma2_to64_rest();
        assert(m1 as int / 1 == m1);
    }
    while top > 0
        invariant
            len <= 128,
            top == (m1 as nat) / pow2(len as nat),
            len > 0 ==> m1 >= pow2((len - 1) as nat),
        decreases top,
    {
        proof {
            lemma_length_step(m1 as nat, len as nat);
        }
        top = top / 2;
        len = len + 1;
    }
    proof {
        lemma_pow2_pos(len as nat);
        lemma_fundamental_div_mod(m1 as int, pow2(len as nat) as int);
        assert((m1 as int) / (pow2(len as nat) as int) == 0);
        assert(pow2(len as nat) as int * 0 == 0);
        assert(m1 < pow2(len as nat));
        if len < 56 && m1 >= 0x80_0000_0000_0000 {
            if len < 55 {
                lemma_pow2_strictly_increases(len as nat, 55);
            }
            assert(pow2(55) == 0x80_0000_0000_0000);
        }
    }
    assert(e1 == 0 || len >= 56);
    let k: u32 = if len + e1 > 55 {
        len + e1 - 55
    } else {
        0
    };
    let s: u32 = k + 2 - e1;
    proof {
        lemma_rounding(n, d, m1 as nat, e1 as nat, k as nat, s as nat, len as nat);
        lemma_pow2_unfold(s as nat);
        lemma_pow2_pos(s as nat);
    }
    let t: u128 = power_of_two(s);
    let q: u128 = m1 / t;
    let rem: u128 = m1 % t;
    let half: u128 = t / 2;
    let up: bool = rem > half || (rem == half && (sticky || q % 2 == 1));
    proof {
        // q < 2^53
        lemma_pow2_adds(s as nat, 53);
        if len < s + 53 {
            lemma_pow2_strictly_increases(len as nat, (s + 53) as nat);
        }
        assert(m1 < t * pow2(53)) by {
            assert(pow2((s + 53) as nat) == t * pow2(53));
        }
        lemma_fundamental_div_mod(m1 as int, t as int);
        assert(q < 0x20_0000_0000_0000) by (nonlinear_arith)
            requires
                m1 == t * q + rem,
                rem >= 0,
                m1 < t * 0x20_0000_0000_0000,
                t > 0,
        ;
    }
    let mant: u64 = if up {
        q as u64 + 1
    } else {
        q as u64
    };
    if k >= 2047 {
        return INFINITY;
    }
    let bits: u64 = k as u64 * P52 + mant;
    if bits > INFINITY {
        INFINITY
    } else {
        bits
    }
}

proof fn lemma_length_step(m: nat, len: nat)
    requires
        m / pow2(len) > 0,
        len <= 128,
        m <= u128::MAX,
    ensures
        m >= pow2(len),
        len < 128,
        (m / pow2(len)) / 2 == m / pow2(len + 1),
{
    lemma_pow2_pos(len);
    lemma_fundamental_div_mod(m as int, pow2(len) as int);
    let q = m / pow2(len);
    let p = pow2(len);
    assert(m >= p) by (nonlinear_arith)
        requires
            m == p * q + m % p,
            q >= 1,
            m % p >= 0,
            p > 0,
    ;
    if len == 128 {
        vstd::arithmetic::power2::lemma2_to64();
        vstd::arithmetic::power2::lemma2_to64_rest();
        lemma_pow2_adds(64, 64);
        assert(pow2(128) == 0x1_0000_0000_0000_0000 * 0x1_0000_0000_0000_0000);
    }
    lemma_pow2_unfold(len + 1);
    vstd::arithmetic::div_mod::lemma_div_denominator(m as int, p as int, 2);
    assert(p * 2 == pow2(len + 1));
}

// --- The operations, executed -----------------------------------------------------------

/// Turns the sign.
pub fn negate(a: u64) -> (r: u64)
    ensures
        r == f_negated(a),
{
    if a >= 0x8000_0000_0000_0000 {
        a - 0x8000_0000_0000_0000
    } else {
        a + 0x8000_0000_0000_0000
    }
}

pub fn is_nan(a: u64) -> (r: bool)
    ensures
        r == f64_is_nan(a),
{
    magnitude_of(a) > INFINITY
}

pub fn is_infinite(a: u64) -> (r: bool)
    ensures
        r == f_infinite(a),
{
    magnitude_of(a) == INFINITY
}

/// Whether one number is less than another.
pub fn less(a: u64, b: u64) -> (r: bool)
    ensures
        r == f_less(a, b),
{
    !is_nan(a) && !is_nan(b) && crate::order::f64_key(a) < crate::order::f64_key(b)
}

/// The double nearest to a whole number.
pub fn from_int(x: i128) -> (r: u64)
    ensures
        r == f_of_int(x as int),
{
    reveal(f_of_int);
    let neg: bool = x < 0;
    let m: u128 = if x == i128::MIN {
        P127
    } else if neg {
        (-x) as u128
    } else {
        x as u128
    };
    let ghost n: nat = (m * pow2(1074)) as nat;
    proof {
        lemma_pow2_pos(1074);
        lemma_pow2_unfold(1076);
        lemma_pow2_unfold(1075);
        lemma_pow2_pos(1076);
        assert(4 * n == m * (1 * pow2(1076))) by (nonlinear_arith)
            requires
                n == m * pow2(1074),
                pow2(1076) == 4 * pow2(1074),
        ;
        lemma_fundamental_div_mod_converse(4 * n as int, (1 * pow2(1076)) as int, m as int, 0);
    }
    let r: u64 = round_whole(m, false, 1076, Ghost(n), Ghost(1));
    signed(neg, r)
}

/// The sum of two finite numbers of which the first is shifted at least as far.
fn plus_aligned(a: u64, b: u64) -> (r: u64)
    requires
        f_finite(a),
        f_finite(b),
        f_shift(a) >= f_shift(b),
    ensures
        r == f_sum(a, b),
{
    reveal(f_sum);
    let na: bool = is_negative(a);
    let nb: bool = is_negative(b);
    let pa: (u64, u32) = split(a);
    let pb: (u64, u32) = split(b);
    let ma: u64 = pa.0;
    let ea: u32 = pa.1;
    let mb: u64 = pb.0;
    let eb: u32 = pb.1;
    let diff: u32 = ea - eb;
    if diff <= 64 {
        let w: u128 = power_of_two(diff);
        proof {
            vstd::arithmetic::power2::lemma2_to64();
            vstd::arithmetic::power2::lemma2_to64_rest();
            if diff < 64 {
                lemma_pow2_strictly_increases(diff as nat, 64);
            }
            assert(ma * w <= 0x20_0000_0000_0000 * 0x1_0000_0000_0000_0000) by (nonlinear_arith)
                requires
                    0 <= ma <= 0x20_0000_0000_0000,
                    0 <= w <= 0x1_0000_0000_0000_0000,
            ;
        }
        let x: u128 = ma as u128 * w;
        let y: u128 = mb as u128;
        let ghost unit = pow2(eb as nat);
        proof {
            lemma_pow2_adds(diff as nat, eb as nat);
            assert(f_units(a) == x * unit) by (nonlinear_arith)
                requires
                    f_units(a) == ma * pow2(ea as nat),
                    pow2(ea as nat) == w * unit,
                    x == ma * w,
            ;
            lemma_pow2_pos(eb as nat);
        }
        let same: bool = na == nb;
        let m: u128 = if same {
            x + y
        } else if x >= y {
            x - y
        } else {
            y - x
        };
        let neg: bool = if same || x >= y {
            na
        } else {
            nb
        };
        let ghost sum = f_scaled(a) + f_scaled(b);
        proof {
            assert(sum == if neg {
                -(m * unit)
            } else {
                m * unit
            }) by (nonlinear_arith)
                requires
                    sum == (if na {
                        -(x * unit)
                    } else {
                        x * unit
                    }) + (if nb {
                        -(y * unit)
                    } else {
                        y * unit
                    }),
                    same == (na == nb),
                    m == (if same {
                        x + y
                    } else if x >= y {
                        x - y
                    } else {
                        y - x
                    }),
                    neg == (if same || x >= y {
                        na
                    } else {
                        nb
                    }),
            ;
        }
        if m == 0 {
            assert(sum == 0) by (nonlinear_arith)
                requires
                    m == 0,
                    sum == -(m * unit) || sum == m * unit,
            ;
            return if na && nb {
                NEG_ZERO
            } else {
                F_ZERO
            };
        }
        let ghost n: nat = (m * unit) as nat;
        proof {
            assert(m * unit > 0) by (nonlinear_arith)
                requires
                    m > 0,
                    unit > 0,
            ;
            lemma_exact(m as nat, eb as nat, n);
        }
        let r: u64 = round_whole(m, false, eb + 2, Ghost(n), Ghost(1));
        signed(neg, r)
    } else {
        let w: u128 = power_of_two(64);
        let t: u32 = diff - 64;
        proof {
            vstd::arithmetic::power2::lemma2_to64();
            vstd::arithmetic::power2::lemma2_to64_rest();
            lemma_pow2_pos(t as nat);
            if t >= 64 {
                if t > 64 {
                    lemma_pow2_strictly_increases(64, t as nat);
                }
                lemma_fundamental_div_mod_converse(mb as int, pow2(t as nat) as int, 0, mb as int);
            }
            assert(ma * w <= 0x20_0000_0000_0000 * 0x1_0000_0000_0000_0000) by (nonlinear_arith)
                requires
                    0 <= ma <= 0x20_0000_0000_0000,
                    w == 0x1_0000_0000_0000_0000,
            ;
            assert(ma * w >= 0x10_0000_0000_0000 * 0x1_0000_0000_0000_0000) by (nonlinear_arith)
                requires
                    ma >= 0x10_0000_0000_0000,
                    w == 0x1_0000_0000_0000_0000,
            ;
        }
        let big: u128 = ma as u128 * w;
        let (q, sticky): (u128, bool) = if t >= 64 {
            (0, mb > 0)
        } else {
            let d: u128 = power_of_two(t);
            (mb as u128 / d, mb as u128 % d != 0)
        };
        assert(q == (mb as nat) / pow2(t as nat));
        assert(sticky == ((mb as nat) % pow2(t as nat) != 0));
        proof {
            lemma_pow2_pos(t as nat);
            lemma_fundamental_div_mod(mb as int, pow2(t as nat) as int);
            let p = pow2(t as nat);
            assert(q <= mb) by (nonlinear_arith)
                requires
                    mb == p * q + (mb as nat) % p,
                    p >= 1,
                    (mb as nat) % p >= 0,
                    q >= 0,
            ;
        }
        let e: u32 = ea - 62;
        let ghost n: nat;
        let m: u128 = if na == nb {
            big + q
        } else if sticky {
            big - q - 1
        } else {
            big - q
        };
        proof {
            let ua = f_units(a);
            let ub = f_units(b);
            n = if na == nb {
                ua + ub
            } else {
                (ua - ub) as nat
            };
            lemma_far_apart(ma as nat, ea as nat, mb as nat, eb as nat, na == nb);
        }
        let r: u64 = round_whole(m, sticky, e, Ghost(n), Ghost(1));
        signed(na, r)
    }
}

proof fn lemma_exact(m: nat, e: nat, n: nat)
    requires
        n == m * pow2(e),
    ensures
        m == (4 * n) / (1 * pow2(e + 2)),
        (4 * n) % (1 * pow2(e + 2)) == 0,
{
    lemma_pow2_unfold(e + 2);
    lemma_pow2_unfold(e + 1);
    lemma_pow2_pos(e + 2);
    assert(4 * n == m * (1 * pow2(e + 2))) by (nonlinear_arith)
        requires
            n == m * pow2(e),
            pow2(e + 2) == 4 * pow2(e),
    ;
    lemma_fundamental_div_mod_converse(4 * n as int, (1 * pow2(e + 2)) as int, m as int, 0);
}

/// The sum of a number and one more than 64 places below it, in units of 2^(ea - 62) quarters.
proof fn lemma_far_apart(ma: nat, ea: nat, mb: nat, eb: nat, same: bool)
    requires
        0x10_0000_0000_0000 <= ma,
        mb < 0x20_0000_0000_0000,
        ea > eb + 64,
    ensures
        ({
            let t = (ea - eb - 64) as nat;
            let ua = ma * pow2(ea);
            let ub = mb * pow2(eb);
            let q = mb / pow2(t);
            let sticky = mb % pow2(t) != 0;
            let big = ma * pow2(64);
            let n = if same {
                ua + ub
            } else {
                (ua - ub) as nat
            };
            let p = 1 * pow2((ea - 62) as nat);
            &&& ua > ub
            &&& sticky == ((4 * n) % p != 0)
            &&& (4 * n) / p == if same {
                (big + q) as int
            } else if sticky {
                big - q - 1
            } else {
                big - q
            }
        }),
{
    let t = (ea - eb - 64) as nat;
    let ua = ma * pow2(ea);
    let ub = mb * pow2(eb);
    let q = mb / pow2(t);
    let r = mb % pow2(t);
    let big = ma * pow2(64);
    let p = pow2((ea - 62) as nat);
    lemma_pow2_pos(t);
    lemma_pow2_pos(eb);
    lemma_pow2_pos((ea - 62) as nat);
    lemma_fundamental_div_mod(mb as int, pow2(t) as int);
    lemma_pow2_unfold((ea + 2) as nat);
    lemma_pow2_unfold((ea + 1) as nat);
    lemma_pow2_adds(64, (ea - 62) as nat);
    assert(4 * pow2(ea) == pow2(64) * p);
    assert(4 * ua == big * p) by (nonlinear_arith)
        requires
            ua == ma * pow2(ea),
            4 * pow2(ea) == pow2(64) * p,
            big == ma * pow2(64),
    ;
    lemma_pow2_unfold((eb + 2) as nat);
    lemma_pow2_unfold((eb + 1) as nat);
    lemma_pow2_adds(t, (eb + 2) as nat);
    let u = pow2((eb + 2) as nat);
    assert(pow2(t) * u == p);
    let rest = r * u;
    assert(4 * ub == q * p + rest) by (nonlinear_arith)
        requires
            ub == mb * pow2(eb),
            u == 4 * pow2(eb),
            mb == pow2(t) * q + r,
            pow2(t) * u == p,
            rest == r * u,
    ;
    lemma_pow2_pos((eb + 2) as nat);
    assert(0 <= rest < p) by (nonlinear_arith)
        requires
            rest == r * u,
            0 <= r < pow2(t),
            pow2(t) * u == p,
            u > 0,
    ;
    assert((rest == 0) == (r == 0)) by (nonlinear_arith)
        requires
            rest == r * u,
            u > 0,
            r >= 0,
    ;
    vstd::arithmetic::power2::lemma2_to64();
    vstd::arithmetic::power2::lemma2_to64_rest();
    assert(q <= mb) by (nonlinear_arith)
        requires
            mb == pow2(t) * q + r,
            pow2(t) >= 1,
            r >= 0,
            q >= 0,
    ;
    assert(big >= 0x10_0000_0000_0000 * 0x1_0000_0000_0000_0000) by (nonlinear_arith)
        requires
            big == ma * pow2(64),
            pow2(64) == 0x1_0000_0000_0000_0000,
            ma >= 0x10_0000_0000_0000,
    ;
    assert(ua > ub) by (nonlinear_arith)
        requires
            4 * ua == big * p,
            4 * ub == q * p + rest,
            rest < p,
            big >= q + 1,
            p > 0,
    ;
    if same {
        let n = ua + ub;
        assert(4 * n == (big + q) * p + rest) by (nonlinear_arith)
            requires
                n == ua + ub,
                4 * ua == big * p,
                4 * ub == q * p + rest,
        ;
        lemma_fundamental_div_mod_converse(4 * n as int, p as int, (big + q) as int, rest as int);
    } else {
        let n = (ua - ub) as nat;
        if r == 0 {
            assert(4 * n == (big - q) * p + 0) by (nonlinear_arith)
                requires
                    n == ua - ub,
                    4 * ua == big * p,
                    4 * ub == q * p,
            ;
            lemma_fundamental_div_mod_converse(4 * n as int, p as int, (big - q) as int, 0);
        } else {
            assert(4 * n == (big - q - 1) * p + (p - rest)) by (nonlinear_arith)
                requires
                    n == ua - ub,
                    4 * ua == big * p,
                    4 * ub == q * p + rest,
            ;
            lemma_fundamental_div_mod_converse(
                4 * n as int,
                p as int,
                (big - q - 1) as int,
                (p - rest) as int,
            );
        }
    }
}

/// The sum.
pub fn plus(a: u64, b: u64) -> (r: u64)
    ensures
        r == f_sum(a, b),
{
    reveal(f_sum);
    if is_nan(a) || is_nan(b) {
        return NAN;
    }
    if is_infinite(a) {
        return if is_infinite(b) && is_negative(a) != is_negative(b) {
            NAN
        } else {
            a
        };
    }
    if is_infinite(b) {
        return b;
    }
    let ea: u32 = split(a).1;
    let eb: u32 = split(b).1;
    if ea >= eb {
        plus_aligned(a, b)
    } else {
        plus_aligned(b, a)
    }
}

/// The difference.
pub fn minus(a: u64, b: u64) -> (r: u64)
    ensures
        r == f_difference(a, b),
{
    plus(a, negate(b))
}

/// The product.
pub fn times(a: u64, b: u64) -> (r: u64)
    ensures
        r == f_product(a, b),
{
    reveal(f_product);
    let neg: bool = is_negative(a) != is_negative(b);
    if is_nan(a) || is_nan(b) {
        return NAN;
    }
    if is_infinite(a) || is_infinite(b) {
        return if magnitude_of(a) == 0 || magnitude_of(b) == 0 {
            NAN
        } else {
            signed(neg, INFINITY)
        };
    }
    let pa: (u64, u32) = split(a);
    let pb: (u64, u32) = split(b);
    let ma: u64 = pa.0;
    let ea: u32 = pa.1;
    let mb: u64 = pb.0;
    let eb: u32 = pb.1;
    assert(ma * mb <= 0x20_0000_0000_0000 * 0x20_0000_0000_0000) by (nonlinear_arith)
        requires
            0 <= ma <= 0x20_0000_0000_0000,
            0 <= mb <= 0x20_0000_0000_0000,
    ;
    let m: u128 = ma as u128 * mb as u128;
    let ghost n: nat = f_units(a) * f_units(b);
    let ghost d: nat = pow2(1074);
    proof {
        lemma_pow2_pos(1074);
        lemma_pow2_adds(ea as nat, eb as nat);
        lemma_pow2_unfold((ea + eb + 2) as nat);
        lemma_pow2_unfold((ea + eb + 1) as nat);
        assert(4 * n == m * pow2((ea + eb + 2) as nat)) by (nonlinear_arith)
            requires
                n == (ma * pow2(ea as nat)) * (mb * pow2(eb as nat)),
                m == ma * mb,
                pow2((ea + eb + 2) as nat) == 4 * (pow2(ea as nat) * pow2(eb as nat)),
        ;
    }
    let total: u32 = ea + eb + 2;
    let r: u64 = if total >= 1074 {
        let e: u32 = total - 1074;
        proof {
            lemma_pow2_adds(1074, e as nat);
            lemma_pow2_pos(total as nat);
            lemma_fundamental_div_mod_converse(4 * n as int, (d * pow2(e as nat)) as int, m as int, 0);
        }
        round_whole(m, false, e, Ghost(n), Ghost(d))
    } else {
        let sh: u32 = 1074 - total;
        proof {
            vstd::arithmetic::power2::lemma2_to64();
            lemma_pow2_pos(sh as nat);
            lemma_pow2_adds(total as nat, sh as nat);
            let x = pow2(total as nat);
            let y = pow2(sh as nat);
            assert((4 * n) * y == m * (d * 1)) by (nonlinear_arith)
                requires
                    4 * n == m * x,
                    x * y == d,
            ;
            assert(pow2(0) == 1);
            lemma_same_ratio(4 * n, d * pow2(0), m as nat, y);
            if sh >= 127 {
                lemma_pow2_127(126);
                lemma_pow2_127_at();
                if sh > 127 {
                    lemma_pow2_strictly_increases(127, sh as nat);
                }
                lemma_fundamental_div_mod_converse(m as int, y as int, 0, m as int);
            }
        }
        let (q, sticky): (u128, bool) = if sh >= 127 {
            (0, m > 0)
        } else {
            let y: u128 = power_of_two(sh);
            (m / y, m % y != 0)
        };
        round_whole(q, sticky, 0, Ghost(n), Ghost(d))
    };
    signed(neg, r)
}

proof fn lemma_pow2_127_at()
    ensures
        pow2(127) == 0x8000_0000_0000_0000_0000_0000_0000_0000,
{
    vstd::arithmetic::power2::lemma2_to64();
    vstd::arithmetic::power2::lemma2_to64_rest();
    lemma_pow2_adds(63, 64);
}

/// The quotient.
pub fn over(a: u64, b: u64) -> (r: u64)
    ensures
        r == f_quotient(a, b),
{
    reveal(f_quotient);
    let neg: bool = is_negative(a) != is_negative(b);
    if is_nan(a) || is_nan(b) {
        return NAN;
    }
    if is_infinite(a) {
        return if is_infinite(b) {
            NAN
        } else {
            signed(neg, INFINITY)
        };
    }
    if is_infinite(b) {
        return signed(neg, 0);
    }
    if magnitude_of(b) == 0 {
        return if magnitude_of(a) == 0 {
            NAN
        } else {
            signed(neg, INFINITY)
        };
    }
    let pa: (u64, u32) = split(a);
    let pb: (u64, u32) = split(b);
    let mb: u64 = pb.0;
    let eb: u32 = pb.1;
    let ghost n: nat = f_units(a) * pow2(1074);
    let ghost d: nat = f_units(b);
    proof {
        lemma_pow2_pos(eb as nat);
        assert(d > 0) by (nonlinear_arith)
            requires
                d == mb * pow2(eb as nat),
                mb > 0,
                pow2(eb as nat) > 0,
        ;
    }
    if pa.0 == 0 {
        proof {
            lemma_zero_rounds(d);
            assert(n == 0) by (nonlinear_arith)
                requires
                    n == (0 * pow2(pa.1 as nat)) * pow2(1074),
            ;
        }
        return signed(neg, 0);
    }
    let mut ma: u64 = pa.0;
    let mut t0: u32 = pa.1 + 1076;
    proof {
        lemma_pow2_adds(pa.1 as nat, 1074);
        lemma_pow2_unfold((pa.1 + 1076) as nat);
        lemma_pow2_unfold((pa.1 + 1075) as nat);
        assert(4 * n == ma * pow2(t0 as nat)) by (nonlinear_arith)
            requires
                n == (ma * pow2(pa.1 as nat)) * pow2(1074),
                pow2(t0 as nat) == 4 * (pow2(pa.1 as nat) * pow2(1074)),
        ;
    }
    let mut c: u32 = 0;
    proof {
        vstd::arithmetic::power2::lemma2_to64();
    }
    while ma < P52
        invariant
            pow2(c as nat) <= ma < 0x20_0000_0000_0000,
            c <= 52,
            1076 <= t0 + c <= 1076 + 2045,
            4 * n == ma * pow2(t0 as nat),
        decreases 0x20_0000_0000_0000 - ma,
    {
        proof {
            lemma_pow2_unfold(t0 as nat);
            lemma_pow2_unfold((c + 1) as nat);
            lemma_pow2_pos(c as nat);
            let half = pow2((t0 - 1) as nat);
            assert(ma * (2 * half) == (ma * 2) * half) by (nonlinear_arith);
            if c == 52 {
                vstd::arithmetic::power2::lemma2_to64_rest();
            }
        }
        ma = ma * 2;
        t0 = t0 - 1;
        c = c + 1;
    }
    let ghost x = pow2(t0 as nat);
    let ghost y = pow2(eb as nat);
    let r: u64 = if t0 >= eb + 75 {
        let e: u32 = t0 - eb - 75;
        let w: u128 = power_of_two(75);
        proof {
            lemma_p75();
            lemma_pow2_adds(75, (eb + e) as nat);
            lemma_pow2_adds(eb as nat, e as nat);
            lemma_pow2_pos(e as nat);
            assert(ma * w < 0x20_0000_0000_0000 * 0x800_0000_0000_0000_0000) by (nonlinear_arith)
                requires
                    0 <= ma < 0x20_0000_0000_0000,
                    w == 0x800_0000_0000_0000_0000,
            ;
        }
        let num: u128 = ma as u128 * w;
        proof {
            let z = pow2(e as nat);
            let p = d * z;
            assert(p > 0) by (nonlinear_arith)
                requires
                    p == d * z,
                    d > 0,
                    z > 0,
            ;
            assert((4 * n) * mb == num * p) by (nonlinear_arith)
                requires
                    4 * n == ma * x,
                    x == w * (y * z),
                    num == ma * w,
                    p == (mb * y) * z,
            ;
            lemma_same_ratio(4 * n, p, num as nat, mb as nat);
            let q = (num / mb as u128) as int;
            lemma_fundamental_div_mod(num as int, mb as int);
            assert(q >= 0x80_0000_0000_0000) by (nonlinear_arith)
                requires
                    num == mb * q + (num as int) % (mb as int),
                    (num as int) % (mb as int) < mb,
                    0 < mb < 0x20_0000_0000_0000,
                    num == ma * w,
                    ma >= 0x10_0000_0000_0000,
                    w == 0x800_0000_0000_0000_0000,
            ;
        }
        round_whole(num / mb as u128, num % mb as u128 != 0, e, Ghost(n), Ghost(d))
    } else if t0 >= eb {
        let t: u32 = t0 - eb;
        let w: u128 = power_of_two(t);
        proof {
            lemma_p75();
            lemma_pow2_strictly_increases(t as nat, 75);
            lemma_pow2_adds(t as nat, eb as nat);
            assert(ma * w < 0x20_0000_0000_0000 * 0x800_0000_0000_0000_0000) by (nonlinear_arith)
                requires
                    0 <= ma < 0x20_0000_0000_0000,
                    0 <= w <= 0x800_0000_0000_0000_0000,
            ;
        }
        let num: u128 = ma as u128 * w;
        proof {
            assert(pow2(0) == 1);
            assert((4 * n) * mb == num * (d * 1)) by (nonlinear_arith)
                requires
                    4 * n == ma * x,
                    x == w * y,
                    num == ma * w,
                    d == mb * y,
            ;
            lemma_same_ratio(4 * n, d * pow2(0), num as nat, mb as nat);
        }
        round_whole(num / mb as u128, num % mb as u128 != 0, 0, Ghost(n), Ghost(d))
    } else {
        let t: u32 = eb - t0;
        let ghost den: nat = mb as nat * pow2(t as nat);
        proof {
            lemma_pow2_pos(t as nat);
            lemma_pow2_adds(t as nat, t0 as nat);
            assert(pow2(0) == 1);
            let z = pow2(t as nat);
            assert(den > 0) by (nonlinear_arith)
                requires
                    den == mb * z,
                    mb > 0,
                    z > 0,
            ;
            assert((4 * n) * den == ma * (d * 1)) by (nonlinear_arith)
                requires
                    4 * n == ma * x,
                    y == z * x,
                    den == mb * z,
                    d == mb * y,
            ;
            lemma_same_ratio(4 * n, d * pow2(0), ma as nat, den);
            if t >= 70 {
                lemma_p75();
                vstd::arithmetic::power2::lemma2_to64_rest();
                lemma_pow2_strictly_increases(64, t as nat);
                assert(ma < den) by (nonlinear_arith)
                    requires
                        den == mb * z,
                        mb >= 1,
                        z >= 0x1_0000_0000_0000_0000,
                        ma < 0x20_0000_0000_0000,
                ;
                lemma_fundamental_div_mod_converse(ma as int, den as int, 0, ma as int);
            }
        }
        if t >= 70 {
            round_whole(0, true, 0, Ghost(n), Ghost(d))
        } else {
            let w: u128 = power_of_two(t);
            proof {
                lemma_p75();
                lemma_pow2_strictly_increases(t as nat, 75);
                assert(mb * w < 0x20_0000_0000_0000 * 0x800_0000_0000_0000_0000) by (nonlinear_arith)
                    requires
                        0 <= mb < 0x20_0000_0000_0000,
                        0 <= w <= 0x800_0000_0000_0000_0000,
                ;
            }
            let b1: u128 = mb as u128 * w;
            round_whole(ma as u128 / b1, ma as u128 % b1 != 0, 0, Ghost(n), Ghost(d))
        }
    };
    signed(neg, r)
}

proof fn lemma_p75()
    ensures
        pow2(75) == 0x800_0000_0000_0000_0000,
{
    vstd::arithmetic::power2::lemma2_to64();
    vstd::arithmetic::power2::lemma2_to64_rest();
    lemma_pow2_adds(64, 11);
}

/// The whole part, as an unsigned number.
pub fn whole(a: u64) -> (r: u64)
    ensures
        r == f_whole(a),
{
    reveal(f_whole);
    if is_nan(a) || is_negative(a) {
        return 0;
    }
    if is_infinite(a) {
        return u64::MAX;
    }
    let pa: (u64, u32) = split(a);
    let m: u64 = pa.0;
    let e: u32 = pa.1;
    let ghost n = f_units(a);
    let ghost d = pow2(1074);
    proof {
        lemma_pow2_pos(1074);
        vstd::arithmetic::power2::lemma2_to64();
        vstd::arithmetic::power2::lemma2_to64_rest();
    }
    if e >= 1074 {
        let t: u32 = e - 1074;
        proof {
            lemma_pow2_adds(t as nat, 1074);
            let w = pow2(t as nat);
            assert(n == (m * w) * d) by (nonlinear_arith)
                requires
                    n == m * (w * d),
            ;
            lemma_pow2_pos(t as nat);
            assert(m * w >= 0) by (nonlinear_arith)
                requires
                    m >= 0,
                    w >= 0,
            ;
            lemma_fundamental_div_mod_converse(n as int, d as int, m * w, 0);
            if t >= 12 {
                if t > 12 {
                    lemma_pow2_strictly_increases(12, t as nat);
                }
                assert(m * w >= 0x10_0000_0000_0000 * 0x1000) by (nonlinear_arith)
                    requires
                        m >= 0x10_0000_0000_0000,
                        w >= 0x1000,
                ;
            } else {
                lemma_pow2_strictly_increases(t as nat, 12);
                assert(m * w <= 0x20_0000_0000_0000 * 0x1000) by (nonlinear_arith)
                    requires
                        0 <= m <= 0x20_0000_0000_0000,
                        0 <= w <= 0x1000,
                ;
            }
        }
        if t >= 12 {
            return u64::MAX;
        }
        let v: u128 = m as u128 * power_of_two(t);
        if v > u64::MAX as u128 {
            u64::MAX
        } else {
            v as u64
        }
    } else {
        let t: u32 = 1074 - e;
        proof {
            lemma_pow2_adds(e as nat, t as nat);
            lemma_pow2_pos(t as nat);
            let x = pow2(e as nat);
            let y = pow2(t as nat);
            assert(n * y == m * d) by (nonlinear_arith)
                requires
                    n == m * x,
                    x * y == d,
            ;
            lemma_same_ratio(n, d, m as nat, y);
            if t >= 64 {
                if t > 64 {
                    lemma_pow2_strictly_increases(64, t as nat);
                }
                lemma_fundamental_div_mod_converse(m as int, y as int, 0, m as int);
            } else {
                lemma_fundamental_div_mod(m as int, y as int);
                let q = m as int / y as int;
                assert(q <= m) by (nonlinear_arith)
                    requires
                        m == y * q + (m as int) % (y as int),
                        y >= 1,
                        (m as int) % (y as int) >= 0,
                        q >= 0,
                ;
            }
        }
        if t >= 64 {
            return 0;
        }
        (m as u128 / power_of_two(t)) as u64
    }
}

proof fn lemma_zero_rounds(d: nat)
    requires
        d > 0,
    ensures
        rounded(0, d) == 0,
{
    vstd::arithmetic::power2::lemma2_to64();
    assert(0nat / d == 0) by {
        lemma_fundamental_div_mod_converse(0, d as int, 0, 0);
    }
    assert(pow2(0) == 1);
    assert(d * pow2(0) == d);
    lemma_fundamental_div_mod_converse(0, d as int, 0, 0);
}

} // verus!
