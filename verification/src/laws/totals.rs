//! What a sum of doubles loses in rounding is not lost.

use crate::exec::accum::{agg_state, agg_step, rule_of};
use crate::exec::total::compensated_step;
use crate::float::{
    f_difference, f_finite, f_negated, f_negative, f_scaled, f_shift, f_significand, f_sum, f_units, half_even,
    lemma_spacing, rounded, spacing, F_ZERO,
};
use crate::laws::aggregates::aggregated;
use crate::laws::rounding::{
    exact_sums_are_kept, gap, lemma_not_infinite, lemma_rounded, lemma_same_units, lemma_short_number, lemma_signed,
    lemma_spacing_fits, lemma_units_grow, lemma_zero, no_double_is_nearer, rounding_keeps_doubles,
    rounding_to_a_whole_number_is_nearest, sums_are_nearest,
};
use crate::order::f64_magnitude;
use crate::plan::AggV;
use crate::vector::{PhysType, Val};
use vstd::arithmetic::power2::{lemma_pow2_adds, lemma_pow2_pos, lemma_pow2_strictly_increases, lemma_pow2_unfold, pow2};
use vstd::prelude::*;

verus! {

/// Whether a double is finite and not too large to be added to many others.
pub open spec fn moderate(x: u64) -> bool {
    f_finite(x) && f_shift(x) <= 1900
}

proof fn lemma_spacing_grows(a: nat, b: nat)
    requires
        a <= b,
    ensures
        spacing(a) <= spacing(b),
    decreases b,
{
    if a >= 0x20_0000_0000_0000 {
        lemma_spacing_grows(a / 2, b / 2);
    }
}

/// The spacing at a double is that of its own significand, where it is not below all others.
proof fn lemma_own_spacing(s: u64)
    ensures
        spacing(f_units(s)) == f_shift(s),
        f_significand(s) < 0x20_0000_0000_0000,
{
    let m = f_significand(s);
    let k = f_shift(s);
    let p = pow2(k);
    lemma_pow2_pos(k);
    vstd::arithmetic::power2::lemma2_to64_rest();
    lemma_pow2_adds(53, k);
    lemma_pow2_adds(52, k);
    assert(m * p < 0x20_0000_0000_0000 * p) by (nonlinear_arith)
        requires
            m < 0x20_0000_0000_0000,
            p > 0,
    ;
    if k > 0 {
        assert(m * p >= 0x10_0000_0000_0000 * p) by (nonlinear_arith)
            requires
                m >= 0x10_0000_0000_0000,
                p > 0,
        ;
    }
    lemma_spacing(f_units(s), k);
}

/// A multiple of a power of two is one of every smaller power.
proof fn lemma_finer(x: int, m: int, k: nat, j: nat) -> (n: int)
    requires
        x == m * pow2(k),
        j <= k,
    ensures
        x == n * pow2(j),
{
    let d = (k - j) as nat;
    lemma_pow2_adds(d, j);
    assert(m * (pow2(d) * pow2(j)) == (m * pow2(d)) * pow2(j)) by (nonlinear_arith);
    m * pow2(d)
}

/// A multiple of `2^k` of at most `b` multiples, with `b` below `2^53`, is a double.
proof fn lemma_multiple_is_double(x: int, n: int, k: nat, b: int, limit: int) -> (c: u64)
    requires
        x == n * pow2(k),
        0 <= x <= limit,
        limit == b * pow2(k),
        b < 0x20_0000_0000_0000,
        k <= 1950,
    ensures
        f_finite(c),
        !f_negative(c),
        f_units(c) == x,
{
    let p = pow2(k) as int;
    lemma_pow2_pos(k);
    assert(0 <= n <= b) by (nonlinear_arith)
        requires
            0 <= n * p,
            n * p <= b * p,
            p > 0,
    ;
    lemma_short_number(n as nat, k)
}

/// The sum of two positive doubles, or their difference, rounded: what it is off by is a double,
/// and so is how far it is from the larger one.
#[verifier::rlimit(60)]
proof fn lemma_lost(s: u64, x: u64, n: nat, same: bool) -> (cs: (u64, u64))
    requires
        moderate(s),
        moderate(x),
        f_shift(x) <= f_shift(s),
        f_units(x) <= f_units(s),
        n == if same {
            (f_units(s) + f_units(x)) as int
        } else {
            f_units(s) - f_units(x)
        },
        n > 0,
        rounded(n, 1) < 0x7ff0_0000_0000_0000,
    ensures
        f_finite(cs.0),
        !f_negative(cs.0),
        f_finite(cs.1),
        !f_negative(cs.1),
        f_units(cs.0) == gap(f_units(s) as int, f_units(rounded(n, 1) as u64) as int),
        f_units(cs.1) == gap(n as int, f_units(rounded(n, 1) as u64) as int),
{
    let a = f_units(s) as int;
    let b = f_units(x) as int;
    let ma = f_significand(s) as int;
    let mb = f_significand(x) as int;
    let sa = f_shift(s);
    let sb = f_shift(x);
    lemma_own_spacing(s);
    lemma_own_spacing(x);
    let (k, h) = lemma_rounded(n, 1);
    let u = f_units(rounded(n, 1) as u64) as int;
    let p = pow2(k) as int;
    lemma_pow2_pos(k);
    assert(n / 1 == n);
    lemma_spacing_fits(n);
    assert(1 * pow2(k) == pow2(k));
    rounding_to_a_whole_number_is_nearest(n, pow2(k), 0);
    assert(pow2(k) * h == h * pow2(k)) by (nonlinear_arith);
    assert(2 * gap(u, n as int) <= p);
    let magnitude = f64_magnitude(x) as u64;
    lemma_same_units(magnitude, x);
    if u == n {
        lemma_zero(F_ZERO);
        (magnitude, F_ZERO)
    } else {
        let ai = lemma_finer(a, ma, sa, sb);
        let pb = pow2(sb) as int;
        lemma_pow2_pos(sb);
        let nb: int = if same {
            ai + mb
        } else {
            ai - mb
        };
        assert(n == nb * pb) by (nonlinear_arith)
            requires
                n == if same {
                    ai * pb + mb * pb
                } else {
                    ai * pb - mb * pb
                },
                nb == if same {
                    ai + mb
                } else {
                    ai - mb
                },
        ;
        if k <= sb {
            // The exact result is a multiple of the spacing, and so stays as it is.
            let q = lemma_finer(n as int, nb, sb, k);
            vstd::arithmetic::div_mod::lemma_fundamental_div_mod_converse(n as int, p, q, 0);
            assert(half_even(n, pow2(k)) == q);
            assert(false);
        }
        let ub = lemma_finer(u, h as int, k, sb);
        no_double_is_nearer(n, 1, s);
        // What is lost.
        let e = gap(n as int, u);
        let en: int = if n < u {
            ub - nb
        } else {
            nb - ub
        };
        assert(e == en * pb) by (nonlinear_arith)
            requires
                n == nb * pb,
                u == ub * pb,
                e == if n < u {
                    u - n
                } else {
                    n - u
                },
                en == if n < u {
                    ub - nb
                } else {
                    nb - ub
                },
        ;
        let c1 = lemma_multiple_is_double(e, en, sb, mb, b);
        // How far the result is from the larger number.
        let pa = pow2(sa) as int;
        lemma_pow2_pos(sa);
        if same {
            lemma_spacing_grows(f_units(s), n);
            let ua = lemma_finer(u, h as int, k, sa);
            let twice = lemma_short_number(ma as nat, sa + 1);
            lemma_pow2_unfold(sa + 1);
            assert(ma * (2 * pa) == 2 * (ma * pa)) by (nonlinear_arith);
            no_double_is_nearer(n, 1, twice);
            assert(a <= u <= 2 * a);
            assert(u - a == (ua - ma) * pa) by (nonlinear_arith)
                requires
                    u == ua * pa,
                    a == ma * pa,
            ;
            let c0 = lemma_multiple_is_double(u - a, ua - ma, sa, ma, a);
            (c0, c1)
        } else {
            if n <= b {
                let c = lemma_multiple_is_double(n as int, nb, sb, mb, b);
                rounding_keeps_doubles(n, 1, c);
                lemma_same_units(rounded(n, 1) as u64, c);
                assert(false);
            }
            lemma_spacing_grows(n, f_units(s));
            let ak = lemma_finer(a, ma, sa, k);
            assert(u <= a);
            let d = a - u;
            let m = ak - h;
            assert(d == m * p) by (nonlinear_arith)
                requires
                    a == ak * p,
                    u == h * p,
                    d == a - u,
                    m == ak - h,
            ;
            vstd::arithmetic::power2::lemma2_to64_rest();
            lemma_pow2_adds(53, k);
            assert(2 * d <= 2 * b + p);
            assert(0 <= m <= 0x20_0000_0000_0000) by (nonlinear_arith)
                requires
                    0 <= m * p,
                    2 * (m * p) <= 2 * b + p,
                    b < 0x20_0000_0000_0000 * p,
                    p > 0,
            ;
            if m < 0x20_0000_0000_0000 {
                let c0 = lemma_short_number(m as nat, k);
                (c0, c1)
            } else {
                let c0 = lemma_short_number(0x10_0000_0000_0000, k + 1);
                lemma_pow2_unfold(k + 1);
                assert(0x10_0000_0000_0000 * (2 * p) == m * p);
                (c0, c1)
            }
        }
    }
}

proof fn lemma_with(c: u64, neg: bool) -> (d: u64)
    requires
        f_finite(c),
        !f_negative(c),
    ensures
        f_finite(d),
        f_scaled(d) == if neg {
            -(f_units(c) as int)
        } else {
            f_units(c) as int
        },
{
    if neg {
        assert(f_units(f_negated(c)) == f_units(c));
        f_negated(c)
    } else {
        c
    }
}

/// What the sum of a larger and a smaller double loses can be told exactly.
#[verifier::rlimit(40)]
proof fn lemma_two_sum(s: u64, x: u64)
    requires
        moderate(s),
        moderate(x),
        f64_magnitude(x) <= f64_magnitude(s),
    ensures
        ({
            let t = f_sum(s, x);
            let d = f_difference(s, t);
            let e = f_sum(d, x);
            &&& f_finite(t)
            &&& f_finite(d)
            &&& f_finite(e)
            &&& f_scaled(d) == f_scaled(s) - f_scaled(t)
            &&& f_scaled(t) + f_scaled(e) == f_scaled(s) + f_scaled(x)
        }),
{
    reveal(f_sum);
    let t = f_sum(s, x);
    let a = f_units(s);
    let b = f_units(x);
    if f64_magnitude(x) < f64_magnitude(s) {
        lemma_units_grow(x, s);
    } else {
        lemma_same_units(x, s);
    }
    lemma_zero(F_ZERO);
    lemma_zero(0x8000_0000_0000_0000u64);
    let same = f_negative(s) == f_negative(x);
    let sum = f_scaled(s) + f_scaled(x);
    let d = f_difference(s, t);
    assert(f_units(f_negated(t)) == f_units(t));
    if sum == 0 {
        assert(f_scaled(t) == 0 && f_finite(t));
        exact_sums_are_kept(s, f_negated(t), s);
        exact_sums_are_kept(d, x, F_ZERO);
    } else {
        let n: nat = if same {
            a + b
        } else {
            (a - b) as nat
        };
        let neg = sum < 0;
        assert(n == if neg {
            -sum
        } else {
            sum
        });
        lemma_moderate_sum(s, x, n);
        let r = rounded(n, 1);
        lemma_signed(neg, r);
        let (c0, c1) = lemma_lost(s, x, n, same);
        let u = f_units(r as u64) as int;
        let sn = f_scaled(s) - f_scaled(t);
        let d0 = lemma_with(c0, sn < 0);
        exact_sums_are_kept(s, f_negated(t), d0);
        let en = sum - f_scaled(t);
        let d1 = lemma_with(c1, en < 0);
        exact_sums_are_kept(d, x, d1);
    }
}

proof fn lemma_moderate_sum(s: u64, x: u64, n: nat)
    requires
        moderate(s),
        moderate(x),
        n <= f_units(s) + f_units(x),
    ensures
        rounded(n, 1) < 0x7ff0_0000_0000_0000,
{
    lemma_moderate(s);
    lemma_moderate(x);
    lemma_pow2_unfold(1954);
    lemma_pow2_strictly_increases(1954, 2000);
    lemma_not_infinite(n, 1);
}

proof fn lemma_moderate(x: u64)
    requires
        moderate(x),
    ensures
        f_units(x) < pow2(1953),
{
    let m = f_significand(x);
    let k = f_shift(x);
    let p = pow2(k);
    lemma_pow2_pos(k);
    vstd::arithmetic::power2::lemma2_to64_rest();
    lemma_pow2_adds(53, k);
    if 53 + k < 1953 {
        lemma_pow2_strictly_increases(53 + k, 1953);
    }
    assert(m < 0x20_0000_0000_0000);
    assert(m * p < 0x20_0000_0000_0000 * p) by (nonlinear_arith)
        requires
            m < 0x20_0000_0000_0000,
            p > 0,
    ;
}

/// A step of a sum of doubles keeps the compensation that it adds to exactly what rounding loses:
/// where nothing was lost before, the sum and its compensation together are the exact sum.
pub proof fn nothing_is_lost_in_a_step(s: u64, comp: u64, x: u64)
    requires
        moderate(s),
        moderate(x),
        f_finite(comp),
        f_scaled(comp) == 0,
    ensures
        ({
            let r = compensated_step(s, comp, x);
            &&& f_finite(r.0)
            &&& f_finite(r.1)
            &&& r.0 == f_sum(s, x)
            &&& f_scaled(r.0) + f_scaled(r.1) == f_scaled(s) + f_scaled(x)
        }),
{
    let t = f_sum(s, x);
    if f64_magnitude(s) >= f64_magnitude(x) {
        lemma_two_sum(s, x);
        let e = f_sum(f_difference(s, t), x);
        exact_sums_are_kept(comp, e, e);
    } else {
        lemma_two_sum(x, s);
        assert(f_sum(x, s) == t) by {
            reveal(f_sum);
        }
        let e = f_sum(f_difference(x, t), s);
        exact_sums_are_kept(comp, e, e);
    }
}

/// The sum of two doubles is the double nearest to their exact sum.
pub proof fn the_sum_of_two_doubles_is_nearest(a: AggV, x: u64, y: u64, c: u64)
    requires
        a.kind is Sum,
        a.input_ty().phys() == PhysType::F64,
        moderate(x),
        moderate(y),
        f_finite(c),
    ensures
        aggregated(a, seq![Val::F64(x), Val::F64(y)]) matches Ok(Val::F64(s)) && f_finite(s) && gap(
            f_scaled(s),
            f_scaled(x) + f_scaled(y),
        ) <= gap(f_scaled(c), f_scaled(x) + f_scaled(y)),
{
    reveal(agg_step);
    reveal_with_fuel(agg_state, 3);
    let r = rule_of(a)->0;
    let s1 = seq![Val::F64(x)];
    let s2 = seq![Val::F64(x), Val::F64(y)];
    assert(s1.drop_last() =~= Seq::<Val>::empty());
    assert(s2.drop_last() =~= s1);
    lemma_zero(F_ZERO);
    nothing_is_lost_in_a_step(x, F_ZERO, y);
    let t = compensated_step(x, F_ZERO, y);
    lemma_same_sum(t.0, t.1, x, y);
    sums_are_nearest(t.0, t.1, c);
}

/// Pairs of doubles with the same exact sum have the same sum.
proof fn lemma_same_sum(a: u64, b: u64, c: u64, d: u64)
    requires
        f_finite(a),
        f_finite(b),
        f_finite(c),
        f_finite(d),
        f_finite(f_sum(c, d)),
        f_scaled(a) + f_scaled(b) == f_scaled(c) + f_scaled(d),
    ensures
        f_finite(f_sum(a, b)),
        f_scaled(f_sum(a, b)) == f_scaled(f_sum(c, d)),
{
    reveal(f_sum);
    lemma_zero(F_ZERO);
    lemma_zero(0x8000_0000_0000_0000u64);
}

proof fn lemma_turned_shift(x: u64)
    requires
        moderate(x),
    ensures
        moderate(f_negated(x)),
        f_scaled(f_negated(x)) == -f_scaled(x),
        f64_magnitude(f_negated(x)) == f64_magnitude(x),
{
    assert(f_units(f_negated(x)) == f_units(x));
}

/// What is added and taken away again leaves the other values as they are: the sum of a double, a
/// smaller one and the first with its sign turned is the smaller one, however much smaller it is.
#[verifier::rlimit(40)]
pub proof fn what_is_taken_away_again_leaves_nothing(a: AggV, x: u64, y: u64)
    requires
        a.kind is Sum,
        a.input_ty().phys() == PhysType::F64,
        moderate(x),
        moderate(y),
        f64_magnitude(y) <= f64_magnitude(x),
    ensures
        aggregated(a, seq![Val::F64(x), Val::F64(y), Val::F64(f_negated(x))]) matches Ok(Val::F64(s)) && f_finite(s)
            && f_scaled(s) == f_scaled(y),
{
    reveal(agg_step);
    reveal_with_fuel(agg_state, 4);
    let r = rule_of(a)->0;
    let z = f_negated(x);
    let s1 = seq![Val::F64(x)];
    let s2 = seq![Val::F64(x), Val::F64(y)];
    let s3 = seq![Val::F64(x), Val::F64(y), Val::F64(z)];
    assert(s1.drop_last() =~= Seq::<Val>::empty());
    assert(s2.drop_last() =~= s1);
    assert(s3.drop_last() =~= s2);
    lemma_zero(F_ZERO);
    lemma_turned_shift(x);
    nothing_is_lost_in_a_step(x, F_ZERO, y);
    lemma_two_sum(x, y);
    let t = compensated_step(x, F_ZERO, y);
    let d = f_difference(x, t.0);
    assert(f_units(f_negated(d)) == f_units(d));
    exact_sums_are_kept(t.0, z, f_negated(d));
    let t2 = f_sum(t.0, z);
    assert(f_units(f_negated(t2)) == f_units(t2));
    assert(f_units(f_negated(t.0)) == f_units(t.0));
    exact_sums_are_kept(t.0, f_negated(t2), x);
    exact_sums_are_kept(f_difference(t.0, t2), z, F_ZERO);
    exact_sums_are_kept(z, f_negated(t2), f_negated(t.0));
    exact_sums_are_kept(f_difference(z, t2), t.0, F_ZERO);
    let l1 = f_sum(f_difference(t.0, t2), z);
    let l2 = f_sum(f_difference(z, t2), t.0);
    exact_sums_are_kept(t.1, l1, t.1);
    exact_sums_are_kept(t.1, l2, t.1);
    let u = compensated_step(t.0, t.1, z);
    assert(f_scaled(u.0) + f_scaled(u.1) == f_scaled(y));
    exact_sums_are_kept(u.0, u.1, y);
}

} // verus!
