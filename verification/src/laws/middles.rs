//! Medians and variances.

use crate::error::Code;
use crate::exec::accum::{agg_state, agg_step, double_rule, f_sqrt, rule_of, variance_of, AggOp, RuleV};
use crate::exec::ranking::{all_in, arranged, arranging_sorts, inserted, orders};
use crate::exec::rowkey::f_pow10;
use crate::exec::total::{divisor, scaled_double};
use crate::float::{
    f_difference, f_finite, f_less, f_negated, f_of_int, f_product, f_quotient, f_scaled, f_sum, f_units, F_HALF, F_ONE,
    F_ZERO,
};
use crate::laws::aggregates::{aggregated, lemma_zero_over, places};
use crate::laws::elements::{distance, short_decimals_are_nearest};
use crate::laws::rounding::{
    doubles_are_ordered_as_numbers, exact_products_are_kept, exact_quotients_are_kept, exact_sums_are_kept, lemma_one,
    lemma_short_number, lemma_zero, powers_of_ten_are_exact, short_numbers_are_exact, ten_to, unit,
};
use crate::laws::sampling::lemma_half;
use crate::order::{f64_magnitude, f64_rank, Order};
use crate::plan::AggV;
use crate::vector::{Ty, Val};
use vstd::arithmetic::power2::{lemma_pow2_pos, lemma_pow2_unfold, pow2};
use vstd::prelude::*;

verus! {

// --- Numbers as doubles ------------------------------------------------------------------------

/// A number of a column as a double: of up to `2^53` and 22 digits behind the point, it is the
/// double nearest to the stored integer divided by that power of ten.
pub proof fn stored_numbers_become_the_nearest_doubles(v: Val, ty: Ty, c: u64)
    requires
        v.as_int() is Some,
        -0x20_0000_0000_0000 < v.as_int()->0 < 0x20_0000_0000_0000,
        0 < places(ty) <= 22,
        f_finite(c),
    ensures
        ({
            let x = v.as_int()->0;
            let m = if x < 0 {
                -x
            } else {
                x
            };
            &&& scaled_double(v, divisor(ty)) matches Some(q) && f_finite(q) && distance(q, x < 0, m, -(places(ty) as int))
                <= distance(c, x < 0, m, -(places(ty) as int))
        }),
{
    let x = v.as_int()->0;
    let p = places(ty);
    let q = f_quotient(f_of_int(x), f_pow10(p));
    assert(scaled_double(v, divisor(ty)) == Some(q));
    let m = if x < 0 {
        -x
    } else {
        x
    };
    short_decimals_are_nearest(x < 0, m, -(p as int), c);
    powers_of_ten_are_exact(p);
    lemma_zero_over(f_pow10(p), ten_to(p));
    if x < 0 {
        lemma_negative_quotient(m, f_pow10(p));
    }
}

/// Turning the sign of a whole number turns that of its quotient.
proof fn lemma_negative_quotient(m: int, y: u64)
    requires
        0 < m < 0x20_0000_0000_0000,
        f_finite(y),
    ensures
        f_quotient(f_of_int(-m), y) == f_negated(f_quotient(f_of_int(m), y)) || f64_magnitude(y) == 0,
{
    reveal(f_quotient);
    reveal(f_of_int);
    short_numbers_are_exact(m);
    short_numbers_are_exact(-m);
    let u = unit();
    assert(-(-m) == m);
    assert(f64_magnitude(f_of_int(-m)) == f64_magnitude(f_of_int(m)));
    assert(f_units(f_of_int(-m)) == f_units(f_of_int(m)));
}

// --- Halves ---------------------------------------------------------------------------------------

/// Half of one, in units.
spec fn half() -> int {
    pow2(1073) as int
}

proof fn lemma_halves(m: int) -> (c: u64)
    requires
        -0x20_0000_0000_0000 < m < 0x20_0000_0000_0000,
    ensures
        f_finite(c),
        f_scaled(c) == m * half(),
        unit() == 2 * half(),
        half() > 0,
{
    lemma_pow2_unfold(1074);
    lemma_pow2_pos(1073);
    let p = half();
    if m >= 0 {
        lemma_short_number(m as nat, 1073)
    } else {
        let c = lemma_short_number((-m) as nat, 1073);
        assert((-m) * p == -(m * p)) by (nonlinear_arith);
        assert(f_units(f_negated(c)) == f_units(c));
        f_negated(c)
    }
}

/// The sum of halves is exact.
proof fn lemma_sum_halves(a: u64, b: u64, x: int, y: int)
    requires
        f_finite(a),
        f_finite(b),
        f_scaled(a) == x * half(),
        f_scaled(b) == y * half(),
        -0x20_0000_0000_0000 < x + y < 0x20_0000_0000_0000,
    ensures
        f_finite(f_sum(a, b)),
        f_scaled(f_sum(a, b)) == (x + y) * half(),
{
    let c = lemma_halves(x + y);
    let p = half();
    assert((x + y) * p == x * p + y * p) by (nonlinear_arith);
    exact_sums_are_kept(a, b, c);
}

proof fn lemma_difference_halves(a: u64, b: u64, x: int, y: int)
    requires
        f_finite(a),
        f_finite(b),
        f_scaled(a) == x * half(),
        f_scaled(b) == y * half(),
        -0x20_0000_0000_0000 < x - y < 0x20_0000_0000_0000,
    ensures
        f_finite(f_difference(a, b)),
        f_scaled(f_difference(a, b)) == (x - y) * half(),
{
    let p = half();
    assert((-y) * p == -(y * p)) by (nonlinear_arith);
    assert(f_units(f_negated(b)) == f_units(b));
    lemma_sum_halves(a, f_negated(b), x, -y);
}

/// The product of a whole number and a half is exact, and so is that of two halves whose product
/// has a half at most.
proof fn lemma_product_halves(a: u64, b: u64, x: int, y: int, z: int)
    requires
        f_finite(a),
        f_finite(b),
        f_scaled(a) == x * half(),
        f_scaled(b) == y * half(),
        x * y == 2 * z,
        -0x20_0000_0000_0000 < z < 0x20_0000_0000_0000,
    ensures
        f_finite(f_product(a, b)),
        f_scaled(f_product(a, b)) == z * half(),
{
    let c = lemma_halves(z);
    let p = half();
    let u = unit();
    assert(u * (z * p) == (x * p) * (y * p)) by (nonlinear_arith)
        requires
            u == 2 * p,
            x * y == 2 * z,
    ;
    exact_products_are_kept(a, b, c);
}

proof fn lemma_quotient_halves(a: u64, b: u64, x: int, y: int, z: int)
    requires
        f_finite(a),
        f_finite(b),
        f_scaled(a) == x * half(),
        f_scaled(b) == y * half(),
        y != 0,
        2 * x == y * z,
        -0x20_0000_0000_0000 < z < 0x20_0000_0000_0000,
    ensures
        f_finite(f_quotient(a, b)),
        f_scaled(f_quotient(a, b)) == z * half(),
{
    let c = lemma_halves(z);
    let p = half();
    let u = unit();
    assert(y * p != 0) by (nonlinear_arith)
        requires
            y != 0,
            p > 0,
    ;
    if f64_magnitude(b) == 0 {
        lemma_zero(b);
    }
    assert((y * p) * (z * p) == u * (x * p)) by (nonlinear_arith)
        requires
            u == 2 * p,
            2 * x == y * z,
    ;
    exact_quotients_are_kept(a, b, c);
}

proof fn lemma_whole_halves(k: int)
    requires
        -0x20_0000_0000_0000 < k < 0x20_0000_0000_0000,
    ensures
        f_finite(f_of_int(k)),
        f_scaled(f_of_int(k)) == (2 * k) * half(),
{
    short_numbers_are_exact(k);
    let c = lemma_halves(0);
    let p = half();
    assert(k * (2 * p) == (2 * k) * p) by (nonlinear_arith);
}

// --- Variances ------------------------------------------------------------------------------------------

/// The variance of two whole numbers is half the square of their difference, and the standard
/// deviation the root of that; of fewer than two values both are NULL.
#[verifier::rlimit(60)]
pub proof fn the_variance_of_two_numbers(a: AggV, v: Val, w: Val, x: int, y: int)
    requires
        a.kind is Variance || a.kind is StdDev,
        v.as_int() == Some(x),
        w.as_int() == Some(y),
        places(a.input_ty()) == 0,
        -0x100_0000 < x < 0x100_0000,
        -0x100_0000 < y < 0x100_0000,
    ensures
        aggregated(a, Seq::empty()) == Ok::<Val, Code>(Val::Null),
        aggregated(a, seq![v]) == Ok::<Val, Code>(Val::Null),
        exists|q: u64|
            f_finite(q) && 2 * #[trigger] f_scaled(q) == ((x - y) * (x - y)) * unit() && aggregated(a, seq![v, w]) == Ok::<
                Val,
                Code,
            >(
                Val::F64(
                    if a.kind is Variance {
                        q
                    } else {
                        f_sqrt(q)
                    },
                ),
            ),
{
    reveal(agg_step);
    reveal_with_fuel(agg_state, 3);
    let r = rule_of(a)->0;
    let s1 = seq![v];
    let s2 = seq![v, w];
    assert(s1.drop_last() =~= Seq::<Val>::empty());
    assert(s2.drop_last() =~= s1);
    let p = half();
    let c0 = lemma_halves(0);
    lemma_one();
    let dx = f_quotient(f_of_int(x), F_ONE);
    let dy = f_quotient(f_of_int(y), F_ONE);
    assert(f_pow10(0) == F_ONE);
    assert(divisor(a.input_ty()) == F_ONE);
    assert(scaled_double(v, F_ONE) == Some(dx));
    assert(scaled_double(w, F_ONE) == Some(dy));
    lemma_whole_halves(x);
    lemma_whole_halves(y);
    assert(f_scaled(F_ONE) == 2 * p);
    lemma_quotient_halves(f_of_int(x), F_ONE, 2 * x, 2, 2 * x);
    lemma_quotient_halves(f_of_int(y), F_ONE, 2 * y, 2, 2 * y);
    lemma_zero(F_ZERO);
    assert(0 * p == 0) by (nonlinear_arith);
    // The first value.
    let d1 = f_difference(dx, F_ZERO);
    lemma_difference_halves(dx, F_ZERO, 2 * x, 0);
    lemma_whole_halves(1);
    lemma_whole_halves(2);
    let q1 = f_quotient(d1, f_of_int(1));
    lemma_quotient_halves(d1, f_of_int(1), 2 * x, 2, 2 * x);
    let m1 = f_sum(F_ZERO, q1);
    lemma_sum_halves(F_ZERO, q1, 0, 2 * x);
    let e1 = f_difference(dx, m1);
    lemma_difference_halves(dx, m1, 2 * x, 2 * x);
    assert((2 * x) * 0 == 2 * 0) by (nonlinear_arith);
    lemma_product_halves(d1, e1, 2 * x, 0, 0);
    let v1 = f_sum(F_ZERO, f_product(d1, e1));
    lemma_sum_halves(F_ZERO, f_product(d1, e1), 0, 0);
    // The second.
    let d2 = f_difference(dy, m1);
    let g = 2 * y - 2 * x;
    lemma_difference_halves(dy, m1, 2 * y, 2 * x);
    let q2 = f_quotient(d2, f_of_int(2));
    lemma_quotient_halves(d2, f_of_int(2), g, 4, y - x);
    let m2 = f_sum(m1, q2);
    lemma_sum_halves(m1, q2, 2 * x, y - x);
    let e2 = f_difference(dy, m2);
    lemma_difference_halves(dy, m2, 2 * y, x + y);
    let z = (x - y) * (x - y);
    assert(g * (y - x) == 2 * z && 0 <= z < 0x20_0000_0000_0000) by (nonlinear_arith)
        requires
            g == 2 * y - 2 * x,
            z == (x - y) * (x - y),
            -0x200_0000 < x - y < 0x200_0000,
    ;
    lemma_product_halves(d2, e2, g, y - x, z);
    let v2 = f_sum(v1, f_product(d2, e2));
    lemma_sum_halves(v1, f_product(d2, e2), 0, z);
    // The result.
    let n1 = f_difference(f_of_int(2), F_ONE);
    lemma_difference_halves(f_of_int(2), F_ONE, 4, 2);
    let q = f_quotient(v2, n1);
    assert(2 * z == 2 * z);
    lemma_quotient_halves(v2, n1, z, 2, z);
    doubles_are_ordered_as_numbers(F_ZERO, q);
    assert(z * p >= 0) by (nonlinear_arith)
        requires
            z >= 0,
            p > 0,
    ;
    assert(2 * (z * p) == z * (2 * p)) by (nonlinear_arith);
    let st1 = agg_state(r, s1)->Ok_0;
    assert(agg_state(r, s1) is Ok && st1.n == 1 && st1.mean == m1 && st1.m2 == v1);
    let st2 = agg_state(r, s2)->Ok_0;
    assert(agg_state(r, s2) is Ok && st2.n == 2 && st2.m2 == v2);
    let out = variance_of(st2);
    assert(f_finite(out) && 2 * f_scaled(out) == z * unit());
}

proof fn lemma_same_spread(r: RuleV, q: RuleV, vals: Seq<Val>)
    requires
        r.op == AggOp::Variance,
        q.op == AggOp::StdDev,
        r.ty == q.ty,
    ensures
        agg_state(r, vals) == agg_state(q, vals),
        agg_state(r, vals) matches Ok(st) ==> st.n == vals.len(),
    decreases vals.len(),
{
    reveal(agg_step);
    if vals.len() > 0 {
        lemma_same_spread(r, q, vals.drop_last());
    }
}

/// The standard deviation of values is the square root of their variance, which is not negative;
/// of fewer than two values both are NULL.
pub proof fn the_deviation_is_the_root_of_the_variance(a: AggV, b: AggV, vals: Seq<Val>)
    requires
        a.kind is Variance,
        b.kind is StdDev,
        a.input_ty() == b.input_ty(),
    ensures
        aggregated(a, vals) is Ok <==> aggregated(b, vals) is Ok,
        aggregated(a, vals) is Ok && vals.len() < 2 ==> aggregated(a, vals)->Ok_0 is Null && aggregated(b, vals)->Ok_0 is Null,
        aggregated(a, vals) is Ok && vals.len() >= 2 ==> (aggregated(a, vals) matches Ok(Val::F64(v)) && !f_less(v, F_ZERO)
            && aggregated(b, vals) == Ok::<Val, Code>(Val::F64(f_sqrt(v)))),
{
    lemma_same_spread(rule_of(a)->0, rule_of(b)->0, vals);
}

// --- Medians ----------------------------------------------------------------------------------------------

/// How many of some doubles there are of which something holds.
pub open spec fn how_many(s: Seq<u64>, f: spec_fn(u64) -> bool) -> int
    decreases s.len(),
{
    if s.len() == 0 {
        0
    } else {
        how_many(s.drop_last(), f) + if f(s.last()) {
            1int
        } else {
            0
        }
    }
}

proof fn lemma_many_inserted(t: Seq<u64>, x: u64, rule: spec_fn(u64, u64) -> Order, f: spec_fn(u64) -> bool)
    ensures
        how_many(inserted(t, x, rule), f) == how_many(t, f) + if f(x) {
            1int
        } else {
            0
        },
        forall|y: u64| inserted(t, x, rule).contains(y) ==> y == x || t.contains(y),
    decreases t.len(),
{
    if t.len() == 0 {
        assert(seq![x].drop_last() =~= Seq::<u64>::empty());
        assert(how_many(Seq::<u64>::empty(), f) == 0);
        assert forall|y: u64| inserted(t, x, rule).contains(y) implies y == x || t.contains(y) by {
            assert(seq![x][0] == x);
        }
    } else if rule(t.last(), x) == Order::Greater {
        let u = inserted(t.drop_last(), x, rule);
        lemma_many_inserted(t.drop_last(), x, rule, f);
        let all = u.push(t.last());
        assert(all.drop_last() =~= u);
        assert forall|y: u64| inserted(t, x, rule).contains(y) implies y == x || t.contains(y) by {
            let i = all.index_of(y);
            assert(all[i] == y);
            if i < u.len() {
                assert(u[i] == y);
                assert(u.contains(y));
                if t.drop_last().contains(y) {
                    let j = t.drop_last().index_of(y);
                    assert(t[j] == y);
                }
            } else {
                assert(t[t.len() - 1] == y);
            }
        }
    } else {
        let all = t.push(x);
        assert(all.drop_last() =~= t);
        assert forall|y: u64| inserted(t, x, rule).contains(y) implies y == x || t.contains(y) by {
            let i = all.index_of(y);
            assert(all[i] == y);
            if i < t.len() {
                assert(t[i] == y);
            }
        }
    }
}

proof fn lemma_many_arranged(s: Seq<u64>, rule: spec_fn(u64, u64) -> Order, f: spec_fn(u64) -> bool)
    ensures
        how_many(arranged(s, rule), f) == how_many(s, f),
        forall|y: u64| arranged(s, rule).contains(y) ==> s.contains(y),
    decreases s.len(),
{
    if s.len() > 0 {
        let d = s.drop_last();
        lemma_many_arranged(d, rule, f);
        lemma_many_inserted(arranged(d, rule), s.last(), rule, f);
        assert forall|y: u64| arranged(s, rule).contains(y) implies s.contains(y) by {
            if y == s.last() {
                assert(s[s.len() - 1] == y);
            } else {
                assert(arranged(d, rule).contains(y));
                assert(d.contains(y));
                let j = d.index_of(y);
                assert(s[j] == y);
            }
        }
    }
}

proof fn lemma_many_bounds(s: Seq<u64>, f: spec_fn(u64) -> bool, m: int)
    requires
        0 <= m <= s.len(),
    ensures
        (forall|j: int| m <= j < s.len() ==> !f(#[trigger] s[j])) ==> how_many(s, f) <= m,
        (forall|j: int| 0 <= j < m ==> f(#[trigger] s[j])) ==> how_many(s, f) >= m,
        0 <= how_many(s, f) <= s.len(),
    decreases s.len(),
{
    if s.len() > 0 {
        let d = s.drop_last();
        let k = if m == s.len() {
            m - 1
        } else {
            m
        };
        lemma_many_bounds(d, f, k);
        assert(s.last() == s[s.len() - 1]);
        if forall|j: int| m <= j < s.len() ==> !f(#[trigger] s[j]) {
            assert forall|j: int| k <= j < d.len() implies !f(#[trigger] d[j]) by {
                assert(d[j] == s[j]);
            }
        }
        if forall|j: int| 0 <= j < m ==> f(#[trigger] s[j]) {
            assert forall|j: int| 0 <= j < k implies f(#[trigger] d[j]) by {
                assert(d[j] == s[j]);
            }
        }
    }
}

/// Whether a double has place `m` among some doubles in ascending order: at most `m` are below it,
/// and more than `m` are not above it.
pub open spec fn has_place(xs: Seq<u64>, m: int, a: u64) -> bool {
    &&& xs.contains(a)
    &&& how_many(xs, |x: u64| f64_rank(x) < f64_rank(a)) <= m
    &&& m < how_many(xs, |x: u64| f64_rank(x) <= f64_rank(a))
}

proof fn lemma_sorted_place(xs: Seq<u64>, m: int)
    requires
        0 <= m < xs.len(),
    ensures
        arranged(xs, double_rule()).len() == xs.len(),
        has_place(xs, m, arranged(xs, double_rule())[m]),
{
    let rule = double_rule();
    let dom = |x: u64| true;
    assert(orders(rule, dom));
    assert(all_in(xs, dom));
    arranging_sorts(xs, rule, dom);
    let s = arranged(xs, rule);
    let a = s[m];
    let f = |x: u64| f64_rank(x) < f64_rank(a);
    let g = |x: u64| f64_rank(x) <= f64_rank(a);
    lemma_many_arranged(xs, rule, f);
    lemma_many_arranged(xs, rule, g);
    assert(s.contains(a));
    assert forall|j: int| m <= j < s.len() implies !f(#[trigger] s[j]) by {
        if j > m {
            assert(rule(s[m], s[j]) != Order::Greater);
        }
    }
    assert forall|j: int| 0 <= j < m + 1 implies g(#[trigger] s[j]) by {
        if j < m {
            assert(rule(s[j], s[m]) != Order::Greater);
        }
    }
    lemma_many_bounds(s, f, m);
    lemma_many_bounds(s, g, m + 1);
}

/// The numbers of values as doubles.
pub open spec fn doubles_of(vals: Seq<Val>, ty: Ty) -> Seq<u64> {
    vals.map_values(|v: Val| scaled_double(v, divisor(ty))->0)
}

proof fn lemma_median_state(r: RuleV, vals: Seq<Val>)
    requires
        r.op == AggOp::Median,
        vals.len() <= u32::MAX,
        forall|i: int| 0 <= i < vals.len() ==> scaled_double(#[trigger] vals[i], divisor(r.ty)) is Some,
    ensures
        agg_state(r, vals) matches Ok(st) && st.n == vals.len() && st.doubles == doubles_of(vals, r.ty),
    decreases vals.len(),
{
    reveal(agg_step);
    if vals.len() > 0 {
        let f = vals.drop_last();
        assert forall|i: int| 0 <= i < f.len() implies scaled_double(#[trigger] f[i], divisor(r.ty)) is Some by {
            assert(f[i] == vals[i]);
        }
        lemma_median_state(r, f);
        assert(vals[vals.len() - 1] == vals.last());
        assert(doubles_of(vals, r.ty) =~= doubles_of(f, r.ty).push(scaled_double(vals.last(), divisor(r.ty))->0));
    } else {
        assert(doubles_of(vals, r.ty) =~= Seq::<u64>::empty());
    }
}

/// The median of an odd number of values is the middle one of them. The median of an even number
/// of whole numbers below `2^51` is halfway between the two middle ones. Of no values it is NULL.
#[verifier::rlimit(40)]
pub proof fn the_median_is_in_the_middle(a: AggV, vals: Seq<Val>)
    requires
        a.kind is Median,
        vals.len() <= u32::MAX,
        forall|i: int| 0 <= i < vals.len() ==> scaled_double(#[trigger] vals[i], divisor(a.input_ty())) is Some,
    ensures
        ({
            let n = vals.len() as int;
            let xs = doubles_of(vals, a.input_ty());
            &&& n == 0 ==> aggregated(a, vals) == Ok::<Val, Code>(Val::Null)
            &&& n % 2 == 1 ==> (aggregated(a, vals) matches Ok(Val::F64(m)) && has_place(xs, n / 2, m))
            &&& n > 0 && n % 2 == 0 && whole(xs) ==> exists|x: u64, y: u64|
                #[trigger] has_place(xs, n / 2 - 1, x) && #[trigger] has_place(xs, n / 2, y) && halfway(
                    aggregated(a, vals),
                    x,
                    y,
                )
        }),
{
    let r = rule_of(a)->0;
    lemma_median_state(r, vals);
    let n = vals.len() as int;
    let xs = doubles_of(vals, a.input_ty());
    if n > 0 {
        let s = arranged(xs, double_rule());
        let lo = (n - 1) / 2;
        let hi = n / 2;
        lemma_sorted_place(xs, lo);
        lemma_sorted_place(xs, hi);
        if n % 2 == 0 && whole(xs) {
            lemma_halfway(xs, n, s[lo], s[hi]);
            assert(has_place(xs, n / 2 - 1, s[lo]) && has_place(xs, n / 2, s[hi]));
        }
    }
}

/// Whether doubles stand for whole numbers below `2^51`.
pub open spec fn whole(xs: Seq<u64>) -> bool {
    forall|i: int|
        0 <= i < xs.len() ==> f_finite(#[trigger] xs[i]) && f_scaled(xs[i]) % unit() == 0 && -0x8_0000_0000_0000 * unit()
            < f_scaled(xs[i]) < 0x8_0000_0000_0000 * unit()
}

/// Whether a result is the double halfway between two others.
pub open spec fn halfway(r: Result<Val, Code>, x: u64, y: u64) -> bool {
    r matches Ok(Val::F64(m)) && f_finite(m) && 2 * f_scaled(m) == f_scaled(x) + f_scaled(y)
}

proof fn lemma_whole_number(x: u64) -> (k: int)
    requires
        f_scaled(x) % unit() == 0,
        -0x8_0000_0000_0000 * unit() < f_scaled(x) < 0x8_0000_0000_0000 * unit(),
    ensures
        f_scaled(x) == (2 * k) * half(),
        -0x8_0000_0000_0000 < k < 0x8_0000_0000_0000,
{
    let u = unit();
    lemma_pow2_pos(1074);
    let c = lemma_halves(0);
    let p = half();
    let k = f_scaled(x) / u;
    vstd::arithmetic::div_mod::lemma_fundamental_div_mod(f_scaled(x), u);
    assert(u * k == (2 * k) * p) by (nonlinear_arith)
        requires
            u == 2 * p,
    ;
    assert(-0x8_0000_0000_0000 < k < 0x8_0000_0000_0000) by (nonlinear_arith)
        requires
            -0x8_0000_0000_0000 * u < u * k,
            u * k < 0x8_0000_0000_0000 * u,
            u > 0,
    ;
    k
}

proof fn lemma_halfway(xs: Seq<u64>, n: int, x: u64, y: u64)
    requires
        whole(xs),
        xs.contains(x),
        xs.contains(y),
        0 < n <= u32::MAX,
        n % 2 == 0,
    ensures
        ({
            let frac = f_difference(f_product(f_of_int(n - 1), F_HALF), f_of_int((n - 1) / 2));
            let m = f_sum(x, f_product(f_difference(y, x), frac));
            &&& f_finite(m)
            &&& 2 * f_scaled(m) == f_scaled(x) + f_scaled(y)
        }),
{
    let i = xs.index_of(x);
    let j = xs.index_of(y);
    assert(xs[i] == x && xs[j] == y);
    let a = lemma_whole_number(x);
    let b = lemma_whole_number(y);
    let c0 = lemma_halves(0);
    let p = half();
    lemma_half();
    assert(f_scaled(F_HALF) == 1 * p);
    let lo = (n - 1) / 2;
    lemma_whole_halves(n - 1);
    lemma_whole_halves(lo);
    lemma_product_halves(f_of_int(n - 1), F_HALF, 2 * (n - 1), 1, n - 1);
    let t = f_product(f_of_int(n - 1), F_HALF);
    lemma_difference_halves(t, f_of_int(lo), n - 1, 2 * lo);
    let frac = f_difference(t, f_of_int(lo));
    assert(n - 1 - 2 * lo == 1);
    lemma_difference_halves(y, x, 2 * b, 2 * a);
    let d = f_difference(y, x);
    lemma_product_halves(d, frac, 2 * b - 2 * a, 1, b - a);
    let e = f_product(d, frac);
    lemma_sum_halves(x, e, 2 * a, b - a);
    assert(2 * ((2 * a + (b - a)) * p) == (2 * a) * p + (2 * b) * p) by (nonlinear_arith);
}

} // verus!
