//! What aggregates give of the values that are fed to them.

use crate::error::Code;
use crate::exec::accum::{
    agg_result, agg_state, agg_step, extremes_are_values_and_none_is_beyond, fed_next, rule_of, AggOp, RuleV,
};
use crate::exec::rowkey::f_pow10;
use crate::exec::text::scalar_text;
use crate::exec::total::compensated_step;
use crate::float::{
    f_difference, f_finite, f_negated, f_negative, f_of_int, f_quotient, f_scaled, f_sum, f_units, rounded, F_ONE,
    F_ZERO,
};
use crate::laws::rounding::{
    exact_sums_are_kept, gap, lemma_not_infinite, lemma_signed, lemma_ten_bound, lemma_zero, powers_of_ten_are_exact,
    rounding_is_close, short_numbers_are_exact, ten_to, unit,
};
use crate::laws::windows::total;
use crate::order::{f64_magnitude, Order};
use crate::plan::AggV;
use crate::vector::{val_order, PhysType, Ty, Val};
use vstd::arithmetic::power2::{lemma_pow2_adds, lemma_pow2_pos, pow2};
use vstd::prelude::*;

verus! {

/// What an aggregate gives of the values fed to it, where it does not fail.
pub open spec fn aggregated(a: AggV, vals: Seq<Val>) -> Result<Val, Code> {
    match rule_of(a) {
        None => Err(Code::UnsupportedFeature),
        Some(r) => match agg_state(r, vals) {
            Err(e) => Err(e),
            Ok(st) => Ok(agg_result(r, st)),
        },
    }
}

/// The digits behind the point that a type's numbers have.
pub open spec fn places(ty: Ty) -> nat {
    match ty {
        Ty::Decimal { precision, scale } => scale as nat,
        _ => 0,
    }
}

/// The sum of the first `k` values.
pub open spec fn sum_to(vals: Seq<Val>, k: int) -> int {
    total(k, |i: int| vals[i].as_int()->0)
}

/// Whether values are whole numbers whose running sums can be held.
pub open spec fn summable(vals: Seq<Val>) -> bool {
    &&& vals.len() <= i64::MAX
    &&& forall|i: int| 0 <= i < vals.len() ==> (#[trigger] vals[i]).as_int() is Some
    &&& forall|k: int| 1 < k <= vals.len() ==> i128::MIN <= #[trigger] sum_to(vals, k) <= i128::MAX
}

pub(crate) proof fn lemma_sum_front(vals: Seq<Val>, k: int)
    requires
        0 <= k < vals.len(),
    ensures
        sum_to(vals.drop_last(), k) == sum_to(vals, k),
    decreases k,
{
    if k > 0 {
        lemma_sum_front(vals, k - 1);
        let f = vals.drop_last();
        assert(f[k - 1] == vals[k - 1]);
        let a = |i: int| f[i].as_int()->0;
        let b = |i: int| vals[i].as_int()->0;
        assert(total(k, a) == total(k - 1, a) + a(k - 1));
        assert(total(k, b) == total(k - 1, b) + b(k - 1));
    }
}

proof fn lemma_state_of_sum(r: RuleV, vals: Seq<Val>)
    requires
        r.op == AggOp::SumInt || r.op == AggOp::AvgInt,
    ensures
        agg_state(r, vals) is Ok <==> summable(vals),
        agg_state(r, vals) matches Ok(st) ==> st.n == vals.len() && st.acc == if vals.len() == 0 {
            Val::Null
        } else {
            Val::I128(sum_to(vals, vals.len() as int) as i128)
        },
        agg_state(r, vals) is Ok && vals.len() > 0 ==> i128::MIN <= sum_to(vals, vals.len() as int) <= i128::MAX,
    decreases vals.len(),
{
    reveal(agg_step);
    if vals.len() > 0 {
        let f = vals.drop_last();
        let n = vals.len() as int;
        lemma_state_of_sum(r, f);
        lemma_sum_front(vals, n - 1);
        let b = |i: int| vals[i].as_int()->0;
        assert(total(n, b) == total(n - 1, b) + b(n - 1));
        assert(vals.last() == vals[n - 1]);
        if summable(vals) {
            assert forall|i: int| 0 <= i < f.len() implies (#[trigger] f[i]).as_int() is Some by {
                assert(f[i] == vals[i]);
            }
            assert forall|k: int| 1 < k <= f.len() implies i128::MIN <= #[trigger] sum_to(f, k) <= i128::MAX by {
                lemma_sum_front(vals, k);
                assert(i128::MIN <= sum_to(vals, k) <= i128::MAX);
            }
            assert(summable(f));
            assert(vals[n - 1].as_int() is Some);
            if n > 1 {
                assert(i128::MIN <= sum_to(vals, n) <= i128::MAX);
            }
        }
        if agg_state(r, vals) is Ok {
            assert forall|i: int| 0 <= i < vals.len() implies (#[trigger] vals[i]).as_int() is Some by {
                if i < n - 1 {
                    assert(f[i] == vals[i]);
                }
            }
            if n == 1 {
                assert(total(0, b) == 0);
                assert(sum_to(vals, 1) == vals[0].as_int()->0);
            } else {
                assert(sum_to(vals, n) == sum_to(f, n - 1) + vals[n - 1].as_int()->0);
            }
            assert forall|k: int| 1 < k <= vals.len() implies i128::MIN <= #[trigger] sum_to(vals, k) <= i128::MAX by {
                if k < n {
                    lemma_sum_front(vals, k);
                    assert(i128::MIN <= sum_to(f, k) <= i128::MAX);
                }
            }
        }
    }
}

proof fn lemma_count_state(r: RuleV, vals: Seq<Val>)
    requires
        r.op == AggOp::Count || r.op == AggOp::CountStar,
    ensures
        agg_state(r, vals) is Ok <==> vals.len() <= i64::MAX,
        agg_state(r, vals) matches Ok(st) ==> st.n == vals.len(),
    decreases vals.len(),
{
    reveal(agg_step);
    if vals.len() > 0 {
        lemma_count_state(r, vals.drop_last());
    }
}

/// A count is the number of values that were fed.
pub proof fn counts_are_of_the_values_fed(a: AggV, vals: Seq<Val>)
    requires
        a.kind is Count || a.kind is CountStar || a.kind is ApproxCountDistinct,
        vals.len() <= i64::MAX,
    ensures
        aggregated(a, vals) == Ok::<Val, Code>(Val::I64(vals.len() as i64)),
{
    lemma_count_state(rule_of(a)->0, vals);
}

/// The sum of whole numbers is exact; of no values it is NULL. It fails only where a running sum
/// cannot be held.
pub proof fn whole_sums_are_exact(a: AggV, vals: Seq<Val>)
    requires
        a.kind is Sum,
        a.input_ty().phys() != PhysType::F64,
    ensures
        aggregated(a, vals) is Ok <==> summable(vals),
        summable(vals) ==> aggregated(a, vals) == Ok::<Val, Code>(
            if vals.len() == 0 {
                Val::Null
            } else {
                Val::I128(sum_to(vals, vals.len() as int) as i128)
            },
        ),
        summable(vals) && vals.len() > 0 ==> i128::MIN <= sum_to(vals, vals.len() as int) <= i128::MAX,
{
    lemma_state_of_sum(rule_of(a)->0, vals);
}

/// The average of whole numbers and decimals is their exact sum, divided by the power of ten of
/// their digits behind the point and by their number.
pub proof fn averages_divide_the_sum(a: AggV, vals: Seq<Val>)
    requires
        a.kind is Avg,
        a.input_ty().phys() != PhysType::F64,
    ensures
        aggregated(a, vals) is Ok <==> summable(vals),
        summable(vals) && vals.len() == 0 ==> aggregated(a, vals) == Ok::<Val, Code>(Val::Null),
        summable(vals) && vals.len() > 0 ==> aggregated(a, vals) == Ok::<Val, Code>(
            Val::F64(
                f_quotient(
                    f_quotient(f_of_int(sum_to(vals, vals.len() as int)), f_pow10(places(a.input_ty()))),
                    f_of_int(vals.len() as int),
                ),
            ),
        ),
{
    lemma_state_of_sum(rule_of(a)->0, vals);
    assert(f_pow10(0) == F_ONE);
}

// --- How near an average is ---------------------------------------------------------------------

/// A quotient of positive numbers of moderate size is off by at most one part in `2^53`.
proof fn lemma_quotient_close(x: u64, y: u64, d: int)
    requires
        f_finite(x),
        f_finite(y),
        f_scaled(y) == d * unit(),
        !f_negative(y),
        0 < d,
        d < pow2(130),
        pow2(900) <= f_units(x) < pow2(1300),
    ensures
        f_finite(f_quotient(x, y)),
        f_negative(f_quotient(x, y)) == f_negative(x),
        0x20_0000_0000_0000 * gap(d * f_units(f_quotient(x, y)), f_units(x) as int) <= f_units(x),
{
    reveal(f_quotient);
    let u = pow2(1074) as int;
    lemma_pow2_pos(1074);
    let ux = f_units(x) as int;
    assert(d * u > 0) by (nonlinear_arith)
        requires
            d > 0,
            u > 0,
    ;
    if f64_magnitude(y) == 0 {
        lemma_zero(y);
    }
    let n = ux * u;
    let k = d * u;
    lemma_pow2_adds(130, 52);
    vstd::arithmetic::power2::lemma2_to64_rest();
    vstd::arithmetic::power2::lemma_pow2_strictly_increases(182, 900);
    let p130 = pow2(130) as int;
    assert(n >= k * 0x10_0000_0000_0000) by (nonlinear_arith)
        requires
            n == ux * u,
            k == d * u,
            ux >= p130 * 0x10_0000_0000_0000,
            d < p130,
            u > 0,
    ;
    vstd::arithmetic::power2::lemma_pow2_strictly_increases(1300, 2000);
    let t = pow2(2000) as int;
    lemma_pow2_pos(2000);
    let dt = d * t;
    assert(dt >= t) by (nonlinear_arith)
        requires
            dt == d * t,
            d >= 1,
            t > 0,
    ;
    assert(ux * u < dt * u) by (nonlinear_arith)
        requires
            ux < dt,
            u > 0,
    ;
    assert(k * t == dt * u) by (nonlinear_arith)
        requires
            k == d * u,
            dt == d * t,
    ;
    assert(n >= 0) by (nonlinear_arith)
        requires
            n == ux * u,
            ux >= 0,
            u > 0,
    ;
    lemma_not_infinite(n as nat, k as nat);
    rounding_is_close(n as nat, k as nat);
    let r = rounded(n as nat, k as nat);
    lemma_signed(f_negative(x), r);
    let w = f_units(r as u64) as int;
    assert(k * w == u * (d * w)) by (nonlinear_arith)
        requires
            k == d * u,
    ;
    let g = gap(d * w, ux);
    assert(u * g == gap(k * w, n)) by {
        assert(u * (d * w - ux) == k * w - n && u * (ux - d * w) == n - k * w) by (nonlinear_arith)
            requires
                k * w == u * (d * w),
                n == ux * u,
        ;
        assert((d * w < ux) == (k * w < n)) by (nonlinear_arith)
            requires
                k * w == u * (d * w),
                n == ux * u,
                u > 0,
        ;
    }
    assert(0x20_0000_0000_0000 * g <= ux) by (nonlinear_arith)
        requires
            0x20_0000_0000_0000 * (u * g) <= ux * u,
            u > 0,
    ;
}

/// A whole number as a double is off by at most one part in `2^53`.
proof fn lemma_of_int_close(x: int)
    requires
        x != 0,
        i128::MIN <= x <= i128::MAX,
    ensures
        f_finite(f_of_int(x)),
        f_negative(f_of_int(x)) == (x < 0),
        0x20_0000_0000_0000 * gap(f_units(f_of_int(x)) as int, gap(x, 0) * unit()) <= gap(x, 0) * unit(),
{
    reveal(f_of_int);
    let u = pow2(1074) as int;
    lemma_pow2_pos(1074);
    let m = gap(x, 0);
    let n = m * u;
    vstd::arithmetic::power2::lemma2_to64();
    vstd::arithmetic::power2::lemma2_to64_rest();
    vstd::arithmetic::power2::lemma_pow2_strictly_increases(52, 1074);
    lemma_pow2_adds(64, 64);
    lemma_pow2_adds(128, 1074);
    vstd::arithmetic::power2::lemma_pow2_strictly_increases(1202, 2000);
    assert(u <= n < pow2(128) * u) by (nonlinear_arith)
        requires
            n == m * u,
            1 <= m < pow2(128),
            u > 0,
    ;
    assert((-x) * u == -(x * u)) by (nonlinear_arith);
    lemma_not_infinite(n as nat, 1);
    rounding_is_close(n as nat, 1);
    lemma_signed(x < 0, rounded(n as nat, 1));
}

/// The error of three divisions in turn.
proof fn lemma_three_errors(s: int, a: int, b: int, c: int, d: int, n: int)
    requires
        s > 0,
        d > 0,
        n > 0,
        a >= 0,
        b >= 0,
        c >= 0,
        0x20_0000_0000_0000 * gap(a, s) <= s,
        0x20_0000_0000_0000 * gap(d * b, a) <= a,
        0x20_0000_0000_0000 * gap(n * c, b) <= b,
    ensures
        0x8_0000_0000_0000 * gap(n * d * c, s) <= s,
{
    let e = 0x20_0000_0000_0000int;
    let db = d * b;
    let ndc = n * d * c;
    assert(e * gap(ndc, db) <= db) by {
        let x = n * c;
        assert(ndc == d * x) by (nonlinear_arith)
            requires
                ndc == n * d * c,
                x == n * c,
        ;
        assert(d * (x - b) == ndc - db && d * (b - x) == db - ndc) by (nonlinear_arith)
            requires
                ndc == d * x,
                db == d * b,
        ;
        let g = gap(x, b);
        assert((x < b) == (ndc < db)) by (nonlinear_arith)
            requires
                ndc == d * x,
                db == d * b,
                d > 0,
        ;
        assert(gap(ndc, db) == d * g);
        assert(e * (d * g) <= d * b) by (nonlinear_arith)
            requires
                e * g <= b,
                d > 0,
        ;
    }
}

/// The average of whole numbers and decimals is, but for rounding, the exact sum of the stored
/// integers divided by `10^scale` and by their number: the result times these two is off from
/// the sum by at most one part in `2^51`.
pub proof fn averages_are_near_the_exact_ones(a: AggV, vals: Seq<Val>)
    requires
        a.kind is Avg,
        a.input_ty().phys() != PhysType::F64,
        places(a.input_ty()) <= 22,
        summable(vals),
        0 < vals.len() < 0x20_0000_0000_0000,
    ensures
        aggregated(a, vals) matches Ok(Val::F64(q)) && f_finite(q) && 0x8_0000_0000_0000 * gap(
            vals.len() * ten_to(places(a.input_ty())) * f_scaled(q),
            sum_to(vals, vals.len() as int) * unit(),
        ) <= gap(sum_to(vals, vals.len() as int), 0) * unit(),
{
    averages_divide_the_sum(a, vals);
    lemma_state_of_sum(rule_of(a)->0, vals);
    lemma_average(sum_to(vals, vals.len() as int), places(a.input_ty()), vals.len() as int);
}

proof fn lemma_sizes(p: nat, m: int, ux: int)
    requires
        p <= 22,
        1 <= m <= 0x8000_0000_0000_0000_0000_0000_0000_0000,
        0x20_0000_0000_0000 * gap(ux, m * unit()) <= m * unit(),
    ensures
        pow2(1073) <= ux < pow2(1210),
        pow2(900) <= ux < pow2(1300),
        ten_to(p) < pow2(74),
        pow2(74) < pow2(130),
        0x20_0000_0000_0000 < pow2(130),
{
    let u = pow2(1074) as int;
    vstd::arithmetic::power2::lemma2_to64();
    vstd::arithmetic::power2::lemma2_to64_rest();
    lemma_pow2_pos(1074);
    lemma_pow2_adds(64, 64);
    lemma_pow2_adds(128, 1074);
    lemma_pow2_adds(64, 10);
    vstd::arithmetic::power2::lemma_pow2_unfold(1074);
    vstd::arithmetic::power2::lemma_pow2_unfold(1203);
    vstd::arithmetic::power2::lemma_pow2_strictly_increases(1203, 1210);
    vstd::arithmetic::power2::lemma_pow2_strictly_increases(1210, 1300);
    vstd::arithmetic::power2::lemma_pow2_strictly_increases(900, 1073);
    vstd::arithmetic::power2::lemma_pow2_strictly_increases(74, 130);
    vstd::arithmetic::power2::lemma_pow2_strictly_increases(53, 130);
    lemma_ten_bound(p);
    assert(u <= m * u < pow2(128) * u) by (nonlinear_arith)
        requires
            1 <= m < pow2(128),
            u > 0,
    ;
}

proof fn lemma_sizes_again(p: nat, ux: int, ub: int)
    requires
        p <= 22,
        pow2(1073) <= ux < pow2(1210),
        0x20_0000_0000_0000 * gap(ten_to(p) * ub, ux) <= ux,
        ub >= 0,
    ensures
        pow2(900) <= ub < pow2(1300),
{
    let d = ten_to(p);
    lemma_ten_bound(p);
    vstd::arithmetic::power2::lemma2_to64();
    vstd::arithmetic::power2::lemma2_to64_rest();
    lemma_pow2_adds(64, 10);
    lemma_pow2_pos(900);
    lemma_pow2_adds(74, 900);
    vstd::arithmetic::power2::lemma_pow2_strictly_increases(974, 1072);
    vstd::arithmetic::power2::lemma_pow2_unfold(1073);
    vstd::arithmetic::power2::lemma_pow2_unfold(1211);
    vstd::arithmetic::power2::lemma_pow2_strictly_increases(1211, 1300);
    let db = d * ub;
    assert(pow2(974) < db < pow2(1211));
    assert(ub <= db) by (nonlinear_arith)
        requires
            db == d * ub,
            d >= 1,
            ub >= 0,
    ;
    assert(ub >= pow2(900)) by (nonlinear_arith)
        requires
            db == d * ub,
            0 < d < pow2(74),
            db > pow2(74) * pow2(900),
            ub >= 0,
    ;
}

#[verifier::rlimit(30)]
proof fn lemma_average(s: int, p: nat, n: int)
    requires
        p <= 22,
        0 < n < 0x20_0000_0000_0000,
        i128::MIN <= s <= i128::MAX,
    ensures
        ({
            let q = f_quotient(f_quotient(f_of_int(s), f_pow10(p)), f_of_int(n));
            &&& f_finite(q)
            &&& 0x8_0000_0000_0000 * gap(n * ten_to(p) * f_scaled(q), s * unit()) <= gap(s, 0) * unit()
        }),
{
    let x = f_of_int(s);
    let y = f_pow10(p);
    let z = f_of_int(n);
    let b = f_quotient(x, y);
    let q = f_quotient(b, z);
    let d = ten_to(p);
    let u = pow2(1074) as int;
    lemma_pow2_pos(1074);
    powers_of_ten_are_exact(p);
    short_numbers_are_exact(n);
    if s == 0 {
        lemma_zero_over(y, d);
        lemma_zero_over(z, n);
        short_numbers_are_exact(0);
        assert(0 * u == 0) by (nonlinear_arith);
        lemma_units_zero(x);
        lemma_zero_quotient(x, y, d);
        lemma_zero_quotient(b, z, n);
        lemma_zero(q);
        assert(n * d * 0 == 0 && 0 * u == 0) by (nonlinear_arith);
    } else {
        lemma_of_int_close(s);
        let m = gap(s, 0);
        let su = m * u;
        let ux = f_units(x) as int;
        let ub = f_units(b) as int;
        let uq = f_units(q) as int;
        lemma_sizes(p, m, ux);
        lemma_quotient_close(x, y, d);
        lemma_sizes_again(p, ux, ub);
        lemma_quotient_close(b, z, n);
        assert(su > 0) by (nonlinear_arith)
            requires
                su == m * u,
                m > 0,
                u > 0,
        ;
        lemma_three_errors(su, ux, ub, uq, d, n);
        let nd = n * d;
        assert(nd * (-uq) == -(nd * uq) && (-m) * u == -(m * u)) by (nonlinear_arith);
    }
}

pub(crate) proof fn lemma_zero_over(y: u64, d: int)
    requires
        f_scaled(y) == d * unit(),
        d > 0,
    ensures
        f64_magnitude(y) != 0,
{
    lemma_pow2_pos(1074);
    let u = unit();
    assert(d * u > 0) by (nonlinear_arith)
        requires
            d > 0,
            u > 0,
    ;
    if f64_magnitude(y) == 0 {
        lemma_zero(y);
    }
}

proof fn lemma_units_zero(x: u64)
    requires
        f_units(x) == 0,
    ensures
        f64_magnitude(x) == 0,
{
    if f64_magnitude(x) != 0 {
        crate::laws::rounding::lemma_nonzero(x);
    }
}

proof fn lemma_zero_quotient(x: u64, y: u64, d: int)
    requires
        f64_magnitude(x) == 0,
        f_finite(y),
        f_scaled(y) == d * unit(),
        d > 0,
    ensures
        f64_magnitude(f_quotient(x, y)) == 0,
{
    reveal(f_quotient);
    lemma_zero_over(y, d);
    lemma_zero(x);
    crate::laws::rounding::lemma_nonzero(y);
    lemma_zero(0u64);
    let p = pow2(1074);
    assert(0 * p == 0) by (nonlinear_arith);
    let k = f_units(y);
    assert(k * 0 == 0) by (nonlinear_arith);
    crate::laws::rounding::rounding_keeps_doubles(0, f_units(y), 0u64);
    lemma_signed(f_negative(x) != f_negative(y), 0);
}

proof fn lemma_sum_between(vals: Seq<Val>, k: int, lo: int, hi: int)
    requires
        0 <= k <= vals.len(),
        forall|i: int| 0 <= i < vals.len() ==> lo <= (#[trigger] vals[i]).as_int()->0 <= hi,
    ensures
        k * lo <= sum_to(vals, k) <= k * hi,
    decreases k,
{
    let b = |i: int| vals[i].as_int()->0;
    if k > 0 {
        lemma_sum_between(vals, k - 1, lo, hi);
        assert(total(k, b) == total(k - 1, b) + b(k - 1));
        assert(lo <= vals[k - 1].as_int()->0 <= hi);
        assert((k - 1) * lo + lo == k * lo && (k - 1) * hi + hi == k * hi) by (nonlinear_arith);
    } else {
        assert(total(0, b) == 0);
        assert(0 * lo == 0 && 0 * hi == 0) by (nonlinear_arith);
    }
}

/// The average of whole numbers and decimals lies between the least and the greatest of the
/// values as numbers, but for one part in `2^51` of the largest that rounding may add.
pub proof fn averages_lie_between_the_extremes(a: AggV, vals: Seq<Val>, lo: int, hi: int)
    requires
        a.kind is Avg,
        a.input_ty().phys() != PhysType::F64,
        places(a.input_ty()) <= 22,
        summable(vals),
        0 < vals.len() < 0x20_0000_0000_0000,
        forall|i: int| 0 <= i < vals.len() ==> lo <= (#[trigger] vals[i]).as_int()->0 <= hi,
    ensures
        ({
            let most = if gap(lo, 0) < gap(hi, 0) {
                gap(hi, 0)
            } else {
                gap(lo, 0)
            };
            let d = ten_to(places(a.input_ty()));
            &&& aggregated(a, vals) matches Ok(Val::F64(q)) && 0x8_0000_0000_0000 * (d * f_scaled(q) - hi * unit()) <= most
                * unit() && 0x8_0000_0000_0000 * (lo * unit() - d * f_scaled(q)) <= most * unit()
        }),
{
    let n = vals.len() as int;
    let s = sum_to(vals, n);
    averages_are_near_the_exact_ones(a, vals);
    lemma_sum_between(vals, n, lo, hi);
    let q = aggregated(a, vals)->Ok_0->F64_0;
    let d = ten_to(places(a.input_ty()));
    let u = unit();
    lemma_pow2_pos(1074);
    let most = if gap(lo, 0) < gap(hi, 0) {
        gap(hi, 0)
    } else {
        gap(lo, 0)
    };
    let f = d * f_scaled(q);
    let e = 0x8_0000_0000_0000int;
    assert(n * d * f_scaled(q) == n * f) by (nonlinear_arith)
        requires
            f == d * f_scaled(q),
    ;
    assert(vals[0].as_int()->0 <= hi);
    assert(n * hi <= n * most && -(n * most) <= n * lo) by (nonlinear_arith)
        requires
            hi <= most,
            -most <= lo,
            n > 0,
    ;
    let m = gap(s, 0);
    assert(m * u <= (n * most) * u && (n * lo) * u <= s * u && s * u <= (n * hi) * u) by (nonlinear_arith)
        requires
            m <= n * most,
            n * lo <= s <= n * hi,
            u > 0,
    ;
    let hu = hi * u;
    let lu = lo * u;
    let mu = most * u;
    assert((n * hi) * u == n * hu && (n * lo) * u == n * lu && (n * most) * u == n * mu) by (nonlinear_arith)
        requires
            hu == hi * u,
            lu == lo * u,
            mu == most * u,
    ;
    assert(e * (n * f - n * hu) <= n * mu);
    assert(e * (n * lu - n * f) <= n * mu);
    assert(e * (f - hu) <= mu) by (nonlinear_arith)
        requires
            e * (n * f - n * hu) <= n * mu,
            n > 0,
    ;
    assert(e * (lu - f) <= mu) by (nonlinear_arith)
        requires
            e * (n * lu - n * f) <= n * mu,
            n > 0,
    ;
}

// --- The least and the greatest -----------------------------------------------------------------

proof fn lemma_extreme_state(r: RuleV, vals: Seq<Val>)
    requires
        r.op == AggOp::Min || r.op == AggOp::Max,
        vals.len() <= i64::MAX,
        forall|i: int| 0 <= i < vals.len() ==> (#[trigger] vals[i]).phys() == Some(r.ty.phys()),
    ensures
        agg_state(r, vals) is Ok,
        agg_state(r, vals)->Ok_0.n == vals.len(),
        vals.len() == 0 ==> agg_state(r, vals)->Ok_0.acc is Null,
    decreases vals.len(),
{
    reveal(agg_step);
    if vals.len() > 0 {
        let f = vals.drop_last();
        assert forall|i: int| 0 <= i < f.len() implies (#[trigger] f[i]).phys() == Some(r.ty.phys()) by {
            assert(f[i] == vals[i]);
        }
        lemma_extreme_state(r, f);
        assert(vals[vals.len() - 1] == vals.last());
    }
}

/// `MIN` and `MAX` give one of the values, and no value is below the one or above the other; of no
/// values they give NULL.
pub proof fn the_extremes_are_among_the_values(a: AggV, vals: Seq<Val>, i: int)
    requires
        a.kind is Min || a.kind is Max,
        vals.len() <= i64::MAX,
        forall|i: int| 0 <= i < vals.len() ==> (#[trigger] vals[i]).phys() == Some(a.input_ty().phys()),
    ensures
        vals.len() == 0 ==> aggregated(a, vals) == Ok::<Val, Code>(Val::Null),
        0 <= i < vals.len() ==> (aggregated(a, vals) matches Ok(v) && vals.contains(v) && val_order(
            vals[i],
            v,
            a.input_ty(),
        ) != if a.kind is Min {
            Order::Less
        } else {
            Order::Greater
        }),
{
    let r = rule_of(a)->0;
    lemma_extreme_state(r, vals);
    if 0 <= i < vals.len() {
        extremes_are_values_and_none_is_beyond(r, vals, i);
    }
}

// --- Texts and lists ---------------------------------------------------------------------------------

/// Texts one behind another, with a separator between each two.
pub open spec fn joined(ts: Seq<Seq<u8>>, sep: Seq<u8>) -> Seq<u8>
    decreases ts.len(),
{
    if ts.len() == 0 {
        Seq::empty()
    } else if ts.len() == 1 {
        ts[0]
    } else {
        ts[0] + sep + joined(ts.drop_first(), sep)
    }
}

/// The texts from the first that is not empty.
pub open spec fn from_first_text(ts: Seq<Seq<u8>>) -> Seq<Seq<u8>>
    decreases ts.len(),
{
    if ts.len() > 0 && ts[0].len() == 0 {
        from_first_text(ts.drop_first())
    } else {
        ts
    }
}

proof fn lemma_joined_push(ts: Seq<Seq<u8>>, sep: Seq<u8>, t: Seq<u8>)
    requires
        ts.len() > 0,
    ensures
        joined(ts.push(t), sep) == joined(ts, sep) + sep + t,
    decreases ts.len(),
{
    let all = ts.push(t);
    if ts.len() == 1 {
        assert(all.drop_first() =~= seq![t]);
        assert(joined(seq![t], sep) == t);
        assert(joined(all, sep) == all[0] + sep + joined(all.drop_first(), sep));
        assert(joined(ts, sep) == ts[0]);
    } else {
        let r = ts.drop_first();
        lemma_joined_push(r, sep, t);
        assert(all.drop_first() =~= r.push(t));
        assert(all[0] == ts[0]);
        assert(joined(all, sep) =~= ts[0] + sep + (joined(r, sep) + sep + t));
        assert(joined(ts, sep) + sep + t =~= ts[0] + sep + (joined(r, sep) + sep + t));
    }
}

proof fn lemma_from_first_push(ts: Seq<Seq<u8>>, t: Seq<u8>)
    ensures
        from_first_text(ts).len() == 0 && t.len() == 0 ==> from_first_text(ts.push(t)).len() == 0,
        from_first_text(ts).len() == 0 && t.len() > 0 ==> from_first_text(ts.push(t)) == seq![t],
        from_first_text(ts).len() > 0 ==> from_first_text(ts.push(t)) == from_first_text(ts).push(t) && from_first_text(
            ts,
        )[0].len() > 0,
    decreases ts.len(),
{
    let all = ts.push(t);
    if ts.len() == 0 {
        assert(all =~= seq![t]);
        assert(all.drop_first() =~= Seq::<Seq<u8>>::empty());
        assert(from_first_text(all.drop_first()).len() == 0);
    } else if ts[0].len() == 0 {
        lemma_from_first_push(ts.drop_first(), t);
        assert(all.drop_first() =~= ts.drop_first().push(t));
        assert(all[0] == ts[0]);
    } else {
        assert(all[0] == ts[0]);
    }
}

proof fn lemma_joined_len(ts: Seq<Seq<u8>>, sep: Seq<u8>)
    requires
        ts.len() > 0,
    ensures
        joined(ts, sep).len() >= ts[0].len(),
{
}

/// The byte strings of values.
pub open spec fn texts_of(vals: Seq<Val>) -> Seq<Seq<u8>> {
    vals.map_values(|v: Val| v->Bytes_0)
}

proof fn lemma_string_state(r: RuleV, vals: Seq<Val>)
    requires
        r.op == AggOp::StringAgg,
        vals.len() <= i64::MAX,
        forall|i: int| 0 <= i < vals.len() ==> #[trigger] vals[i] is Bytes,
    ensures
        agg_state(r, vals) matches Ok(st) && st.n == vals.len() && st.acc == if vals.len() == 0 {
            Val::Null
        } else {
            Val::Bytes(joined(from_first_text(texts_of(vals)), r.separator))
        },
    decreases vals.len(),
{
    reveal(agg_step);
    if vals.len() > 0 {
        let f = vals.drop_last();
        assert forall|i: int| 0 <= i < f.len() implies #[trigger] f[i] is Bytes by {
            assert(f[i] == vals[i]);
        }
        lemma_string_state(r, f);
        let t = vals.last()->Bytes_0;
        assert(vals[vals.len() - 1] is Bytes);
        let ts = texts_of(f);
        assert(texts_of(vals) =~= ts.push(t));
        lemma_from_first_push(ts, t);
        let held = from_first_text(ts);
        let sep = r.separator;
        if f.len() == 0 {
            assert(ts =~= Seq::<Seq<u8>>::empty());
        }
        if held.len() > 0 {
            lemma_joined_push(held, sep, t);
            lemma_joined_len(held, sep);
        } else {
            let now = from_first_text(ts.push(t));
            assert(joined(held, sep) =~= Seq::<u8>::empty());
            if t.len() > 0 {
                assert(joined(now, sep) == t);
            } else {
                assert(joined(now, sep) =~= Seq::<u8>::empty());
            }
            assert(Seq::<u8>::empty() + Seq::<u8>::empty() + t =~= t);
            assert(t.len() == 0 ==> t =~= Seq::<u8>::empty());
        }
    }
}

/// `STRING_AGG` gives the texts one behind another with the separator between each two; empty
/// texts before the first that is not leave no separator. Of no texts it gives NULL.
pub proof fn texts_are_joined_by_the_separator(a: AggV, vals: Seq<Val>)
    requires
        a.kind is StringAgg,
        vals.len() <= i64::MAX,
        forall|i: int| 0 <= i < vals.len() ==> #[trigger] vals[i] is Bytes,
    ensures
        vals.len() == 0 ==> aggregated(a, vals) == Ok::<Val, Code>(Val::Null),
        vals.len() > 0 ==> aggregated(a, vals) == Ok::<Val, Code>(
            Val::Bytes(joined(from_first_text(texts_of(vals)), a.separator)),
        ),
        vals.len() > 0 && texts_of(vals)[0].len() > 0 ==> aggregated(a, vals) == Ok::<Val, Code>(
            Val::Bytes(joined(texts_of(vals), a.separator)),
        ),
{
    lemma_string_state(rule_of(a)->0, vals);
}

/// The texts of values as elements of a list.
pub open spec fn element_texts(vals: Seq<Val>, ty: Ty) -> Seq<Seq<u8>> {
    vals.map_values(|v: Val| scalar_text(v, ty))
}

proof fn lemma_list_state(r: RuleV, vals: Seq<Val>)
    requires
        r.op == AggOp::ArrayAgg,
        vals.len() <= i64::MAX,
    ensures
        agg_state(r, vals) matches Ok(st) && st.n == vals.len() && st.acc == if vals.len() == 0 {
            Val::Null
        } else {
            Val::Bytes(seq![91u8] + joined(element_texts(vals, r.ty), seq![44u8, 32u8]))
        },
    decreases vals.len(),
{
    reveal(agg_step);
    if vals.len() > 0 {
        let f = vals.drop_last();
        lemma_list_state(r, f);
        let t = scalar_text(vals.last(), r.ty);
        let ts = element_texts(f, r.ty);
        let sep = seq![44u8, 32u8];
        assert(element_texts(vals, r.ty) =~= ts.push(t));
        if f.len() == 0 {
            assert(ts.push(t) =~= seq![t]);
            assert(joined(seq![t], sep) == t);
        } else {
            lemma_joined_push(ts, sep, t);
            assert(seq![91u8] + joined(ts, sep) + sep + t =~= seq![91u8] + (joined(ts, sep) + sep + t));
        }
    }
}

/// `ARRAY_AGG` gives a JSON list of the values, NULLs among them, in the order in which they came.
/// Of no values it gives NULL.
pub proof fn lists_hold_every_value(a: AggV, vals: Seq<Val>)
    requires
        a.kind is ArrayAgg,
        vals.len() <= i64::MAX,
    ensures
        vals.len() == 0 ==> aggregated(a, vals) == Ok::<Val, Code>(Val::Null),
        vals.len() > 0 ==> aggregated(a, vals) == Ok::<Val, Code>(
            Val::Bytes(
                seq![91u8] + joined(element_texts(vals, a.input_ty()), seq![44u8, 32u8]) + seq![93u8],
            ),
        ),
{
    lemma_list_state(rule_of(a)->0, vals);
    if vals.len() > 0 {
        let b = seq![91u8] + joined(element_texts(vals, a.input_ty()), seq![44u8, 32u8]);
        assert(b.push(93) =~= b + seq![93u8]);
    }
}

// --- What is fed ------------------------------------------------------------------------------------------

/// NULLs are passed over, but by `COUNT(*)` and `ARRAY_AGG`; without `DISTINCT` every other value
/// is fed as it comes.
pub proof fn nulls_are_passed_over(a: AggV, vals: Seq<Val>, v: Val)
    requires
        rule_of(a) is Some,
    ensures
        v is Null && !(a.kind is CountStar) && !(a.kind is ArrayAgg) ==> fed_next(rule_of(a)->0, vals, v) == vals,
        !(v is Null) && !a.distinct && !(a.kind is ApproxCountDistinct) ==> fed_next(rule_of(a)->0, vals, v) == vals.push(
            v,
        ),
        (a.kind is CountStar || a.kind is ArrayAgg) && !a.distinct ==> fed_next(rule_of(a)->0, vals, v) == vals.push(v),
{
}

// --- Doubles ------------------------------------------------------------------------------------------------

/// The sum of the first `k` numbers.
pub open spec fn sum_of(ks: Seq<int>, k: int) -> int {
    total(k, |i: int| ks[i])
}

/// Whether doubles stand for whole numbers whose running sums are all below `2^53`.
pub open spec fn whole_doubles(vals: Seq<Val>, ks: Seq<int>) -> bool {
    &&& ks.len() == vals.len()
    &&& forall|i: int|
        0 <= i < vals.len() ==> (#[trigger] vals[i] matches Val::F64(x) && f_finite(x) && f_scaled(x) == ks[i] * unit())
    &&& forall|i: int| 0 <= i < vals.len() ==> -0x20_0000_0000_0000 < #[trigger] ks[i] < 0x20_0000_0000_0000
    &&& forall|k: int|
        0 <= k <= vals.len() ==> -0x20_0000_0000_0000 < #[trigger] sum_of(ks, k) < 0x20_0000_0000_0000
}

proof fn lemma_exact_whole_sum(a: u64, b: u64, m: int)
    requires
        f_finite(a),
        f_finite(b),
        f_scaled(a) + f_scaled(b) == m * unit(),
        -0x20_0000_0000_0000 < m < 0x20_0000_0000_0000,
    ensures
        f_finite(f_sum(a, b)),
        f_scaled(f_sum(a, b)) == m * unit(),
{
    short_numbers_are_exact(m);
    exact_sums_are_kept(a, b, f_of_int(m));
}

proof fn lemma_difference(a: u64, b: u64, x: int, y: int)
    requires
        f_finite(a),
        f_finite(b),
        f_scaled(a) == x * unit(),
        f_scaled(b) == y * unit(),
        -0x20_0000_0000_0000 < x - y < 0x20_0000_0000_0000,
    ensures
        f_finite(f_difference(a, b)),
        f_scaled(f_difference(a, b)) == (x - y) * unit(),
{
    let u = unit();
    assert(f_units(f_negated(b)) == f_units(b));
    assert((x - y) * u == x * u - y * u) by (nonlinear_arith);
    lemma_exact_whole_sum(a, f_negated(b), x - y);
}

proof fn lemma_exact_step(s: u64, comp: u64, x: u64, a: int, k: int)
    requires
        f_finite(s),
        f_finite(comp),
        f_finite(x),
        f_scaled(s) == a * unit(),
        f_scaled(comp) == 0,
        f_scaled(x) == k * unit(),
        -0x20_0000_0000_0000 < a < 0x20_0000_0000_0000,
        -0x20_0000_0000_0000 < k < 0x20_0000_0000_0000,
        -0x20_0000_0000_0000 < a + k < 0x20_0000_0000_0000,
    ensures
        ({
            let t = compensated_step(s, comp, x);
            &&& f_finite(t.0)
            &&& f_finite(t.1)
            &&& f_scaled(t.0) == (a + k) * unit()
            &&& f_scaled(t.1) == 0
        }),
{
    let u = unit();
    assert((a + k) * u == a * u + k * u) by (nonlinear_arith);
    assert((-k) * u == -(k * u) && (-a) * u == -(a * u) && 0 * u == 0) by (nonlinear_arith);
    lemma_exact_whole_sum(s, x, a + k);
    let t = f_sum(s, x);
    lemma_difference(s, t, a, a + k);
    lemma_difference(x, t, k, a + k);
    let l1 = f_sum(f_difference(s, t), x);
    let l2 = f_sum(f_difference(x, t), s);
    lemma_exact_whole_sum(f_difference(s, t), x, 0);
    lemma_exact_whole_sum(f_difference(x, t), s, 0);
    lemma_exact_whole_sum(comp, l1, 0);
    lemma_exact_whole_sum(comp, l2, 0);
}

proof fn lemma_double_state(r: RuleV, vals: Seq<Val>, ks: Seq<int>)
    requires
        r.op == AggOp::SumF64 || r.op == AggOp::AvgF64,
        vals.len() <= i64::MAX,
        whole_doubles(vals, ks),
    ensures
        agg_state(r, vals) matches Ok(st) && st.n == vals.len() && (if vals.len() == 0 {
            st.acc is Null
        } else {
            st.acc matches Val::F64(s) && f_finite(s) && f_scaled(s) == sum_of(ks, vals.len() as int) * unit()
                && f_finite(st.comp) && f_scaled(st.comp) == 0
        }),
    decreases vals.len(),
{
    reveal(agg_step);
    if vals.len() > 0 {
        let f = vals.drop_last();
        let g = ks.drop_last();
        let n = vals.len() as int;
        assert(whole_doubles(f, g)) by {
            assert forall|i: int| 0 <= i < f.len() implies (#[trigger] f[i] matches Val::F64(x) && f_finite(x) && f_scaled(x)
                == g[i] * unit()) by {
                assert(f[i] == vals[i]);
                assert(g[i] == ks[i]);
            }
            assert forall|i: int| 0 <= i < f.len() implies -0x20_0000_0000_0000 < #[trigger] g[i] < 0x20_0000_0000_0000 by {
                assert(g[i] == ks[i]);
            }
            assert forall|k: int| 0 <= k <= f.len() implies -0x20_0000_0000_0000 < #[trigger] sum_of(g, k)
                < 0x20_0000_0000_0000 by {
                lemma_total_front(ks, k);
                assert(-0x20_0000_0000_0000 < sum_of(ks, k) < 0x20_0000_0000_0000);
            }
        }
        lemma_double_state(r, f, g);
        lemma_total_front(ks, n - 1);
        let c = |i: int| ks[i];
        assert(total(n, c) == total(n - 1, c) + c(n - 1));
        assert(-0x20_0000_0000_0000 < sum_of(ks, n) < 0x20_0000_0000_0000);
        assert(-0x20_0000_0000_0000 < sum_of(ks, n - 1) < 0x20_0000_0000_0000);
        assert(vals[n - 1] == vals.last());
        assert(-0x20_0000_0000_0000 < ks[n - 1] < 0x20_0000_0000_0000);
        let x = vals.last()->F64_0;
        lemma_zero(F_ZERO);
        if n == 1 {
            assert(total(0, c) == 0);
        } else {
            let st = agg_state(r, f)->Ok_0;
            lemma_exact_step(st.acc->F64_0, st.comp, x, total(n - 1, c), ks[n - 1]);
        }
    }
}

proof fn lemma_total_front(ks: Seq<int>, k: int)
    requires
        0 <= k < ks.len(),
    ensures
        sum_of(ks.drop_last(), k) == sum_of(ks, k),
    decreases k,
{
    let a = |i: int| ks.drop_last()[i];
    let b = |i: int| ks[i];
    if k > 0 {
        lemma_total_front(ks, k - 1);
        assert(total(k, a) == total(k - 1, a) + a(k - 1));
        assert(total(k, b) == total(k - 1, b) + b(k - 1));
        assert(ks.drop_last()[k - 1] == ks[k - 1]);
    }
}

/// The sum of doubles that stand for whole numbers is exact as long as the running sums are below
/// `2^53`.
pub proof fn sums_of_whole_doubles_are_exact(a: AggV, vals: Seq<Val>, ks: Seq<int>)
    requires
        a.kind is Sum,
        a.input_ty().phys() == PhysType::F64,
        0 < vals.len() <= i64::MAX,
        whole_doubles(vals, ks),
    ensures
        aggregated(a, vals) matches Ok(Val::F64(s)) && f_finite(s) && f_scaled(s) == sum_of(ks, vals.len() as int) * unit(),
{
    let r = rule_of(a)->0;
    lemma_double_state(r, vals, ks);
    let st = agg_state(r, vals)->Ok_0;
    let m = sum_of(ks, vals.len() as int);
    lemma_exact_whole_sum(st.acc->F64_0, st.comp, m);
}

proof fn lemma_same_state(r: RuleV, q: RuleV, vals: Seq<Val>)
    requires
        r.op == AggOp::SumF64,
        q.op == AggOp::AvgF64,
    ensures
        agg_state(r, vals) == agg_state(q, vals),
        agg_state(r, vals) matches Ok(st) ==> st.n == vals.len() && (vals.len() > 0 ==> st.acc is F64) && (vals.len() == 0
            ==> st.acc is Null),
    decreases vals.len(),
{
    reveal(agg_step);
    if vals.len() > 0 {
        lemma_same_state(r, q, vals.drop_last());
    }
}

/// The average of doubles is their sum divided by their number.
pub proof fn averages_of_doubles_divide_their_sum(a: AggV, b: AggV, vals: Seq<Val>)
    requires
        a.kind is Sum,
        b.kind is Avg,
        a.input_ty().phys() == PhysType::F64,
        b.input_ty().phys() == PhysType::F64,
    ensures
        aggregated(a, vals) is Ok <==> aggregated(b, vals) is Ok,
        vals.len() == 0 ==> aggregated(a, vals) == Ok::<Val, Code>(Val::Null) && aggregated(b, vals) == Ok::<Val, Code>(
            Val::Null,
        ),
        aggregated(a, vals) is Ok && vals.len() > 0 ==> (aggregated(a, vals) matches Ok(Val::F64(s)) && aggregated(b, vals)
            == Ok::<Val, Code>(Val::F64(f_quotient(s, f_of_int(vals.len() as int))))),
{
    lemma_same_state(rule_of(a)->0, rule_of(b)->0, vals);
}

} // verus!
