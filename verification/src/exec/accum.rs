//! The states of grouped aggregates.
//!
//! An aggregate's value in a group depends on the values fed to it there, in the order of
//! their arrival: those of the rows that pass its filter, without NULLs, and with DISTINCT
//! without repetitions.

use crate::error::{Code, Error};
use crate::exec::ranking::{arranged, lemma_arranged_mapped, orders, sort_rows, RowOrder};
use crate::exec::rowkey::{
    cell_key, encode_cell, entry_of, has_key, inserting_keeps_other_keys, keys_are_distinct, HashIndex,
    max_keys,
};
use crate::exec::text::{push_json_scalar, scalar_text};
use crate::exec::total::{
    add_int, compensated, compensated_step, compensated_sum, divisor, divisor_of, neumaier_add, scale_double, scaled_double,
};
use crate::float::{
    f_difference, f_finite, f_less, f_of_int, f_product, f_quotient, f_sum, from_int, less, minus, over, plus, times, F_HALF,
    F_ONE, F_ZERO, NAN,
};
use crate::hash::{copy_bytes, put_bytes};
use crate::order::{f64_rank, int_order, ord_f64, Order};
use crate::plan::{aggregate_ty, Agg, AggKind, AggV};
use crate::vector::{
    order_values, row_numbers, val_order, val_order_flips, val_order_is_transitive, PhysType, Ty, Val,
    Value,
};
use vstd::bytes::{spec_u32_to_le_bytes, u32_to_le_bytes};
use vstd::prelude::*;

verus! {

// --- Doubles ----------------------------------------------------------------------------

/// Newton's method for a square root, `k` steps from `y`.
pub open spec fn f_newton(x: u64, y: u64, k: nat) -> u64
    decreases k,
{
    if k == 0 {
        y
    } else {
        f_newton(x, f_product(F_HALF, f_sum(y, f_quotient(x, y))), (k - 1) as nat)
    }
}

/// A square root: five steps of Newton's method from half the exponent.
pub open spec fn f_sqrt(x: u64) -> u64 {
    if f_less(x, F_ZERO) {
        NAN
    } else if !f_less(F_ZERO, x) || !f_finite(x) {
        x
    } else {
        f_newton(x, ((x + 0x3ff0_0000_0000_0000) / 2) as u64, 5)
    }
}

/// The square root of a double.
pub fn sqrt(x: u64) -> (r: u64)
    ensures
        r == f_sqrt(x),
{
    if less(x, F_ZERO) {
        return NAN;
    }
    if !less(F_ZERO, x) || crate::float::is_infinite(x) || crate::float::is_nan(x) {
        return x;
    }
    assert(f_finite(x) && x < 0x7ff0_0000_0000_0000);
    let mut y: u64 = (x + 0x3ff0_0000_0000_0000) / 2;
    let mut k: u32 = 5;
    let ghost y0 = y;
    while k > 0
        invariant
            k <= 5,
            f_newton(x, y, k as nat) == f_newton(x, y0, 5),
        decreases k,
    {
        y = times(F_HALF, plus(y, over(x, y)));
        k = k - 1;
    }
    y
}

/// The order of doubles: by value, NaN above everything.
pub open spec fn double_rule() -> spec_fn(u64, u64) -> Order {
    |a: u64, b: u64| int_order(f64_rank(a) as int, f64_rank(b) as int)
}

/// The continuous median: the middle value, or halfway between the two middle ones.
pub open spec fn median_of(xs: Seq<u64>) -> Val {
    if xs.len() == 0 {
        Val::Null
    } else {
        let s = arranged(xs, double_rule());
        let m = xs.len() as int;
        let lo = (m - 1) / 2;
        let hi = m / 2;
        if lo == hi {
            Val::F64(s[lo])
        } else {
            let frac = f_difference(f_product(f_of_int(m - 1), F_HALF), f_of_int(lo));
            Val::F64(f_sum(s[lo], f_product(f_difference(s[hi], s[lo]), frac)))
        }
    }
}

/// Positions ordered by the doubles there.
pub struct DoubleOrder<'a> {
    pub xs: &'a Vec<u64>,
}

impl<'a> RowOrder for DoubleOrder<'a> {
    open spec fn rule(&self) -> spec_fn(u32, u32) -> Order {
        |a: u32, b: u32| int_order(f64_rank(self.xs@[a as int]) as int, f64_rank(self.xs@[b as int]) as int)
    }

    open spec fn dom(&self) -> spec_fn(u32) -> bool {
        |a: u32| a < self.xs@.len()
    }

    fn order_rows(&self, a: u32, b: u32) -> (r: Order) {
        ord_f64(self.xs[a as usize], self.xs[b as usize])
    }
}

/// The median of doubles.
fn median(xs: &Vec<u64>) -> (r: Value)
    requires
        xs@.len() <= u32::MAX,
    ensures
        r@ == median_of(xs@),
{
    let m: usize = xs.len();
    if m == 0 {
        return Value::Null;
    }
    let idx = row_numbers(0, m);
    let o = DoubleOrder { xs };
    proof {
        assert(orders(o.rule(), o.dom()));
        assert forall|i: int| 0 <= i < idx@.len() implies (o.dom())(#[trigger] idx@[i]) by {}
    }
    let order = sort_rows(&o, &idx);
    let ghost s = arranged(xs@, double_rule());
    proof {
        let f = |r: u32| xs@[r as int];
        assert(idx@.map_values(f) =~= xs@);
        assert forall|i: int, j: int| 0 <= i < idx@.len() && 0 <= j < idx@.len() implies (double_rule())(
            f(#[trigger] idx@[i]),
            f(#[trigger] idx@[j]),
        ) == (o.rule())(idx@[i], idx@[j]) by {}
        lemma_arranged_mapped(idx@, f, o.rule(), double_rule());
        assert(s == order@.map_values(f));
    }
    let lo: usize = (m - 1) / 2;
    let hi: usize = m / 2;
    assert((o.dom())(order@[lo as int]));
    let a: u64 = xs[order[lo] as usize];
    assert(a == s[lo as int]);
    if lo == hi {
        return Value::F64(a);
    }
    assert((o.dom())(order@[hi as int]));
    let b: u64 = xs[order[hi] as usize];
    assert(b == s[hi as int]);
    let frac: u64 = minus(times(from_int(m as i128 - 1), F_HALF), from_int(lo as i128));
    Value::F64(plus(a, times(minus(b, a), frac)))
}

// --- One aggregate, as a function of the values fed to it ------------------------------------

/// How values are folded.
#[derive(Clone, Copy, PartialEq, Eq, Structural, Debug)]
pub enum AggOp {
    CountStar,
    Count,
    /// Whole numbers and decimals, summed exactly.
    SumInt,
    SumF64,
    AvgInt,
    AvgF64,
    Min,
    Max,
    /// Sample standard deviation and variance, by Welford's method.
    StdDev,
    Variance,
    Median,
    Mode,
    StringAgg,
    ArrayAgg,
}

/// What an aggregate does.
#[verifier::ext_equal]
pub struct RuleV {
    pub op: AggOp,
    /// The argument's type.
    pub ty: Ty,
    pub separator: Seq<u8>,
    /// Whether a value is fed only once.
    pub dedup: bool,
}

/// An aggregate's state.
#[verifier::ext_equal]
pub struct StateV {
    /// How many values have been fed.
    pub n: int,
    /// What has been accumulated.
    pub acc: Val,
    /// The compensation of a sum of doubles.
    pub comp: u64,
    /// The mean and the sum of squared deviations so far.
    pub mean: u64,
    pub m2: u64,
    /// The values that the median is taken of.
    pub doubles: Seq<u64>,
    /// How often the most frequent value has occurred.
    pub best: int,
    /// Where it occurred first.
    pub lead: int,
}

pub open spec fn state_start() -> StateV {
    StateV { n: 0, acc: Val::Null, comp: F_ZERO, mean: F_ZERO, m2: F_ZERO, doubles: Seq::empty(), best: 0, lead: 0 }
}

/// How often values with a key occur.
pub open spec fn occurrences(ty: Ty, vals: Seq<Val>, key: Seq<u8>) -> int
    decreases vals.len(),
{
    if vals.len() == 0 {
        0
    } else {
        occurrences(ty, vals.drop_last(), key) + if cell_key(vals.last(), ty) == key {
            1int
        } else {
            0
        }
    }
}

/// Where a value with a key occurs first; behind the last one if none does.
pub open spec fn first_at(ty: Ty, vals: Seq<Val>, key: Seq<u8>) -> int
    decreases vals.len(),
{
    if vals.len() == 0 {
        0
    } else {
        let first = first_at(ty, vals.drop_last(), key);
        if first < vals.len() - 1 || cell_key(vals.last(), ty) == key {
            first
        } else {
            first + 1
        }
    }
}

pub open spec fn whole_number(v: Val) -> Option<i128> {
    match v {
        Val::I32(x) => Some(x as i128),
        Val::I64(x) => Some(x as i128),
        Val::I128(x) => Some(x),
        _ => None,
    }
}

/// What text has been accumulated.
pub open spec fn text_of(acc: Val) -> Seq<u8> {
    match acc {
        Val::Bytes(b) => b,
        _ => Seq::empty(),
    }
}

/// The state after one more value, the values before it being `seen`.
#[verifier::opaque]
pub open spec fn agg_step(r: RuleV, seen: Seq<Val>, st: StateV, v: Val) -> Result<StateV, Code> {
    let n = st.n + 1;
    if n > i64::MAX {
        Err(Code::LimitExceeded)
    } else {
        match r.op {
            AggOp::CountStar | AggOp::Count => Ok(StateV { n, ..st }),
            AggOp::SumInt | AggOp::AvgInt => match whole_number(v) {
                None => Err(Code::TypeMismatch),
                Some(x) => match add_int(st.acc, x) {
                    Err(e) => Err(e),
                    Ok(acc) => Ok(StateV { n, acc, ..st }),
                },
            },
            AggOp::SumF64 | AggOp::AvgF64 => match v {
                Val::F64(x) => match st.acc {
                    Val::F64(s) => {
                        let t = compensated_step(s, st.comp, x);
                        Ok(StateV { n, acc: Val::F64(t.0), comp: t.1, ..st })
                    },
                    _ => Ok(StateV { n, acc: Val::F64(x), comp: F_ZERO, ..st }),
                },
                _ => Err(Code::TypeMismatch),
            },
            AggOp::Min | AggOp::Max => if !v.fits(r.ty.phys()) {
                Err(Code::Internal)
            } else {
                let wins = st.acc is Null || val_order(v, st.acc, r.ty) == if r.op == AggOp::Min {
                    Order::Less
                } else {
                    Order::Greater
                };
                Ok(
                    StateV {
                        n,
                        acc: if wins {
                            v
                        } else {
                            st.acc
                        },
                        ..st
                    },
                )
            },
            AggOp::StdDev | AggOp::Variance => match scaled_double(v, divisor(r.ty)) {
                None => Err(Code::TypeMismatch),
                Some(x) => {
                    let delta = f_difference(x, st.mean);
                    let mean = f_sum(st.mean, f_quotient(delta, f_of_int(n)));
                    let m2 = f_sum(st.m2, f_product(delta, f_difference(x, mean)));
                    Ok(StateV { n, mean, m2, ..st })
                },
            },
            AggOp::Median => match scaled_double(v, divisor(r.ty)) {
                None => Err(Code::TypeMismatch),
                Some(x) => if st.doubles.len() >= u32::MAX {
                    Err(Code::LimitExceeded)
                } else {
                    Ok(StateV { n, doubles: st.doubles.push(x), ..st })
                },
            },
            AggOp::Mode => if !v.fits(r.ty.phys()) {
                Err(Code::Internal)
            } else {
                let times = occurrences(r.ty, seen, cell_key(v, r.ty)) + 1;
                let first = first_at(r.ty, seen, cell_key(v, r.ty));
                if times > st.best || (times == st.best && first < st.lead) {
                    Ok(StateV { n, acc: v, best: times, lead: first, ..st })
                } else {
                    Ok(StateV { n, ..st })
                }
            },
            AggOp::StringAgg => match v {
                Val::Bytes(b) => {
                    let held = text_of(st.acc);
                    let sep = if held.len() > 0 {
                        r.separator
                    } else {
                        Seq::empty()
                    };
                    Ok(StateV { n, acc: Val::Bytes(held + sep + b), ..st })
                },
                _ => Err(Code::TypeMismatch),
            },
            AggOp::ArrayAgg => {
                let held = text_of(st.acc);
                let open = if held.len() == 0 {
                    seq![91u8]
                } else {
                    held + seq![44u8, 32u8]
                };
                Ok(StateV { n, acc: Val::Bytes(open + scalar_text(v, r.ty)), ..st })
            },
        }
    }
}

/// The state after values.
pub open spec fn agg_state(r: RuleV, vals: Seq<Val>) -> Result<StateV, Code>
    decreases vals.len(),
{
    if vals.len() == 0 {
        Ok(state_start())
    } else {
        match agg_state(r, vals.drop_last()) {
            Err(e) => Err(e),
            Ok(st) => agg_step(r, vals.drop_last(), st, vals.last()),
        }
    }
}

/// The sample variance; rounding cannot make it negative.
pub open spec fn variance_of(st: StateV) -> u64 {
    let v = f_quotient(st.m2, f_difference(f_of_int(st.n), F_ONE));
    if f_less(F_ZERO, v) {
        v
    } else {
        F_ZERO
    }
}

/// The value that a state stands for.
pub open spec fn agg_result(r: RuleV, st: StateV) -> Val {
    match r.op {
        AggOp::CountStar | AggOp::Count => Val::I64(st.n as i64),
        AggOp::SumInt | AggOp::Min | AggOp::Max | AggOp::StringAgg | AggOp::Mode => st.acc,
        AggOp::SumF64 => match st.acc {
            Val::F64(s) => Val::F64(compensated_sum(s, st.comp)),
            _ => Val::Null,
        },
        AggOp::AvgInt => match st.acc {
            Val::I128(s) => Val::F64(f_quotient(f_quotient(f_of_int(s as int), divisor(r.ty)), f_of_int(st.n))),
            _ => Val::Null,
        },
        AggOp::AvgF64 => match st.acc {
            Val::F64(s) => Val::F64(f_quotient(compensated_sum(s, st.comp), f_of_int(st.n))),
            _ => Val::Null,
        },
        AggOp::StdDev => if st.n < 2 {
            Val::Null
        } else {
            Val::F64(f_sqrt(variance_of(st)))
        },
        AggOp::Variance => if st.n < 2 {
            Val::Null
        } else {
            Val::F64(variance_of(st))
        },
        AggOp::Median => median_of(st.doubles),
        AggOp::ArrayAgg => match st.acc {
            Val::Bytes(b) => Val::Bytes(b.push(93)),
            _ => Val::Null,
        },
    }
}

/// Whether a value with a key has been fed.
pub open spec fn fed_already(ty: Ty, vals: Seq<Val>, key: Seq<u8>) -> bool {
    occurrences(ty, vals, key) > 0
}

/// The values fed after one more row with value `v` has passed the filter. Only `COUNT(*)` and
/// `ARRAY_AGG` take NULLs.
pub open spec fn fed_next(r: RuleV, vals: Seq<Val>, v: Val) -> Seq<Val> {
    if v is Null && r.op != AggOp::CountStar && r.op != AggOp::ArrayAgg {
        vals
    } else if r.dedup && fed_already(r.ty, vals, cell_key(v, r.ty)) {
        vals
    } else {
        vals.push(v)
    }
}

/// What the accumulated value can be.
pub open spec fn acc_fits(r: RuleV, acc: Val) -> bool {
    match r.op {
        AggOp::SumInt | AggOp::AvgInt => acc.fits(PhysType::I128),
        AggOp::SumF64 | AggOp::AvgF64 => acc.fits(PhysType::F64),
        AggOp::Min | AggOp::Max | AggOp::Mode => acc.fits(r.ty.phys()),
        AggOp::StringAgg | AggOp::ArrayAgg => acc.fits(PhysType::Bytes),
        _ => true,
    }
}

/// With DISTINCT no value is fed twice.
pub proof fn distinct_values_are_fed_once(r: RuleV, vals: Seq<Val>, v: Val, key: Seq<u8>)
    requires
        r.dedup,
        occurrences(r.ty, vals, key) <= 1,
    ensures
        occurrences(r.ty, fed_next(r, vals, v), key) <= 1,
{
    assert(vals.push(v).drop_last() =~= vals);
    lemma_occurrences_positive(r.ty, vals, key);
}

proof fn lemma_occurrences_positive(ty: Ty, vals: Seq<Val>, key: Seq<u8>)
    ensures
        0 <= occurrences(ty, vals, key) <= vals.len(),
    decreases vals.len(),
{
    if vals.len() > 0 {
        lemma_occurrences_positive(ty, vals.drop_last(), key);
    }
}

proof fn lemma_first_at(ty: Ty, vals: Seq<Val>, key: Seq<u8>)
    ensures
        0 <= first_at(ty, vals, key) <= vals.len(),
        occurrences(ty, vals, key) == 0 ==> first_at(ty, vals, key) == vals.len(),
        occurrences(ty, vals, key) > 0 ==> first_at(ty, vals, key) < vals.len(),
    decreases vals.len(),
{
    if vals.len() > 0 {
        lemma_first_at(ty, vals.drop_last(), key);
        lemma_occurrences_positive(ty, vals.drop_last(), key);
    }
}

/// The mode is a value that occurs as often as any, and of those the one that occurs first.
pub proof fn the_mode_is_the_first_of_the_most_frequent(r: RuleV, vals: Seq<Val>, key: Seq<u8>)
    requires
        r.op == AggOp::Mode,
        vals.len() > 0,
        agg_state(r, vals) is Ok,
    ensures
        ({
            let mode = agg_state(r, vals)->Ok_0.acc;
            let often = occurrences(r.ty, vals, cell_key(mode, r.ty));
            &&& vals.contains(mode)
            &&& occurrences(r.ty, vals, key) <= often
            &&& occurrences(r.ty, vals, key) == often ==> first_at(r.ty, vals, cell_key(mode, r.ty)) <= first_at(
                r.ty,
                vals,
                key,
            )
        }),
{
    lemma_mode(r, vals);
}

proof fn lemma_mode(r: RuleV, vals: Seq<Val>)
    requires
        r.op == AggOp::Mode,
        vals.len() > 0,
        agg_state(r, vals) is Ok,
    ensures
        ({
            let st = agg_state(r, vals)->Ok_0;
            &&& vals.contains(st.acc)
            &&& st.best == occurrences(r.ty, vals, cell_key(st.acc, r.ty)) > 0
            &&& st.lead == first_at(r.ty, vals, cell_key(st.acc, r.ty))
            &&& forall|k: Seq<u8>| #[trigger]
                occurrences(r.ty, vals, k) <= st.best && (occurrences(r.ty, vals, k) == st.best ==> st.lead <= first_at(
                    r.ty,
                    vals,
                    k,
                ))
        }),
    decreases vals.len(),
{
    reveal(agg_step);
    let front = vals.drop_last();
    let v = vals.last();
    let st = agg_state(r, vals)->Ok_0;
    assert(vals[vals.len() - 1] == v);
    if front.len() > 0 {
        lemma_mode(r, front);
        let before = agg_state(r, front)->Ok_0.acc;
        let i = choose|i: int| 0 <= i < front.len() && front[i] == before;
        assert(vals[i] == before);
    }
    assert forall|k: Seq<u8>| #[trigger]
        occurrences(r.ty, vals, k) <= st.best && (occurrences(r.ty, vals, k) == st.best ==> st.lead <= first_at(
            r.ty,
            vals,
            k,
        )) by {
        lemma_occurrences_positive(r.ty, front, k);
        lemma_first_at(r.ty, front, k);
        assert(front.len() > 0 ==> occurrences(r.ty, front, k) <= agg_state(r, front)->Ok_0.best);
    }
    lemma_occurrences_positive(r.ty, front, cell_key(v, r.ty));
    lemma_first_at(r.ty, front, cell_key(v, r.ty));
    lemma_first_at(r.ty, front, cell_key(st.acc, r.ty));
}

/// The minimum is one of the values and none is less; the maximum is one and none is greater.
pub proof fn extremes_are_values_and_none_is_beyond(r: RuleV, vals: Seq<Val>, i: int)
    requires
        r.op == AggOp::Min || r.op == AggOp::Max,
        agg_state(r, vals) is Ok,
        forall|j: int| 0 <= j < vals.len() ==> !((#[trigger] vals[j]) is Null),
        0 <= i < vals.len(),
    ensures
        ({
            let acc = agg_state(r, vals)->Ok_0.acc;
            &&& vals.contains(acc)
            &&& acc.phys() == Some(r.ty.phys())
            &&& val_order(vals[i], acc, r.ty) != if r.op == AggOp::Min {
                Order::Less
            } else {
                Order::Greater
            }
        }),
    decreases vals.len(),
{
    reveal(agg_step);
    let front = vals.drop_last();
    let v = vals.last();
    let acc = agg_state(r, vals)->Ok_0.acc;
    assert(vals[vals.len() - 1] == v);
    val_order_flips(v, v, r.ty);
    if front.len() > 0 {
        assert forall|j: int| 0 <= j < front.len() implies !((#[trigger] front[j]) is Null) by {
            assert(front[j] == vals[j]);
        }
        let at = if i < front.len() {
            i
        } else {
            0
        };
        extremes_are_values_and_none_is_beyond(r, front, at);
        let before = agg_state(r, front)->Ok_0.acc;
        let k = choose|k: int| 0 <= k < front.len() && front[k] == before;
        assert(vals[k] == before);
        if i < front.len() {
            let w = vals[i];
            assert(w == front[i]);
            lemma_fed_fit(r, front, i);
            val_order_flips(w, v, r.ty);
            val_order_flips(v, before, r.ty);
            val_order_flips(w, before, r.ty);
            if acc == v && val_order(v, before, r.ty) != Order::Equal {
                if r.op == AggOp::Min && val_order(w, v, r.ty) == Order::Less {
                    val_order_is_transitive(w, v, before, r.ty);
                }
                if r.op == AggOp::Max && val_order(w, v, r.ty) == Order::Greater {
                    val_order_is_transitive(before, v, w, r.ty);
                }
            }
        }
    }
}

/// Values of which an extreme has been taken fit their column.
proof fn lemma_fed_fit(r: RuleV, vals: Seq<Val>, i: int)
    requires
        r.op == AggOp::Min || r.op == AggOp::Max,
        agg_state(r, vals) is Ok,
        0 <= i < vals.len(),
    ensures
        vals[i].fits(r.ty.phys()),
    decreases vals.len(),
{
    reveal(agg_step);
    if i < vals.len() - 1 {
        lemma_fed_fit(r, vals.drop_last(), i);
    }
}

// --- One aggregate, computed ----------------------------------------------------------------

/// What an aggregate does.
pub struct AggRule {
    pub op: AggOp,
    pub ty: Ty,
    pub div: u64,
    pub separator: Vec<u8>,
    pub dedup: bool,
    /// The result's type.
    pub out_ty: Ty,
}

impl View for AggRule {
    type V = RuleV;

    open spec fn view(&self) -> RuleV {
        RuleV { op: self.op, ty: self.ty, separator: self.separator@, dedup: self.dedup }
    }
}

/// How the values of an aggregate are folded. Some aggregates exist over windows only.
pub open spec fn op_of(kind: AggKind, ty: Ty) -> Option<AggOp> {
    let float = ty.phys() == PhysType::F64;
    match kind {
        AggKind::CountStar => Some(AggOp::CountStar),
        AggKind::Count => Some(AggOp::Count),
        AggKind::ApproxCountDistinct => Some(AggOp::Count),
        AggKind::Sum => Some(
            if float {
                AggOp::SumF64
            } else {
                AggOp::SumInt
            },
        ),
        AggKind::Avg => Some(
            if float {
                AggOp::AvgF64
            } else {
                AggOp::AvgInt
            },
        ),
        AggKind::Min => Some(AggOp::Min),
        AggKind::Max => Some(AggOp::Max),
        AggKind::StdDev => Some(AggOp::StdDev),
        AggKind::Variance => Some(AggOp::Variance),
        AggKind::Median => Some(AggOp::Median),
        AggKind::Mode => Some(AggOp::Mode),
        AggKind::StringAgg => Some(AggOp::StringAgg),
        AggKind::ArrayAgg => Some(AggOp::ArrayAgg),
        _ => None,
    }
}

/// What an aggregate of a query does.
pub open spec fn rule_of(a: AggV) -> Option<RuleV> {
    match op_of(a.kind, a.input_ty()) {
        None => None,
        Some(op) => Some(
            RuleV {
                op,
                ty: a.input_ty(),
                separator: a.separator,
                dedup: (a.distinct || a.kind == AggKind::ApproxCountDistinct) && a.arg is Some,
            },
        ),
    }
}

/// `APPROX_COUNT_DISTINCT` is `COUNT(DISTINCT)`.
pub proof fn approximate_counts_are_exact(a: AggV, b: AggV)
    requires
        a.kind == AggKind::ApproxCountDistinct,
        b == (AggV { kind: AggKind::Count, distinct: true, ..a }),
    ensures
        rule_of(a) == rule_of(b),
        aggregate_ty(a.kind, a.input_ty()) == aggregate_ty(b.kind, b.input_ty()),
{
}

impl AggRule {
    /// The divisor and the result's type go with the rule.
    pub open spec fn wf(&self) -> bool {
        &&& self.div == divisor(self.ty)
        &&& result_fits(self.op, self.ty, self.out_ty)
    }

    /// Decides once what an aggregate does.
    pub fn new(a: &Agg) -> (r: Result<AggRule, Error>)
        ensures
            match r {
                Ok(rule) => {
                    &&& rule.wf()
                    &&& rule_of(a@) == Some(rule@)
                    &&& aggregate_ty(a.kind, a@.input_ty()) == Some(rule.out_ty)
                },
                Err(e) => if aggregate_ty(a.kind, a@.input_ty()) is None {
                    e.code == Code::TypeMismatch
                } else {
                    rule_of(a@) is None && e.code == Code::UnsupportedFeature
                },
            },
    {
        let ty: Ty = a.input_ty();
        let out_ty: Ty = match a.result_ty() {
            Ok(t) => t,
            Err(e) => {
                return Err(e);
            },
        };
        let float: bool = ty.phys() == PhysType::F64;
        let op: AggOp = match a.kind {
            AggKind::CountStar => AggOp::CountStar,
            AggKind::Count | AggKind::ApproxCountDistinct => AggOp::Count,
            AggKind::Sum => if float {
                AggOp::SumF64
            } else {
                AggOp::SumInt
            },
            AggKind::Avg => if float {
                AggOp::AvgF64
            } else {
                AggOp::AvgInt
            },
            AggKind::Min => AggOp::Min,
            AggKind::Max => AggOp::Max,
            AggKind::StdDev => AggOp::StdDev,
            AggKind::Variance => AggOp::Variance,
            AggKind::Median => AggOp::Median,
            AggKind::Mode => AggOp::Mode,
            AggKind::StringAgg => AggOp::StringAgg,
            AggKind::ArrayAgg => AggOp::ArrayAgg,
            _ => {
                return Err(Error::new(Code::UnsupportedFeature));
            },
        };
        let dedup: bool = (a.distinct || a.kind == AggKind::ApproxCountDistinct) && a.arg.is_some();
        Ok(
            AggRule {
                op,
                ty,
                div: divisor_of(ty),
                separator: copy_bytes(a.separator.as_slice()),
                dedup,
                out_ty,
            },
        )
    }
}

/// Whether a result can be held by a column of the result's type.
pub open spec fn result_fits(op: AggOp, ty: Ty, out_ty: Ty) -> bool {
    match op {
        AggOp::CountStar | AggOp::Count => out_ty.phys() == PhysType::I64,
        AggOp::SumInt => out_ty.phys() == PhysType::I128,
        AggOp::Min | AggOp::Max | AggOp::Mode => out_ty.phys() == ty.phys(),
        AggOp::StringAgg | AggOp::ArrayAgg => out_ty.phys() == PhysType::Bytes,
        _ => out_ty.phys() == PhysType::F64,
    }
}

/// The state of one aggregate in one group.
pub struct State {
    pub n: i64,
    pub acc: Value,
    pub comp: u64,
    pub mean: u64,
    pub m2: u64,
    pub doubles: Vec<u64>,
    pub best: u64,
    pub lead: u64,
}

impl View for State {
    type V = StateV;

    open spec fn view(&self) -> StateV {
        StateV {
            n: self.n as int,
            acc: self.acc@,
            comp: self.comp,
            mean: self.mean,
            m2: self.m2,
            doubles: self.doubles@,
            best: self.best as int,
            lead: self.lead as int,
        }
    }
}

fn as_whole(v: &Value) -> (r: Option<i128>)
    ensures
        r == whole_number(v@),
{
    match v {
        Value::I32(x) => Some(*x as i128),
        Value::I64(x) => Some(*x as i128),
        Value::I128(x) => Some(*x),
        _ => None,
    }
}

/// The bytes of a byte string.
pub open spec fn payload(v: Val) -> int {
    match v {
        Val::Bytes(b) => b.len() as int,
        _ => 0,
    }
}

fn payload_of(v: &Value) -> (r: u64)
    ensures
        r == payload(v@),
{
    match v {
        Value::Bytes(b) => b.len() as u64,
        _ => 0,
    }
}

impl State {
    pub fn empty() -> (s: State)
        ensures
            s@ == state_start(),
    {
        let s = State { n: 0, acc: Value::Null, comp: F_ZERO, mean: F_ZERO, m2: F_ZERO, doubles: Vec::new(), best: 0, lead: 0 };
        assert(s@ =~= state_start());
        s
    }

    fn take_text(&mut self) -> (b: Vec<u8>)
        ensures
            b@ == text_of(old(self).acc@),
            final(self).acc@ is Null,
            final(self).n == old(self).n,
            final(self).comp == old(self).comp,
            final(self).mean == old(self).mean,
            final(self).m2 == old(self).m2,
            final(self).doubles == old(self).doubles,
            final(self).best == old(self).best,
            final(self).lead == old(self).lead,
    {
        let mut acc = Value::Null;
        std::mem::swap(&mut acc, &mut self.acc);
        match acc {
            Value::Bytes(b) => b,
            _ => {
                let b: Vec<u8> = Vec::new();
                assert(b@ =~= Seq::empty());
                b
            },
        }
    }

    /// Folds one value in. `times` says how often it has been fed before, and `first` when first,
    /// where that matters.
    pub(crate) fn update(
        &mut self,
        rule: &AggRule,
        v: &Value,
        times: u64,
        first: u64,
        Ghost(seen): Ghost<Seq<Val>>,
    ) -> (r: Result<(), Error>)
        requires
            rule.wf(),
            rule.op == AggOp::Mode ==> times == occurrences(rule.ty, seen, cell_key(v@, rule.ty)) && times < u64::MAX,
            rule.op == AggOp::Mode ==> first == first_at(rule.ty, seen, cell_key(v@, rule.ty)),
            acc_fits(rule@, old(self).acc@),
        ensures
            match agg_step(rule@, seen, old(self)@, v@) {
                Ok(st) => r is Ok && final(self)@ == st && acc_fits(rule@, st.acc),
                Err(c) => (r matches Err(e) && e.code == c) && *final(self) == *old(self),
            },
            old(self).doubles@.len() <= u32::MAX ==> final(self).doubles@.len() <= u32::MAX,
    {
        reveal(agg_step);
        if self.n == i64::MAX {
            return Err(Error::new(Code::LimitExceeded));
        }
        let n: i64 = self.n + 1;
        let ghost before = self@;
        match rule.op {
            AggOp::CountStar | AggOp::Count => {},
            AggOp::SumInt | AggOp::AvgInt => {
                let x: i128 = match as_whole(v) {
                    Some(x) => x,
                    None => {
                        return Err(Error::new(Code::TypeMismatch));
                    },
                };
                let s: i128 = match &self.acc {
                    Value::I128(s) => match s.checked_add(x) {
                        Some(t) => t,
                        None => {
                            return Err(Error::new(Code::ValueOutOfRange));
                        },
                    },
                    _ => x,
                };
                self.acc = Value::I128(s);
            },
            AggOp::SumF64 | AggOp::AvgF64 => {
                let x: u64 = match v {
                    Value::F64(x) => *x,
                    _ => {
                        return Err(Error::new(Code::TypeMismatch));
                    },
                };
                let t: (u64, u64) = match &self.acc {
                    Value::F64(s) => neumaier_add(*s, self.comp, x),
                    _ => (x, F_ZERO),
                };
                self.acc = Value::F64(t.0);
                self.comp = t.1;
            },
            AggOp::Min | AggOp::Max => {
                if !v.fits(rule.ty.phys()) {
                    return Err(Error::new(Code::Internal));
                }
                let wins: bool = if self.acc.is_null() {
                    true
                } else {
                    let o = order_values(v, &self.acc, rule.ty);
                    if rule.op == AggOp::Min {
                        o == Order::Less
                    } else {
                        o == Order::Greater
                    }
                };
                if wins {
                    self.acc = v.dup();
                }
            },
            AggOp::StdDev | AggOp::Variance => {
                let x: u64 = match scale_double(v, rule.div) {
                    Some(x) => x,
                    None => {
                        return Err(Error::new(Code::TypeMismatch));
                    },
                };
                let delta: u64 = minus(x, self.mean);
                let mean: u64 = plus(self.mean, over(delta, from_int(n as i128)));
                self.m2 = plus(self.m2, crate::float::times(delta, minus(x, mean)));
                self.mean = mean;
            },
            AggOp::Median => {
                let x: u64 = match scale_double(v, rule.div) {
                    Some(x) => x,
                    None => {
                        return Err(Error::new(Code::TypeMismatch));
                    },
                };
                if self.doubles.len() >= u32::MAX as usize {
                    return Err(Error::new(Code::LimitExceeded));
                }
                self.doubles.push(x);
            },
            AggOp::Mode => {
                if !v.fits(rule.ty.phys()) {
                    return Err(Error::new(Code::Internal));
                }
                if times + 1 > self.best || (times + 1 == self.best && first < self.lead) {
                    self.best = times + 1;
                    self.lead = first;
                    self.acc = v.dup();
                }
            },
            AggOp::StringAgg => {
                let more: &Vec<u8> = match v {
                    Value::Bytes(b) => b,
                    _ => {
                        return Err(Error::new(Code::TypeMismatch));
                    },
                };
                let mut text = self.take_text();
                if text.len() > 0 {
                    put_bytes(&mut text, rule.separator.as_slice());
                }
                put_bytes(&mut text, more.as_slice());
                proof {
                    let held = text_of(before.acc);
                    let sep = if held.len() > 0 {
                        rule.separator@
                    } else {
                        Seq::empty()
                    };
                    assert(text@ =~= held + sep + more@);
                }
                self.acc = Value::Bytes(text);
            },
            AggOp::ArrayAgg => {
                let mut text = self.take_text();
                if text.len() == 0 {
                    text.push(91);
                } else {
                    text.push(44);
                    text.push(32);
                }
                proof {
                    let held = text_of(before.acc);
                    assert(text@ =~= if held.len() == 0 {
                        seq![91u8]
                    } else {
                        held + seq![44u8, 32u8]
                    });
                }
                push_json_scalar(&mut text, v, rule.ty);
                self.acc = Value::Bytes(text);
            },
        }
        self.n = n;
        proof {
            let st = agg_step(rule@, seen, before, v@)->Ok_0;
            assert(self@ =~= st);
        }
        Ok(())
    }

    /// The aggregate's value.
    pub fn result(&self, rule: &AggRule) -> (r: Value)
        requires
            rule.wf(),
            acc_fits(rule@, self.acc@),
            self.doubles@.len() <= u32::MAX,
        ensures
            r@ == agg_result(rule@, self@),
            r@.fits(rule.out_ty.phys()),
    {
        match rule.op {
            AggOp::CountStar | AggOp::Count => Value::I64(self.n),
            AggOp::SumInt | AggOp::Min | AggOp::Max | AggOp::StringAgg | AggOp::Mode => self.acc.dup(),
            AggOp::SumF64 => match &self.acc {
                Value::F64(s) => Value::F64(compensated(*s, self.comp)),
                _ => Value::Null,
            },
            AggOp::AvgInt => match &self.acc {
                Value::I128(s) => Value::F64(over(over(from_int(*s), rule.div), from_int(self.n as i128))),
                _ => Value::Null,
            },
            AggOp::AvgF64 => match &self.acc {
                Value::F64(s) => Value::F64(over(compensated(*s, self.comp), from_int(self.n as i128))),
                _ => Value::Null,
            },
            AggOp::StdDev | AggOp::Variance => {
                if self.n < 2 {
                    return Value::Null;
                }
                let q: u64 = over(self.m2, minus(from_int(self.n as i128), F_ONE));
                let var: u64 = if less(F_ZERO, q) {
                    q
                } else {
                    F_ZERO
                };
                if rule.op == AggOp::StdDev {
                    Value::F64(sqrt(var))
                } else {
                    Value::F64(var)
                }
            },
            AggOp::Median => median(&self.doubles),
            AggOp::ArrayAgg => match &self.acc {
                Value::Bytes(b) => {
                    let mut t = copy_bytes(b.as_slice());
                    t.push(93);
                    Value::Bytes(t)
                },
                _ => Value::Null,
            },
        }
    }
}

// --- One aggregate in all groups --------------------------------------------------------------

/// The key of a value in a group: one table serves all groups.
pub open spec fn tagged(g: u32, key: Seq<u8>) -> Seq<u8> {
    spec_u32_to_le_bytes(g) + key
}

/// Values in different groups, and different values in a group, have different keys.
pub proof fn tagged_keys_are_apart(g: u32, a: Seq<u8>, h: u32, b: Seq<u8>)
    requires
        tagged(g, a) == tagged(h, b),
    ensures
        g == h,
        a == b,
{
    vstd::bytes::lemma_auto_spec_u32_to_from_le_bytes();
    let x = tagged(g, a);
    let y = tagged(h, b);
    assert(x.take(4) =~= spec_u32_to_le_bytes(g));
    assert(y.take(4) =~= spec_u32_to_le_bytes(h));
    assert(x.skip(4) =~= a);
    assert(y.skip(4) =~= b);
}

/// The values fed in a group.
pub open spec fn fed_in(fed: Seq<Seq<Val>>, g: u32) -> Seq<Val> {
    if g < fed.len() {
        fed[g as int]
    } else {
        Seq::empty()
    }
}

/// The count kept for a key.
pub open spec fn count_for(e: Seq<(Seq<u8>, u32)>, counts: Seq<u64>, key: Seq<u8>) -> int {
    if has_key(e, key) {
        counts[e[entry_of(e, key)].1 as int] as int
    } else {
        0
    }
}

/// The place kept for a key, or another number.
pub open spec fn first_for(e: Seq<(Seq<u8>, u32)>, firsts: Seq<u64>, key: Seq<u8>, none: int) -> int {
    if has_key(e, key) {
        firsts[e[entry_of(e, key)].1 as int] as int
    } else {
        none
    }
}

/// An aggregate's states.
pub struct AggColumn {
    pub rule: AggRule,
    pub states: Vec<State>,
    /// How often each value has been fed, where values are told apart: by DISTINCT, or to
    /// find the most frequent one.
    pub table: HashIndex,
    pub counts: Vec<u64>,
    /// Where in its group each of these values was fed first.
    pub firsts: Vec<u64>,
    /// The estimated bytes of what grows with the values fed.
    pub bytes: u64,
    /// The values fed in each group.
    pub fed: Ghost<Seq<Seq<Val>>>,
}

impl AggColumn {
    /// Whether the values fed are told apart.
    pub open spec fn tells_apart(&self) -> bool {
        self.rule.dedup || self.rule.op == AggOp::Mode
    }

    pub open spec fn wf(&self) -> bool {
        &&& self.rule.wf()
        &&& self.states@.len() == self.fed@.len()
        &&& self.states@.len() <= max_keys()
        &&& self.bytes <= held_total(self.states@, self.fed@)
        &&& self.table@.len() <= fed_total(self.fed@)
        &&& self.table.wf()
        &&& self.counts@.len() == self.table@.len()
        &&& self.firsts@.len() == self.table@.len()
        &&& forall|i: int| 0 <= i < self.counts@.len() ==> #[trigger] self.counts@[i] > 0
        &&& forall|i: int| 0 <= i < self.table@.len() ==> (#[trigger] self.table@[i]).1 == i
        &&& forall|g: int|
            0 <= g < self.states@.len() ==> {
                &&& agg_state(self.rule@, self.fed@[g]) == Ok::<StateV, Code>((#[trigger] self.states@[g])@)
                &&& acc_fits(self.rule@, self.states@[g].acc@)
                &&& self.states@[g].doubles@.len() <= u32::MAX
            }
        &&& self.tells_apart() ==> forall|g: u32, key: Seq<u8>| #[trigger]
            occurrences(self.rule.ty, fed_in(self.fed@, g), key) == count_for(self.table@, self.counts@, tagged(g, key))
        &&& self.tells_apart() ==> forall|g: u32, key: Seq<u8>| #[trigger]
            first_at(self.rule.ty, fed_in(self.fed@, g), key) == first_for(
                self.table@,
                self.firsts@,
                tagged(g, key),
                fed_in(self.fed@, g).len() as int,
            )
    }

    pub fn new(a: &Agg) -> (r: Result<AggColumn, Error>)
        ensures
            match r {
                Ok(c) => {
                    &&& c.wf()
                    &&& rule_of(a@) == Some(c.rule@)
                    &&& aggregate_ty(a.kind, a@.input_ty()) == Some(c.rule.out_ty)
                    &&& c.fed@.len() == 0
                    &&& c.bytes == 0
                    &&& c.table@.len() == 0
                },
                Err(e) => if aggregate_ty(a.kind, a@.input_ty()) is None {
                    e.code == Code::TypeMismatch
                } else {
                    rule_of(a@) is None && e.code == Code::UnsupportedFeature
                },
            },
    {
        match AggRule::new(a) {
            Err(e) => Err(e),
            Ok(rule) => {
                let c = AggColumn {
                    rule,
                    states: Vec::new(),
                    table: HashIndex::new(),
                    counts: Vec::new(),
                    firsts: Vec::new(),
                    bytes: 0,
                    fed: Ghost(Seq::empty()),
                };
                Ok(c)
            },
        }
    }

    /// Opens a group.
    pub fn add_group(&mut self)
        requires
            old(self).wf(),
            old(self).states@.len() < max_keys(),
        ensures
            final(self).wf(),
            final(self).rule == old(self).rule,
            final(self).fed@ == old(self).fed@.push(Seq::empty()),
            final(self).bytes == old(self).bytes,
            final(self).table@ == old(self).table@,
    {
        self.states.push(State::empty());
        proof {
            let before = self.fed@;
            self.fed@ = before.push(Seq::empty());
            assert(self.states@.drop_last() =~= old(self).states@);
            assert(self.fed@.drop_last() =~= before);
            assert forall|g: u32| fed_in(self.fed@, g) == #[trigger] fed_in(before, g) by {}
            if self.tells_apart() {
                assert forall|g: u32, key: Seq<u8>| #[trigger]
                    occurrences(self.rule.ty, fed_in(self.fed@, g), key) == count_for(
                    self.table@,
                    self.counts@,
                    tagged(g, key),
                ) by {
                    assert(fed_in(self.fed@, g) == fed_in(before, g));
                    assert(occurrences(self.rule.ty, fed_in(before, g), key) == count_for(
                        old(self).table@,
                        old(self).counts@,
                        tagged(g, key),
                    ));
                }
                assert forall|g: u32, key: Seq<u8>| #[trigger]
                    first_at(self.rule.ty, fed_in(self.fed@, g), key) == first_for(
                    self.table@,
                    self.firsts@,
                    tagged(g, key),
                    fed_in(self.fed@, g).len() as int,
                ) by {
                    assert(fed_in(self.fed@, g) == fed_in(before, g));
                    assert(first_at(self.rule.ty, fed_in(before, g), key) == first_for(
                        old(self).table@,
                        old(self).firsts@,
                        tagged(g, key),
                        fed_in(before, g).len() as int,
                    ));
                }
            }
            assert forall|g: int| 0 <= g < self.states@.len() implies {
                &&& agg_state(self.rule@, self.fed@[g]) == Ok::<StateV, Code>((#[trigger] self.states@[g])@)
                &&& acc_fits(self.rule@, self.states@[g].acc@)
                &&& self.states@[g].doubles@.len() <= u32::MAX
            } by {
                if g < before.len() {
                    assert(old(self).states@[g] == self.states@[g]);
                }
            }
        }
    }

    /// How often a value has been fed in a group, and where first; `none` if it has not.
    fn times_fed(&self, g: u32, v: &Value, none: u64) -> (r: (u64, u64, Vec<u8>))
        requires
            self.wf(),
            self.tells_apart(),
        ensures
            r.0 == occurrences(self.rule.ty, fed_in(self.fed@, g), cell_key(v@, self.rule.ty)),
            r.1 == first_for(self.table@, self.firsts@, tagged(g, cell_key(v@, self.rule.ty)), none as int),
            r.2@ == tagged(g, cell_key(v@, self.rule.ty)),
    {
        let mut key: Vec<u8> = Vec::new();
        put_bytes(&mut key, u32_to_le_bytes(g).as_slice());
        encode_cell(v, self.rule.ty, &mut key);
        assert(key@ =~= tagged(g, cell_key(v@, self.rule.ty)));
        let t: (u64, u64) = match self.table.lookup(key.as_slice()) {
            Some(i) => {
                assert(self.table@[entry_of(self.table@, key@)].1 == entry_of(self.table@, key@));
                (self.counts[i as usize], self.firsts[i as usize])
            },
            None => (0, none),
        };
        (t.0, t.1, key)
    }

    /// Counts a value that has been fed.
    fn note_fed(&mut self, key: &Vec<u8>, place: u64)
        requires
            old(self).table.wf(),
            old(self).table@.len() < max_keys(),
            old(self).counts@.len() == old(self).table@.len(),
            old(self).firsts@.len() == old(self).table@.len(),
            forall|i: int| 0 <= i < old(self).counts@.len() ==> #[trigger] old(self).counts@[i] > 0,
            forall|i: int| 0 <= i < old(self).table@.len() ==> (#[trigger] old(self).table@[i]).1 == i,
            count_for(old(self).table@, old(self).counts@, key@) < u64::MAX,
        ensures
            final(self).rule == old(self).rule,
            final(self).states == old(self).states,
            final(self).fed == old(self).fed,
            final(self).bytes == old(self).bytes,
            final(self).table.wf(),
            final(self).table@.len() <= old(self).table@.len() + 1,
            final(self).counts@.len() == final(self).table@.len(),
            final(self).firsts@.len() == final(self).table@.len(),
            forall|i: int| 0 <= i < final(self).counts@.len() ==> #[trigger] final(self).counts@[i] > 0,
            forall|k: Seq<u8>, none: int| #[trigger]
                first_for(final(self).table@, final(self).firsts@, k, none) == first_for(
                    old(self).table@,
                    old(self).firsts@,
                    k,
                    if k == key@ {
                        place as int
                    } else {
                        none
                    },
                ),
            forall|i: int| 0 <= i < final(self).table@.len() ==> (#[trigger] final(self).table@[i]).1 == i,
            forall|k: Seq<u8>| #[trigger]
                count_for(final(self).table@, final(self).counts@, k) == count_for(old(self).table@, old(self).counts@, k)
                    + if k == key@ {
                    1int
                } else {
                    0
                },
    {
        let ghost e0 = self.table@;
        let ghost c0 = self.counts@;
        let ghost f0 = self.firsts@;
        let (slot, fresh) = self.table.get_or_insert(key.as_slice());
        if fresh {
            self.counts.push(1);
            self.firsts.push(place);
            proof {
                keys_are_distinct(old(self).table);
                assert forall|k: Seq<u8>, none: int| #[trigger]
                    first_for(self.table@, self.firsts@, k, none) == first_for(
                    e0,
                    f0,
                    k,
                    if k == key@ {
                        place as int
                    } else {
                        none
                    },
                ) by {
                    if k != key@ {
                        inserting_keeps_other_keys(e0, key@, slot, k);
                        if has_key(e0, k) {
                            assert(e0[entry_of(e0, k)].1 == entry_of(e0, k));
                        }
                    } else {
                        assert(self.table@[e0.len() as int].0 == key@);
                        let i = entry_of(self.table@, key@);
                        assert(self.table@[i].0 == key@);
                        assert(i == e0.len()) by {
                            if i < e0.len() {
                                assert(e0[i].0 == key@);
                            }
                        }
                    }
                }
                assert forall|k: Seq<u8>| #[trigger]
                    count_for(self.table@, self.counts@, k) == count_for(e0, c0, k) + if k == key@ {
                    1int
                } else {
                    0
                } by {
                    if k != key@ {
                        inserting_keeps_other_keys(e0, key@, slot, k);
                        if has_key(e0, k) {
                            assert(e0[entry_of(e0, k)].1 == entry_of(e0, k));
                        }
                    } else {
                        assert(self.table@[e0.len() as int].0 == key@);
                        let i = entry_of(self.table@, key@);
                        assert(self.table@[i].0 == key@);
                        assert(i == e0.len()) by {
                            if i < e0.len() {
                                assert(e0[i].0 == key@);
                            }
                        }
                    }
                }
            }
        } else {
            let at: usize = slot as usize;
            assert(e0[entry_of(e0, key@)].1 == entry_of(e0, key@));
            let n: u64 = self.counts[at];
            self.counts.set(at, n + 1);
            proof {
                keys_are_distinct(self.table);
                assert forall|k: Seq<u8>| #[trigger]
                    count_for(self.table@, self.counts@, k) == count_for(e0, c0, k) + if k == key@ {
                    1int
                } else {
                    0
                } by {
                    if k != key@ && has_key(e0, k) {
                        assert(e0[entry_of(e0, k)].1 == entry_of(e0, k));
                        assert(e0[entry_of(e0, k)].0 == k);
                        assert(e0[entry_of(e0, key@)].0 == key@);
                    }
                }
            }
        }
    }

    /// Feeds the value of a row that has passed the filter to a group.
    pub fn feed(&mut self, g: u32, v: &Value) -> (r: Result<(), Error>)
        requires
            old(self).wf(),
            g < old(self).states@.len(),
        ensures
            final(self).wf(),
            final(self).rule == old(self).rule,
            ({
                let vals = old(self).fed@[g as int];
                let next = fed_next(old(self).rule@, vals, v@);
                match r {
                    Ok(_) => {
                        &&& final(self).fed@ == old(self).fed@.update(g as int, next)
                        &&& final(self).bytes == bytes_after(
                            old(self).rule@,
                            old(self).bytes as int,
                            vals,
                            v@,
                            old(self).states@[g as int].acc@,
                            final(self).states@[g as int].acc@,
                        )
                    },
                    Err(e) => {
                        &&& final(self).fed == old(self).fed
                        &&& final(self).bytes == old(self).bytes
                        &&& {
                            ||| agg_state(old(self).rule@, next) == Err::<StateV, Code>(e.code)
                            ||| e.code == Code::LimitExceeded && old(self).table@.len() >= max_keys()
                        }
                    },
                }
            }),
    {
        let ghost vals = self.fed@[g as int];
        let ghost next = fed_next(self.rule@, vals, v@);
        let at: usize = g as usize;
        assert(agg_state(self.rule@, vals) == Ok::<StateV, Code>(self.states@[at as int]@));
        assert(fed_in(self.fed@, g) == vals);
        let op: AggOp = self.rule.op;
        if v.is_null() && op != AggOp::CountStar && op != AggOp::ArrayAgg {
            assert(self.fed@.update(g as int, next) =~= self.fed@);
            return Ok(());
        }
        let apart: bool = self.rule.dedup || op == AggOp::Mode;
        let mut times: u64 = 0;
        let mut first: u64 = 0;
        let place: u64 = if self.states[at].n >= 0 {
            self.states[at].n as u64
        } else {
            0
        };
        let mut key: Vec<u8> = Vec::new();
        if apart {
            if self.table.len() >= max_keys() {
                return Err(Error::new(Code::LimitExceeded));
            }
            let t = self.times_fed(g, v, place);
            times = t.0;
            first = t.1;
            key = t.2;
            proof {
                lemma_occurrences_positive(self.rule.ty, vals, cell_key(v@, self.rule.ty));
                lemma_counted(self.rule@, vals);
                assert(place == vals.len());
                assert(first == first_at(self.rule.ty, fed_in(self.fed@, g), cell_key(v@, self.rule.ty)));
            }
            if self.rule.dedup && times > 0 {
                assert(self.fed@.update(g as int, next) =~= self.fed@);
                return Ok(());
            }
        }
        assert(next == vals.push(v@) && next.len() != vals.len());
        assert(next.drop_last() =~= vals);
        let ghost states0 = self.states@;
        let before: u64 = payload_of(&self.states[at].acc);
        let done = self.states[at].update(&self.rule, v, times, first, Ghost(vals));
        match done {
            Err(e) => {
                proof {
                    assert(self.states@ =~= states0);
                    assert(agg_state(self.rule@, next) == Err::<StateV, Code>(e.code));
                }
                return Err(e);
            },
            Ok(()) => {},
        }
        let after: u64 = payload_of(&self.states[at].acc);
        let mut more: u64 = if op == AggOp::Median {
            8
        } else {
            0
        };
        if apart {
            self.note_fed(&key, place);
            if times == 0 && op == AggOp::Mode {
                more = 8;
            }
        }
        self.bytes = self.bytes.saturating_sub(before).saturating_add(after).saturating_add(more);
        proof {
            self.fed@ = self.fed@.update(g as int, next);
            let fed1 = self.fed@;
            let fed0 = old(self).fed@;
            lemma_totals(old(self).states@, fed0, self.states@, fed1, g as int);
            assert forall|h: int| 0 <= h < self.states@.len() implies {
                &&& agg_state(self.rule@, fed1[h]) == Ok::<StateV, Code>((#[trigger] self.states@[h])@)
                &&& acc_fits(self.rule@, self.states@[h].acc@)
                &&& self.states@[h].doubles@.len() <= u32::MAX
            } by {
                assert(old(self).states@[h]@ == states0[h]@);
                if h != g {
                    assert(self.states@[h] == states0[h]);
                    assert(fed1[h] == fed0[h]);
                }
            }
            if apart {
                assert forall|h: u32, k: Seq<u8>| #[trigger]
                    occurrences(self.rule.ty, fed_in(fed1, h), k) == count_for(self.table@, self.counts@, tagged(h, k)) by {
                    assert(occurrences(self.rule.ty, fed_in(fed0, h), k) == count_for(
                        old(self).table@,
                        old(self).counts@,
                        tagged(h, k),
                    ));
                    if h == g {
                        assert(fed_in(fed1, h) == next);
                        if k == cell_key(v@, self.rule.ty) {
                            assert(tagged(h, k) == key@);
                        } else {
                            if tagged(h, k) == key@ {
                                tagged_keys_are_apart(h, k, g, cell_key(v@, self.rule.ty));
                            }
                        }
                    } else {
                        assert(fed_in(fed1, h) == fed_in(fed0, h));
                        if tagged(h, k) == key@ {
                            tagged_keys_are_apart(h, k, g, cell_key(v@, self.rule.ty));
                        }
                    }
                }
                assert forall|h: u32, k: Seq<u8>| #[trigger]
                    first_at(self.rule.ty, fed_in(fed1, h), k) == first_for(
                    self.table@,
                    self.firsts@,
                    tagged(h, k),
                    fed_in(fed1, h).len() as int,
                ) by {
                    let was = fed_in(fed0, h);
                    assert(first_at(self.rule.ty, was, k) == first_for(
                        old(self).table@,
                        old(self).firsts@,
                        tagged(h, k),
                        was.len() as int,
                    ));
                    assert(occurrences(self.rule.ty, was, k) == count_for(
                        old(self).table@,
                        old(self).counts@,
                        tagged(h, k),
                    ));
                    lemma_first_at(self.rule.ty, was, k);
                    if has_key(old(self).table@, tagged(h, k)) {
                        let i = entry_of(old(self).table@, tagged(h, k));
                        assert(old(self).table@[i].1 == i);
                        assert(old(self).counts@[i] > 0);
                    }
                    if tagged(h, k) == key@ {
                        tagged_keys_are_apart(h, k, g, cell_key(v@, self.rule.ty));
                    }
                    if h == g {
                        assert(fed_in(fed1, h) == next);
                        assert(next.drop_last() =~= was);
                        if k == cell_key(v@, self.rule.ty) {
                            assert(tagged(h, k) == key@);
                        }
                    } else {
                        assert(fed_in(fed1, h) == was);
                    }
                }
            }
        }
        Ok(())
    }
}

/// The bytes of what groups hold, with eight for each value fed.
pub open spec fn held_total(states: Seq<State>, fed: Seq<Seq<Val>>) -> int
    decreases states.len(),
{
    if states.len() == 0 {
        0
    } else {
        held_total(states.drop_last(), fed.drop_last()) + payload(states.last().acc@) + 8 * fed.last().len()
    }
}

/// How many values have been fed.
pub open spec fn fed_total(fed: Seq<Seq<Val>>) -> int
    decreases fed.len(),
{
    if fed.len() == 0 {
        0
    } else {
        fed_total(fed.drop_last()) + fed.last().len()
    }
}

/// One more value changes what its group holds, and nothing else.
proof fn lemma_totals(s0: Seq<State>, f0: Seq<Seq<Val>>, s1: Seq<State>, f1: Seq<Seq<Val>>, g: int)
    requires
        s0.len() == f0.len() == s1.len() == f1.len(),
        0 <= g < s0.len(),
        forall|h: int| 0 <= h < s0.len() && h != g ==> s1[h] == #[trigger] s0[h] && f1[h] == f0[h],
        f1[g].len() == f0[g].len() + 1,
    ensures
        held_total(s1, f1) == held_total(s0, f0) - payload(s0[g].acc@) + payload(s1[g].acc@) + 8,
        held_total(s0, f0) >= payload(s0[g].acc@),
        fed_total(f1) == fed_total(f0) + 1,
    decreases s0.len(),
{
    let n = s0.len() - 1;
    lemma_totals_positive(s0.drop_last(), f0.drop_last());
    if g == n {
        assert(s1.drop_last() =~= s0.drop_last()) by {
            assert forall|h: int| 0 <= h < n implies s1.drop_last()[h] == s0.drop_last()[h] by {
                assert(s1[h] == s0[h]);
            }
        }
        assert(f1.drop_last() =~= f0.drop_last()) by {
            assert forall|h: int| 0 <= h < n implies f1.drop_last()[h] == f0.drop_last()[h] by {
                assert(s1[h] == s0[h]);
            }
        }
    } else {
        assert forall|h: int| 0 <= h < n && h != g implies s1.drop_last()[h] == #[trigger] s0.drop_last()[h]
            && f1.drop_last()[h] == f0.drop_last()[h] by {
            assert(s1[h] == s0[h]);
        }
        lemma_totals(s0.drop_last(), f0.drop_last(), s1.drop_last(), f1.drop_last(), g);
        assert(s1[n] == s0[n]);
    }
}

proof fn lemma_totals_positive(s: Seq<State>, f: Seq<Seq<Val>>)
    requires
        s.len() == f.len(),
    ensures
        held_total(s, f) >= 0,
        fed_total(f) >= 0,
    decreases s.len(),
{
    if s.len() > 0 {
        lemma_totals_positive(s.drop_last(), f.drop_last());
    }
}

/// The estimated bytes after a value was fed, or was not.
pub open spec fn bytes_after(r: RuleV, held: int, vals: Seq<Val>, v: Val, before: Val, after: Val) -> int {
    if fed_next(r, vals, v) == vals {
        held
    } else {
        let rest = if held >= payload(before) {
            held - payload(before)
        } else {
            0
        };
        let more = if r.op == AggOp::Median || (r.op == AggOp::Mode && !fed_already(r.ty, vals, cell_key(v, r.ty))) {
            8int
        } else {
            0
        };
        crate::vector::sat64(crate::vector::sat64(rest + payload(after)) + more)
    }
}

/// A state counts the values fed.
proof fn lemma_counted(r: RuleV, vals: Seq<Val>)
    ensures
        agg_state(r, vals) matches Ok(st) ==> st.n == vals.len() && st.n <= i64::MAX,
    decreases vals.len(),
{
    if vals.len() > 0 {
        lemma_counted(r, vals.drop_last());
        reveal(agg_step);
    }
}

} // verus!
