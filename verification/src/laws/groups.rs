//! What aggregates give of the rows of a group.

use crate::error::Code;
use crate::exec::accum::{occurrences, first_at, rule_of, the_mode_is_the_first_of_the_most_frequent, AggOp, RuleV};
use crate::exec::agg::{fed_rows, fed_value};
use crate::exec::rowkey::cell_key;
use crate::expr::ColV;
use crate::laws::aggregates::{aggregated, counts_are_of_the_values_fed, sum_to, whole_sums_are_exact};
use crate::laws::windows::{one, tally, total};
use crate::plan::AggV;
use crate::vector::{PhysType, Val};
use vstd::prelude::*;

verus! {

/// Whether a row counts for an aggregate in the group with a key: it is in the group, the filter is
/// true of it, and its value is not NULL where NULLs do not count.
pub open spec fn counts(
    nulls: bool,
    arg: Option<ColV>,
    filter: Option<ColV>,
    keys: Seq<Seq<u8>>,
    key: Seq<u8>,
    j: int,
) -> bool {
    &&& keys[j] == key
    &&& filter matches Some(c) ==> c.ty is Boolean && c.cells[j] == Val::Bool(true)
    &&& nulls || (arg matches Some(c) && !(c.cells[j] is Null))
}

proof fn lemma_fed(
    r: RuleV,
    arg: Option<ColV>,
    filter: Option<ColV>,
    keys: Seq<Seq<u8>>,
    key: Seq<u8>,
    k: int,
)
    requires
        0 <= k <= keys.len(),
        !r.dedup,
        r.op == AggOp::CountStar || r.op == AggOp::Count || r.op == AggOp::SumInt,
    ensures
        ({
            let fed = fed_rows(r, arg, filter, keys, key, Seq::empty(), k);
            &&& fed.len() == tally(k, |j: int| counts(r.op == AggOp::CountStar, arg, filter, keys, key, j))
            &&& r.op != AggOp::CountStar ==> sum_to(fed, fed.len() as int) == total(
                k,
                |j: int|
                    if counts(false, arg, filter, keys, key, j) {
                        arg->0.cells[j].as_int()->0
                    } else {
                        0
                    },
            )
            &&& forall|i: int|
                0 <= i < fed.len() ==> r.op == AggOp::CountStar || exists|j: int|
                    0 <= j < k && #[trigger] counts(false, arg, filter, keys, key, j) && arg->0.cells[j] == #[trigger] fed[i]
        }),
    decreases k,
{
    let f = |j: int| counts(r.op == AggOp::CountStar, arg, filter, keys, key, j);
    let g = |j: int| one(f(j));
    let h = |j: int|
        if counts(false, arg, filter, keys, key, j) {
            arg->0.cells[j].as_int()->0
        } else {
            0
        };
    let fed = fed_rows(r, arg, filter, keys, key, Seq::empty(), k);
    if k > 0 {
        lemma_fed(r, arg, filter, keys, key, k - 1);
        assert(total(k, g) == total(k - 1, g) + g(k - 1));
        assert(total(k, h) == total(k - 1, h) + h(k - 1));
        let before = fed_rows(r, arg, filter, keys, key, Seq::empty(), k - 1);
        let v = fed_value(r, arg, k - 1);
        if f(k - 1) {
            assert(fed == before.push(v));
            crate::laws::aggregates::lemma_sum_front(fed, before.len() as int);
            assert(fed.drop_last() =~= before);
            let b = |i: int| fed[i].as_int()->0;
            let m = fed.len() as int;
            assert(total(m, b) == total(m - 1, b) + b(m - 1));
            assert forall|i: int| 0 <= i < fed.len() implies r.op == AggOp::CountStar || exists|j: int|
                0 <= j < k && #[trigger] counts(false, arg, filter, keys, key, j) && arg->0.cells[j] == #[trigger] fed[i] by {
                if r.op != AggOp::CountStar {
                    if i < before.len() {
                        assert(fed[i] == before[i]);
                    } else {
                        assert(counts(false, arg, filter, keys, key, k - 1) && arg->0.cells[k - 1] == fed[i]);
                    }
                }
            }
        } else {
            assert(fed == before);
        }
    } else {
        let b = |i: int| fed[i].as_int()->0;
        assert(total(0, b) == 0);
    }
}

/// `COUNT(*)` of a group is the number of its rows of which the filter is true, `COUNT` of a value
/// the number of those where the value is not NULL.
pub proof fn group_counts_are_of_its_rows(
    a: AggV,
    arg: Option<ColV>,
    filter: Option<ColV>,
    keys: Seq<Seq<u8>>,
    key: Seq<u8>,
)
    requires
        a.kind is CountStar || a.kind is Count,
        !a.distinct,
        keys.len() <= i64::MAX,
    ensures
        ({
            let n = keys.len() as int;
            let m = tally(n, |j: int| counts(a.kind is CountStar, arg, filter, keys, key, j));
            &&& aggregated(a, fed_rows(rule_of(a)->0, arg, filter, keys, key, Seq::empty(), n)) == Ok::<Val, Code>(
                Val::I64(m as i64),
            )
            &&& 0 <= m <= n
        }),
{
    let n = keys.len() as int;
    let r = rule_of(a)->0;
    lemma_fed(r, arg, filter, keys, key, n);
    let f = |j: int| counts(a.kind is CountStar, arg, filter, keys, key, j);
    crate::laws::frames::lemma_tally_bound(n, f);
    counts_are_of_the_values_fed(a, fed_rows(r, arg, filter, keys, key, Seq::empty(), n));
}

/// `SUM` of a group of whole numbers is the exact sum over its rows of which the filter is true.
pub proof fn group_sums_are_of_its_rows(
    a: AggV,
    arg: ColV,
    filter: Option<ColV>,
    keys: Seq<Seq<u8>>,
    key: Seq<u8>,
)
    requires
        a.kind is Sum,
        !a.distinct,
        a.input_ty().phys() != PhysType::F64,
    ensures
        ({
            let n = keys.len() as int;
            let m = tally(n, |j: int| counts(false, Some(arg), filter, keys, key, j));
            let t = total(
                n,
                |j: int|
                    if counts(false, Some(arg), filter, keys, key, j) {
                        arg.cells[j].as_int()->0
                    } else {
                        0
                    },
            );
            let v = aggregated(a, fed_rows(rule_of(a)->0, Some(arg), filter, keys, key, Seq::empty(), n));
            v is Ok ==> v->Ok_0 == if m == 0 {
                Val::Null
            } else {
                Val::I128(t as i128)
            } && (m > 0 ==> i128::MIN <= t <= i128::MAX)
        }),
{
    let n = keys.len() as int;
    let r = rule_of(a)->0;
    lemma_fed(r, Some(arg), filter, keys, key, n);
    let fed = fed_rows(r, Some(arg), filter, keys, key, Seq::empty(), n);
    whole_sums_are_exact(a, fed);
    let h1 = |j: int|
        if counts(false, Some(arg), filter, keys, key, j) {
            Some(arg)->0.cells[j].as_int()->0
        } else {
            0
        };
    let h2 = |j: int|
        if counts(false, Some(arg), filter, keys, key, j) {
            arg.cells[j].as_int()->0
        } else {
            0
        };
    crate::laws::windows::lemma_total_agrees(n, h1, h2);
}

/// `MODE` gives one of the values, and no value occurs more often.
pub proof fn the_mode_is_a_most_frequent_value(a: AggV, vals: Seq<Val>, v: Val)
    requires
        a.kind is Mode,
        aggregated(a, vals) is Ok,
        vals.len() > 0,
    ensures
        ({
            let m = aggregated(a, vals)->Ok_0;
            let ty = a.input_ty();
            &&& vals.contains(m)
            &&& occurrences(ty, vals, cell_key(v, ty)) <= occurrences(ty, vals, cell_key(m, ty))
            &&& occurrences(ty, vals, cell_key(v, ty)) == occurrences(ty, vals, cell_key(m, ty)) ==> first_at(
                ty,
                vals,
                cell_key(m, ty),
            ) <= first_at(ty, vals, cell_key(v, ty))
        }),
{
    the_mode_is_the_first_of_the_most_frequent(rule_of(a)->0, vals, cell_key(v, a.input_ty()));
}

} // verus!
