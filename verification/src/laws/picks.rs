//! Aggregates over the frame of a row that pick one of its values.

use crate::error::Code;
use crate::exec::accum::{agg_state, agg_step, rule_of, AggOp, RuleV};
use crate::exec::window::{acc_add, acc_over, partition_of, replaces, window_value};
use crate::exec::rowkey::f_pow10;
use crate::exec::total::{divisor, scaled_double};
use crate::expr::ColV;
use crate::float::{f_finite, f_of_int, f_product, f_scaled, F_ONE};
use crate::laws::aggregates::{aggregated, places};
use crate::laws::frames::{
    framed, in_frame, lemma_frame_rows, lemma_frame_total, lemma_take_step, lemma_tally_bound, lemma_window_agg,
};
use crate::laws::rounding::{
    exact_products_are_kept, exact_quotients_are_kept, lemma_one, short_numbers_are_exact, unit,
};
use crate::laws::windows::{
    frame_size, lemma_at_place, lemma_frame, lemma_place, lemma_settled, lemma_size, one, place, rows_fit, sum_in,
};
use crate::order::{f64_magnitude, Order};
use crate::plan::{AggKind, AggV, WindowKind, WindowV};
use crate::vector::{val_order, val_order_flips, val_order_is_transitive, PhysType, Ty, Val};
use vstd::prelude::*;

verus! {

/// The cell of the row at a position of a partition.
spec fn cell(col: ColV, part: Seq<u32>, j: int) -> Val {
    col.cells[part[j] as int]
}

/// Whether a value is beyond another: below it for `MIN`, above it for `MAX`.
pub open spec fn beyond(kind: AggKind, ty: Ty, a: Val, b: Val) -> bool {
    val_order(a, b, ty) == if kind is Min {
        Order::Less
    } else {
        Order::Greater
    }
}

proof fn lemma_not_beyond(kind: AggKind, ty: Ty, a: Val, v: Val, old: Val)
    requires
        kind is Min || kind is Max,
        a.phys() is Some,
        a.phys() == v.phys(),
        v.phys() == old.phys(),
        beyond(kind, ty, v, old),
        !beyond(kind, ty, a, old),
    ensures
        !beyond(kind, ty, a, v),
{
    val_order_flips(a, v, ty);
    val_order_flips(a, old, ty);
    val_order_flips(v, old, ty);
    if beyond(kind, ty, a, v) {
        if kind is Min {
            val_order_is_transitive(a, v, old, ty);
        } else {
            val_order_is_transitive(old, v, a, ty);
        }
    }
}

proof fn lemma_extreme(kind: AggKind, col: ColV, part: Seq<u32>, k: int)
    requires
        0 <= k <= part.len(),
        kind is Min || kind is Max,
        forall|j: int| 0 <= j < part.len() ==> (#[trigger] cell(col, part, j)).fits(col.ty.phys()),
    ensures
        acc_over(kind, Some(col), part, k) matches Ok(st) && (if st.acc is Null {
            forall|j: int| 0 <= j < k ==> (#[trigger] cell(col, part, j)) is Null
        } else {
            &&& exists|j: int| 0 <= j < k && #[trigger] cell(col, part, j) == st.acc
            &&& forall|j: int|
                0 <= j < k && !((#[trigger] cell(col, part, j)) is Null) ==> !beyond(kind, col.ty, cell(col, part, j), st.acc)
        }),
    decreases k,
{
    reveal(acc_add);
    if k > 0 {
        lemma_extreme(kind, col, part, k - 1);
        let v = cell(col, part, k - 1);
        let old = acc_over(kind, Some(col), part, k - 1)->Ok_0.acc;
        assert(v.fits(col.ty.phys()));
        val_order_flips(v, v, col.ty);
        if !(old is Null) {
            let i = choose|j: int| 0 <= j < k - 1 && #[trigger] cell(col, part, j) == old;
            assert(cell(col, part, i).fits(col.ty.phys()));
            if !(v is Null) && replaces(kind, col.ty, v, old) {
                assert forall|j: int| 0 <= j < k && !((#[trigger] cell(col, part, j)) is Null) implies !beyond(
                    kind,
                    col.ty,
                    cell(col, part, j),
                    v,
                ) by {
                    assert(cell(col, part, j).fits(col.ty.phys()));
                    if j < k - 1 {
                        lemma_not_beyond(kind, col.ty, cell(col, part, j), v, old);
                    }
                }
            }
        }
    }
}

/// Whether a value is that of a row of the frame.
pub open spec fn of_frame(w: WindowV, pcols: Seq<ColV>, kcols: Seq<ColV>, n: nat, r: int, col: ColV, v: Val) -> bool {
    exists|s: int| 0 <= s < n && #[trigger] in_frame(w, pcols, kcols, n, r, s) && col.cells[s] == v
}

/// A row of the frame stands at its place, in the beginning of the partition.
proof fn lemma_frame_place(w: WindowV, pcols: Seq<ColV>, kcols: Seq<ColV>, n: nat, r: int, s: int)
    requires
        rows_fit(w, kcols, n),
        0 <= r < n,
        0 <= s < n,
        in_frame(w, pcols, kcols, n, r, s),
    ensures
        0 <= place(w, pcols, kcols, n, s) < frame_size(w, pcols, kcols, n, r),
        partition_of(w, pcols, kcols, n, r)[place(w, pcols, kcols, n, s)] == s,
{
    lemma_at_place(w, pcols, kcols, n, r, s);
    lemma_frame_rows(w, pcols, kcols, n, r, place(w, pcols, kcols, n, s));
}

proof fn lemma_in_frame(w: WindowV, pcols: Seq<ColV>, kcols: Seq<ColV>, n: nat, r: int, j: int)
    requires
        rows_fit(w, kcols, n),
        0 <= r < n,
        0 <= j < frame_size(w, pcols, kcols, n, r),
    ensures
        frame_size(w, pcols, kcols, n, r) <= partition_of(w, pcols, kcols, n, r).len(),
        partition_of(w, pcols, kcols, n, r)[j] < n,
        in_frame(w, pcols, kcols, n, r, partition_of(w, pcols, kcols, n, r)[j] as int),
        place(w, pcols, kcols, n, partition_of(w, pcols, kcols, n, r)[j] as int) == j,
{
    lemma_frame(w, pcols, kcols, n, r);
    lemma_frame_rows(w, pcols, kcols, n, r, j);
    lemma_settled(w, pcols, kcols, n, r);
    let dom = |a: u32| a < n;
    assert(dom(partition_of(w, pcols, kcols, n, r)[j]));
    lemma_place(w, pcols, kcols, n, r, j);
}

/// `MIN` and `MAX` over a frame give the value of one of its rows, and no row of the frame has one
/// beyond it; where all are NULL, so is the value.
#[verifier::rlimit(60)]
pub proof fn frame_extremes_are_of_its_rows(
    w: WindowV,
    pcols: Seq<ColV>,
    kcols: Seq<ColV>,
    acols: Seq<ColV>,
    n: nat,
    r: int,
    t: int,
)
    requires
        rows_fit(w, kcols, n),
        0 <= r < n,
        w.args.len() == acols.len(),
        acols.len() > 0,
        w.kind == WindowKind::Agg(AggKind::Min) || w.kind == WindowKind::Agg(AggKind::Max),
        w.result_ty == acols[0].ty,
        forall|s: int| 0 <= s < n ==> (#[trigger] acols[0].cells[s]).fits(acols[0].ty.phys()),
        0 <= t < n,
        in_frame(w, pcols, kcols, n, r, t),
    ensures
        ({
            let v = window_value(w, pcols, kcols, acols, n, r);
            &&& v is Ok
            &&& v->Ok_0 is Null ==> acols[0].cells[t] is Null
            &&& !(v->Ok_0 is Null) ==> of_frame(w, pcols, kcols, n, r, acols[0], v->Ok_0)
            &&& !(v->Ok_0 is Null) && !(acols[0].cells[t] is Null) ==> !beyond(
                w.kind->Agg_0,
                acols[0].ty,
                acols[0].cells[t],
                v->Ok_0,
            )
        }),
{
    let kind = w.kind->Agg_0;
    let part = partition_of(w, pcols, kcols, n, r);
    let col = acols[0];
    let k = frame_size(w, pcols, kcols, n, r);
    lemma_window_agg(w, pcols, kcols, acols, n, r, kind);
    lemma_settled(w, pcols, kcols, n, r);
    lemma_frame(w, pcols, kcols, n, r);
    let dom = |a: u32| a < n;
    assert forall|j: int| 0 <= j < part.len() implies (#[trigger] cell(col, part, j)).fits(col.ty.phys()) by {
        assert(dom(part[j]));
    }
    lemma_frame_place(w, pcols, kcols, n, r, t);
    let p = place(w, pcols, kcols, n, t);
    assert(cell(col, part, p) == col.cells[t]);
    let j = lemma_extreme_at(kind, col, part, k, p);
    let st = acc_over(kind, Some(col), part, k)->Ok_0;
    if !(st.acc is Null) {
        lemma_in_frame(w, pcols, kcols, n, r, j);
        assert(in_frame(w, pcols, kcols, n, r, part[j] as int) && col.cells[part[j] as int] == st.acc);
    }
}

proof fn lemma_extreme_at(kind: AggKind, col: ColV, part: Seq<u32>, k: int, p: int) -> (j: int)
    requires
        0 <= p < k <= part.len(),
        kind is Min || kind is Max,
        forall|j: int| 0 <= j < part.len() ==> (#[trigger] cell(col, part, j)).fits(col.ty.phys()),
    ensures
        acc_over(kind, Some(col), part, k) matches Ok(st) && st.acc.fits(col.ty.phys()) && (if st.acc is Null {
            cell(col, part, p) is Null
        } else {
            &&& 0 <= j < k
            &&& cell(col, part, j) == st.acc
            &&& !(cell(col, part, p) is Null) ==> !beyond(kind, col.ty, cell(col, part, p), st.acc)
        }),
{
    lemma_extreme(kind, col, part, k);
    let st = acc_over(kind, Some(col), part, k)->Ok_0;
    assert(cell(col, part, p).fits(col.ty.phys()));
    if st.acc is Null {
        0
    } else {
        let j = choose|j: int| 0 <= j < k && #[trigger] cell(col, part, j) == st.acc;
        assert(cell(col, part, j).fits(col.ty.phys()));
        j
    }
}

proof fn lemma_picked(kind: AggKind, col: ColV, part: Seq<u32>, k: int)
    requires
        0 <= k <= part.len(),
        kind is AnyValue || kind is Last,
    ensures
        acc_over(kind, Some(col), part, k) matches Ok(st) && (if st.acc is Null {
            forall|j: int| 0 <= j < k ==> (#[trigger] cell(col, part, j)) is Null
        } else {
            exists|j: int|
                0 <= j < k && #[trigger] cell(col, part, j) == st.acc && forall|i: int|
                    (if kind is Last {
                        j < i < k
                    } else {
                        0 <= i < j
                    }) ==> (#[trigger] cell(col, part, i)) is Null
        }),
    decreases k,
{
    reveal(acc_add);
    if k > 0 {
        lemma_picked(kind, col, part, k - 1);
        let v = cell(col, part, k - 1);
        let old = acc_over(kind, Some(col), part, k - 1)->Ok_0.acc;
        let now = acc_over(kind, Some(col), part, k)->Ok_0.acc;
        if !(old is Null) && (v is Null || kind is AnyValue) {
            let j = choose|j: int|
                0 <= j < k - 1 && #[trigger] cell(col, part, j) == old && forall|i: int|
                    (if kind is Last {
                        j < i < k - 1
                    } else {
                        0 <= i < j
                    }) ==> (#[trigger] cell(col, part, i)) is Null;
            assert(cell(col, part, j) == now);
        } else if !(v is Null) {
            assert(cell(col, part, k - 1) == now);
        }
    }
}

/// `ANY_VALUE` over a frame gives the value of its first row that is not NULL, `LAST` that of its
/// last one, in the order of the partition.
#[verifier::rlimit(30)]
pub proof fn frames_give_their_first_and_last_values(
    w: WindowV,
    pcols: Seq<ColV>,
    kcols: Seq<ColV>,
    acols: Seq<ColV>,
    n: nat,
    r: int,
    s: int,
)
    requires
        rows_fit(w, kcols, n),
        0 <= r < n,
        w.args.len() == acols.len(),
        acols.len() > 0,
        w.kind == WindowKind::Agg(AggKind::AnyValue) || w.kind == WindowKind::Agg(AggKind::Last),
        w.result_ty == acols[0].ty,
        forall|s: int| 0 <= s < n ==> (#[trigger] acols[0].cells[s]).fits(acols[0].ty.phys()),
        0 <= s < n,
        in_frame(w, pcols, kcols, n, r, s),
        !(acols[0].cells[s] is Null),
        forall|t: int|
            0 <= t < n && #[trigger] in_frame(w, pcols, kcols, n, r, t) && (if w.kind->Agg_0 is Last {
                place(w, pcols, kcols, n, s) < place(w, pcols, kcols, n, t)
            } else {
                place(w, pcols, kcols, n, t) < place(w, pcols, kcols, n, s)
            }) ==> acols[0].cells[t] is Null,
    ensures
        window_value(w, pcols, kcols, acols, n, r) == Ok::<Val, Code>(acols[0].cells[s]),
{
    let kind = w.kind->Agg_0;
    let part = partition_of(w, pcols, kcols, n, r);
    let col = acols[0];
    let k = frame_size(w, pcols, kcols, n, r);
    lemma_window_agg(w, pcols, kcols, acols, n, r, kind);
    lemma_frame(w, pcols, kcols, n, r);
    lemma_picked(kind, col, part, k);
    lemma_frame_place(w, pcols, kcols, n, r, s);
    let p = place(w, pcols, kcols, n, s);
    assert(cell(col, part, p) == col.cells[s]);
    let st = acc_over(kind, Some(col), part, k)->Ok_0;
    assert(!(st.acc is Null));
    let j = choose|j: int|
        0 <= j < k && #[trigger] cell(col, part, j) == st.acc && forall|i: int|
            (if kind is Last {
                j < i < k
            } else {
                0 <= i < j
            }) ==> (#[trigger] cell(col, part, i)) is Null;
    lemma_in_frame(w, pcols, kcols, n, r, j);
    if j != p {
        assert(in_frame(w, pcols, kcols, n, r, part[j] as int));
        assert(!(cell(col, part, j) is Null));
        assert(!(cell(col, part, p) is Null));
        assert(false);
    }
}

proof fn lemma_hits(col: ColV, part: Seq<u32>, k: int, h: spec_fn(u32) -> int)
    requires
        0 <= k <= part.len(),
        k <= 0x1_0000_0000,
        forall|x: u32| #[trigger] h(x) == one(col.cells[x as int] == Val::Bool(true)),
    ensures
        0 <= sum_in(part.take(k), h) <= k,
        acc_over(AggKind::CountIf, Some(col), part, k) matches Ok(st) && (if st.acc is Null {
            sum_in(part.take(k), h) == 0
        } else {
            st.acc matches Val::I64(c) && c == sum_in(part.take(k), h)
        }),
    decreases k,
{
    reveal(acc_add);
    if k > 0 {
        lemma_hits(col, part, k - 1, h);
        lemma_take_step(part, k, h);
    } else {
        assert(part.take(0) =~= Seq::<u32>::empty());
    }
}

/// `COUNT_IF` over a frame is the number of its rows whose argument is true.
#[verifier::rlimit(30)]
pub proof fn frame_hits_are_of_its_rows(
    w: WindowV,
    pcols: Seq<ColV>,
    kcols: Seq<ColV>,
    acols: Seq<ColV>,
    n: nat,
    r: int,
)
    requires
        rows_fit(w, kcols, n),
        0 <= r < n,
        w.args.len() == acols.len(),
        acols.len() > 0,
        w.kind == WindowKind::Agg(AggKind::CountIf),
        w.result_ty is BigInt,
    ensures
        window_value(w, pcols, kcols, acols, n, r) == Ok::<Val, Code>(
            Val::I64(framed(w, pcols, kcols, n, r, |s: int| acols[0].cells[s] == Val::Bool(true)) as i64),
        ),
        0 <= framed(w, pcols, kcols, n, r, |s: int| acols[0].cells[s] == Val::Bool(true)) <= n,
{
    let kind = w.kind->Agg_0;
    let part = partition_of(w, pcols, kcols, n, r);
    let col = acols[0];
    let f = |s: int| acols[0].cells[s] == Val::Bool(true);
    let g = |s: int| one(f(s));
    let h = |x: u32| one(col.cells[x as int] == Val::Bool(true));
    lemma_window_agg(w, pcols, kcols, acols, n, r, kind);
    lemma_size(w, pcols, kcols, n, r);
    lemma_frame_total(w, pcols, kcols, n, r, g, h);
    lemma_hits(col, part, frame_size(w, pcols, kcols, n, r), h);
    let q = |s: int| in_frame(w, pcols, kcols, n, r, s) && f(s);
    let a = |s: int|
        if in_frame(w, pcols, kcols, n, r, s) {
            g(s)
        } else {
            0
        };
    let b = |s: int| one(q(s));
    crate::laws::windows::lemma_total_agrees(n as int, a, b);
    lemma_tally_bound(n as int, q);
}

// --- Frames and groups --------------------------------------------------------------------------------------

/// The values of the first rows of a partition that are not NULL, in the order of the partition.
pub open spec fn values_in(col: ColV, part: Seq<u32>, k: int) -> Seq<Val>
    decreases k,
{
    if k <= 0 {
        Seq::empty()
    } else if col.cells[part[k - 1] as int] is Null {
        values_in(col, part, k - 1)
    } else {
        values_in(col, part, k - 1).push(col.cells[part[k - 1] as int])
    }
}

proof fn lemma_same_totals(kind: AggKind, r: RuleV, col: ColV, part: Seq<u32>, k: int)
    requires
        0 <= k <= part.len(),
        k <= 0x1_0000_0000,
        kind is Sum || kind is Avg,
        r.op == AggOp::SumF64 || r.op == AggOp::AvgF64,
        forall|j: int| 0 <= j < part.len() ==> (#[trigger] cell(col, part, j)).fits(PhysType::F64),
    ensures
        acc_over(kind, Some(col), part, k) matches Ok(st) && (agg_state(r, values_in(col, part, k)) matches Ok(gr) && gr.n
            == st.n && gr.acc == st.acc && (st.n > 0 ==> gr.comp == st.comp && st.acc is F64) && (st.n == 0 ==> st.acc is Null)
            && 0 <= st.n <= k),
    decreases k,
{
    reveal(acc_add);
    reveal(agg_step);
    if k > 0 {
        lemma_same_totals(kind, r, col, part, k - 1);
        let v = cell(col, part, k - 1);
        assert(v.fits(PhysType::F64));
        let before = values_in(col, part, k - 1);
        assert(before.push(v).drop_last() =~= before);
    }
}

/// `SUM` and `AVG` of doubles over a frame are what they are of a group with the values of the
/// frame that are not NULL.
#[verifier::rlimit(30)]
pub proof fn frames_of_doubles_are_summed_like_groups(
    w: WindowV,
    pcols: Seq<ColV>,
    kcols: Seq<ColV>,
    acols: Seq<ColV>,
    n: nat,
    r: int,
    a: AggV,
)
    requires
        rows_fit(w, kcols, n),
        0 <= r < n,
        w.args.len() == acols.len(),
        acols.len() > 0,
        w.kind == WindowKind::Agg(a.kind),
        a.kind is Sum || a.kind is Avg,
        a.input_ty().phys() == PhysType::F64,
        w.result_ty is Double,
        forall|s: int| 0 <= s < n ==> (#[trigger] acols[0].cells[s]).fits(PhysType::F64),
    ensures
        window_value(w, pcols, kcols, acols, n, r) == aggregated(
            a,
            values_in(acols[0], partition_of(w, pcols, kcols, n, r), frame_size(w, pcols, kcols, n, r)),
        ),
{
    let part = partition_of(w, pcols, kcols, n, r);
    let col = acols[0];
    let k = frame_size(w, pcols, kcols, n, r);
    lemma_window_agg(w, pcols, kcols, acols, n, r, a.kind);
    lemma_settled(w, pcols, kcols, n, r);
    lemma_frame(w, pcols, kcols, n, r);
    lemma_size(w, pcols, kcols, n, r);
    let dom = |a: u32| a < n;
    assert forall|j: int| 0 <= j < part.len() implies (#[trigger] cell(col, part, j)).fits(PhysType::F64) by {
        assert(dom(part[j]));
    }
    lemma_same_totals(a.kind, rule_of(a)->0, col, part, k);
}

// --- Products --------------------------------------------------------------------------------------------------

/// The product of the numbers at the first rows of a partition, NULLs passed over.
pub open spec fn product_in(col: ColV, part: Seq<u32>, k: int) -> int
    decreases k,
{
    if k <= 0 {
        1
    } else if col.cells[part[k - 1] as int] is Null {
        product_in(col, part, k - 1)
    } else {
        product_in(col, part, k - 1) * col.cells[part[k - 1] as int].as_int()->0
    }
}

proof fn lemma_exact_product(a: u64, b: u64, x: int, y: int)
    requires
        f_finite(a),
        f_finite(b),
        f_scaled(a) == x * unit(),
        f_scaled(b) == y * unit(),
        -0x20_0000_0000_0000 < x * y < 0x20_0000_0000_0000,
    ensures
        f_finite(f_product(a, b)),
        f_scaled(f_product(a, b)) == (x * y) * unit(),
{
    let u = unit();
    short_numbers_are_exact(x * y);
    assert(u * ((x * y) * u) == (x * u) * (y * u)) by (nonlinear_arith);
    exact_products_are_kept(a, b, f_of_int(x * y));
}

proof fn lemma_as_double(v: Val)
    requires
        v.as_int() is Some,
        -0x20_0000_0000_0000 < v.as_int()->0 < 0x20_0000_0000_0000,
    ensures
        scaled_double(v, F_ONE) matches Some(x) && f_finite(x) && f_scaled(x) == v.as_int()->0 * unit(),
{
    let k = v.as_int()->0;
    let u = unit();
    short_numbers_are_exact(k);
    lemma_one();
    assert(f64_magnitude(F_ONE) != 0);
    assert(u * (k * u) == u * (k * u));
    exact_quotients_are_kept(f_of_int(k), F_ONE, f_of_int(k));
}

proof fn lemma_product(col: ColV, part: Seq<u32>, k: int)
    requires
        0 <= k <= part.len(),
        places(col.ty) == 0,
        forall|j: int|
            0 <= j < k ==> ((#[trigger] cell(col, part, j)) is Null || cell(col, part, j).as_int() is Some && -0x20_0000_0000_0000
                < cell(col, part, j).as_int()->0 < 0x20_0000_0000_0000),
        forall|j: int| 0 <= j <= k ==> -0x20_0000_0000_0000 < #[trigger] product_in(col, part, j) < 0x20_0000_0000_0000,
    ensures
        acc_over(AggKind::Product, Some(col), part, k) matches Ok(st) && (if st.acc is Null {
            product_in(col, part, k) == 1 && values_in(col, part, k).len() == 0
        } else {
            (st.acc matches Val::F64(p) && f_finite(p) && f_scaled(p) == product_in(col, part, k) * unit()) && values_in(
                col,
                part,
                k,
            ).len() > 0
        }),
    decreases k,
{
    reveal(acc_add);
    if k > 0 {
        lemma_product(col, part, k - 1);
        let v = cell(col, part, k - 1);
        let st = acc_over(AggKind::Product, Some(col), part, k - 1)->Ok_0;
        let before = product_in(col, part, k - 1);
        assert(-0x20_0000_0000_0000 < product_in(col, part, k) < 0x20_0000_0000_0000);
        assert(v is Null || v.as_int() is Some);
        assert(divisor(col.ty) == F_ONE) by {
            assert(f_pow10(0) == F_ONE);
        }
        if !(v is Null) {
            lemma_as_double(v);
            let y = v.as_int()->0;
            if let Val::F64(p) = st.acc {
                lemma_exact_product(p, scaled_double(v, F_ONE)->0, before, y);
            } else {
                assert(1 * y == y);
            }
        }
    }
}

/// `PRODUCT` over a frame of whole numbers is the exact product of its values, as long as the
/// products are below `2^53`; where all are NULL, so is the value.
#[verifier::rlimit(30)]
pub proof fn frame_products_are_of_its_rows(
    w: WindowV,
    pcols: Seq<ColV>,
    kcols: Seq<ColV>,
    acols: Seq<ColV>,
    n: nat,
    r: int,
)
    requires
        rows_fit(w, kcols, n),
        0 <= r < n,
        w.args.len() == acols.len(),
        acols.len() > 0,
        w.kind == WindowKind::Agg(AggKind::Product),
        w.result_ty is Double,
        places(acols[0].ty) == 0,
        forall|s: int|
            0 <= s < n ==> ((#[trigger] acols[0].cells[s]) is Null || acols[0].cells[s].as_int() is Some && -0x20_0000_0000_0000
                < acols[0].cells[s].as_int()->0 < 0x20_0000_0000_0000),
        forall|j: int|
            0 <= j <= frame_size(w, pcols, kcols, n, r) ==> -0x20_0000_0000_0000 < #[trigger] product_in(
                acols[0],
                partition_of(w, pcols, kcols, n, r),
                j,
            ) < 0x20_0000_0000_0000,
    ensures
        ({
            let part = partition_of(w, pcols, kcols, n, r);
            let k = frame_size(w, pcols, kcols, n, r);
            let v = window_value(w, pcols, kcols, acols, n, r);
            &&& values_in(acols[0], part, k).len() == 0 ==> v == Ok::<Val, Code>(Val::Null)
            &&& values_in(acols[0], part, k).len() > 0 ==> (v matches Ok(Val::F64(p)) && f_finite(p) && f_scaled(p)
                == product_in(acols[0], part, k) * unit())
        }),
{
    let part = partition_of(w, pcols, kcols, n, r);
    let col = acols[0];
    let k = frame_size(w, pcols, kcols, n, r);
    lemma_window_agg(w, pcols, kcols, acols, n, r, AggKind::Product);
    lemma_settled(w, pcols, kcols, n, r);
    lemma_frame(w, pcols, kcols, n, r);
    let dom = |a: u32| a < n;
    assert forall|j: int| 0 <= j < k implies ((#[trigger] cell(col, part, j)) is Null || cell(col, part, j).as_int() is Some
        && -0x20_0000_0000_0000 < cell(col, part, j).as_int()->0 < 0x20_0000_0000_0000) by {
        assert(dom(part[j]));
        assert(acols[0].cells[part[j] as int] is Null || acols[0].cells[part[j] as int].as_int() is Some);
    }
    lemma_product(col, part, k);
}

} // verus!
