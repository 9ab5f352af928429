//! What aggregates give over the frame of a row.

use crate::error::Code;
use crate::exec::rowkey::f_pow10;
use crate::exec::total::divisor;
use crate::exec::window::{acc_add, acc_over, acc_value, partition_of, window_agg, window_value};
use crate::exec::ranking::row_rule;
use crate::expr::ColV;
use crate::float::{f_of_int, f_quotient, F_ONE};
use crate::laws::aggregates::places;
use crate::laws::windows::{
    by_key, frame_size, lemma_at_place, lemma_end_is, lemma_frame, lemma_over_rows, lemma_settled, lemma_size,
    lemma_sum_prefix, one, place, rows_fit, sum_in, tally, together, total,
};
use crate::order::Order;
use crate::plan::{AggKind, WindowKind, WindowV};
use crate::vector::{PhysType, Val};
use vstd::prelude::*;

verus! {

/// Whether a row is in the frame of row `r`: in its partition, and not after it unless the frame
/// is the whole partition.
pub open spec fn in_frame(w: WindowV, pcols: Seq<ColV>, kcols: Seq<ColV>, n: nat, r: int, s: int) -> bool {
    together(pcols, n, r, s) && (w.frame is WholePartition || w.order_by.len() == 0 || by_key(w, kcols, s, r)
        != Order::Greater)
}

/// How many rows of the frame there are of which something holds.
pub open spec fn framed(
    w: WindowV,
    pcols: Seq<ColV>,
    kcols: Seq<ColV>,
    n: nat,
    r: int,
    f: spec_fn(int) -> bool,
) -> int {
    tally(n as int, |s: int| in_frame(w, pcols, kcols, n, r, s) && f(s))
}

/// The sum of a number for each row of the frame.
pub open spec fn frame_total(
    w: WindowV,
    pcols: Seq<ColV>,
    kcols: Seq<ColV>,
    n: nat,
    r: int,
    g: spec_fn(int) -> int,
) -> int {
    total(
        n as int,
        |s: int|
            if in_frame(w, pcols, kcols, n, r, s) {
                g(s)
            } else {
                0
            },
    )
}

/// The frame is the beginning of the sorted partition.
#[verifier::rlimit(30)]
pub(crate) proof fn lemma_frame_rows(w: WindowV, pcols: Seq<ColV>, kcols: Seq<ColV>, n: nat, r: int, j: int)
    requires
        rows_fit(w, kcols, n),
        0 <= r < n,
        0 <= j < partition_of(w, pcols, kcols, n, r).len(),
    ensures
        in_frame(w, pcols, kcols, n, r, partition_of(w, pcols, kcols, n, r)[j] as int) == (j < frame_size(
            w,
            pcols,
            kcols,
            n,
            r,
        )),
{
    let part = partition_of(w, pcols, kcols, n, r);
    let rule = row_rule(w.order_by, kcols);
    lemma_frame(w, pcols, kcols, n, r);
    lemma_settled(w, pcols, kcols, n, r);
    lemma_size(w, pcols, kcols, n, r);
    lemma_at_place(w, pcols, kcols, n, r, r);
    let p = part.index_of(r as u32);
    assert(part[p] == r);
    assert(together(pcols, n, r, part[j] as int));
    lemma_end_is(part, rule, n, p);
    assert(by_key(w, kcols, part[j] as int, r) == rule(part[j], part[p]));
}

/// A sum over the beginning of the partition is the sum over the frame.
pub(crate) proof fn lemma_frame_total(w: WindowV, pcols: Seq<ColV>, kcols: Seq<ColV>, n: nat, r: int, g: spec_fn(int) -> int, h: spec_fn(u32) -> int)
    requires
        rows_fit(w, kcols, n),
        0 <= r < n,
        forall|x: u32| #[trigger] h(x) == g(x as int),
    ensures
        sum_in(partition_of(w, pcols, kcols, n, r).take(frame_size(w, pcols, kcols, n, r)), h) == frame_total(
            w,
            pcols,
            kcols,
            n,
            r,
            g,
        ),
        0 < frame_size(w, pcols, kcols, n, r) <= partition_of(w, pcols, kcols, n, r).len(),
{
    let part = partition_of(w, pcols, kcols, n, r);
    let k = frame_size(w, pcols, kcols, n, r);
    lemma_frame(w, pcols, kcols, n, r);
    let f = |x: u32|
        if in_frame(w, pcols, kcols, n, r, x as int) {
            g(x as int)
        } else {
            0
        };
    let q = |s: int|
        if in_frame(w, pcols, kcols, n, r, s) {
            g(s)
        } else {
            0
        };
    lemma_over_rows(w, pcols, kcols, n, r, f, q);
    assert forall|j: int| 0 <= j < k implies f(#[trigger] part[j]) == h(part[j]) by {
        lemma_frame_rows(w, pcols, kcols, n, r, j);
    }
    assert forall|j: int| k <= j < part.len() implies f(#[trigger] part[j]) == 0 by {
        lemma_frame_rows(w, pcols, kcols, n, r, j);
    }
    lemma_sum_prefix(part, k, f, h);
}

/// What an aggregate over a frame is: what it accumulates over the beginning of the partition.
pub(crate) proof fn lemma_window_agg(w: WindowV, pcols: Seq<ColV>, kcols: Seq<ColV>, acols: Seq<ColV>, n: nat, r: int, kind: AggKind)
    requires
        rows_fit(w, kcols, n),
        0 <= r < n,
        w.kind == WindowKind::Agg(kind),
        window_agg(kind),
        w.args.len() == acols.len(),
    ensures
        ({
            let part = partition_of(w, pcols, kcols, n, r);
            let col = if acols.len() > 0 {
                Some(acols[0])
            } else {
                None
            };
            window_value(w, pcols, kcols, acols, n, r) == match acc_over(kind, col, part, frame_size(w, pcols, kcols, n, r)) {
                Err(e) => Err::<Val, Code>(e),
                Ok(st) => crate::exec::window::adapted(
                    w.result_ty,
                    acc_value(
                        kind,
                        st,
                        if w.args.len() > 0 {
                            divisor(w.args[0].result_ty)
                        } else {
                            F_ONE
                        },
                    ),
                ),
            }
        }),
{
    lemma_frame(w, pcols, kcols, n, r);
}

pub(crate) proof fn lemma_take_step(part: Seq<u32>, k: int, h: spec_fn(u32) -> int)
    requires
        0 < k <= part.len(),
    ensures
        sum_in(part.take(k), h) == sum_in(part.take(k - 1), h) + h(part[k - 1]),
{
    assert(part.take(k).drop_last() =~= part.take(k - 1));
}

proof fn lemma_counted(kind: AggKind, col: Option<ColV>, part: Seq<u32>, k: int, h: spec_fn(u32) -> int)
    requires
        0 <= k <= part.len(),
        kind is CountStar || (kind is Count && col is Some),
        forall|x: u32| #[trigger] h(x) == one(kind is CountStar || !(col->0.cells[x as int] is Null)),
    ensures
        acc_over(kind, col, part, k) matches Ok(st) && st.n == sum_in(part.take(k), h),
    decreases k,
{
    reveal(acc_add);
    if k > 0 {
        lemma_counted(kind, col, part, k - 1, h);
        lemma_take_step(part, k, h);
    } else {
        assert(part.take(0) =~= Seq::<u32>::empty());
    }
}

/// `COUNT` over a frame is the number of its rows whose argument is not NULL; `COUNT(*)` is the
/// number of all its rows.
pub proof fn frame_counts_are_of_its_rows(
    w: WindowV,
    pcols: Seq<ColV>,
    kcols: Seq<ColV>,
    acols: Seq<ColV>,
    n: nat,
    r: int,
)
    requires
        rows_fit(w, kcols, n),
        0 <= r < n,
        w.args.len() == acols.len(),
        w.kind == WindowKind::Agg(AggKind::CountStar) || (w.kind == WindowKind::Agg(AggKind::Count) && acols.len() > 0),
        w.result_ty is BigInt,
    ensures
        ({
            let all = w.kind == WindowKind::Agg(AggKind::CountStar);
            let m = framed(w, pcols, kcols, n, r, |s: int| all || !(acols[0].cells[s] is Null));
            window_value(w, pcols, kcols, acols, n, r) == Ok::<Val, Code>(Val::I64(m as i64)) && 0 <= m <= n
        }),
{
    let kind = w.kind->Agg_0;
    let all = kind is CountStar;
    let part = partition_of(w, pcols, kcols, n, r);
    let col = if acols.len() > 0 {
        Some(acols[0])
    } else {
        None
    };
    let f = |s: int| all || !(acols[0].cells[s] is Null);
    let g = |s: int| one(f(s));
    let h = |x: u32| one(f(x as int));
    lemma_window_agg(w, pcols, kcols, acols, n, r, kind);
    lemma_frame_total(w, pcols, kcols, n, r, g, h);
    lemma_counted(kind, col, part, frame_size(w, pcols, kcols, n, r), h);
    let q = |s: int| in_frame(w, pcols, kcols, n, r, s) && f(s);
    let a = |s: int|
        if in_frame(w, pcols, kcols, n, r, s) {
            g(s)
        } else {
            0
        };
    let b = |s: int| one(q(s));
    crate::laws::windows::lemma_total_agrees(n as int, a, b);
    lemma_tally_bound(n as int, q);
}

pub(crate) proof fn lemma_tally_bound(n: int, f: spec_fn(int) -> bool)
    requires
        0 <= n,
    ensures
        0 <= tally(n, f) <= n,
    decreases n,
{
    let b = |i: int| one(f(i));
    if n > 0 {
        lemma_tally_bound(n - 1, f);
        assert(total(n, b) == total(n - 1, b) + b(n - 1));
    }
}

// --- Sums --------------------------------------------------------------------------------------------

/// The number of a cell, nothing for NULL.
pub open spec fn number_of(v: Val) -> int {
    match v.as_int() {
        Some(x) => x,
        None => 0,
    }
}

proof fn lemma_summed(kind: AggKind, col: ColV, part: Seq<u32>, k: int, c: spec_fn(u32) -> int, h: spec_fn(u32) -> int)
    requires
        0 <= k <= part.len(),
        kind is Sum || kind is Avg,
        forall|j: int|
            0 <= j < part.len() ==> (#[trigger] col.cells[part[j] as int] is Null || col.cells[part[j] as int].as_int() is Some),
        forall|x: u32| #[trigger] c(x) == one(!(col.cells[x as int] is Null)),
        forall|x: u32| #[trigger] h(x) == number_of(col.cells[x as int]),
    ensures
        acc_over(kind, Some(col), part, k) matches Ok(st) ==> st.n == sum_in(part.take(k), c) && (if st.n == 0 {
            st.acc is Null && sum_in(part.take(k), h) == 0
        } else {
            st.n > 0 && (st.acc matches Val::I128(s) && s == sum_in(part.take(k), h))
        }),
    decreases k,
{
    reveal(acc_add);
    if k > 0 {
        lemma_summed(kind, col, part, k - 1, c, h);
        lemma_take_step(part, k, c);
        lemma_take_step(part, k, h);
        let v = col.cells[part[k - 1] as int];
        assert(v is Null || v.as_int() is Some);
        match v {
            Val::I32(x) => {},
            Val::I64(x) => {},
            Val::I128(x) => {},
            _ => {},
        }
    } else {
        assert(part.take(0) =~= Seq::<u32>::empty());
    }
}

proof fn lemma_no_overflow(kind: AggKind, col: ColV, part: Seq<u32>, k: int)
    requires
        0 <= k <= part.len(),
        k <= 0x1_0000_0000,
        kind is Sum || kind is Avg,
        forall|j: int|
            0 <= j < part.len() ==> (#[trigger] col.cells[part[j] as int] is Null || col.cells[part[j] as int] is I32
                || col.cells[part[j] as int] is I64),
    ensures
        acc_over(kind, Some(col), part, k) matches Ok(st) && (st.acc is Null || (st.acc matches Val::I128(s) && -(k
            * 0x8000_0000_0000_0000) <= s <= k * 0x8000_0000_0000_0000)),
    decreases k,
{
    reveal(acc_add);
    if k > 0 {
        lemma_no_overflow(kind, col, part, k - 1);
        let v = col.cells[part[k - 1] as int];
        assert(v is Null || v is I32 || v is I64);
    }
}

/// `SUM` over a frame of whole numbers is the exact sum of its rows, NULL where all are NULL, and
/// `AVG` that sum divided by the power of ten of the digits behind the point and by the number of
/// rows that are not NULL. Over integers of up to eight bytes they do not fail.
#[verifier::rlimit(30)]
pub proof fn frame_sums_are_of_its_rows(
    w: WindowV,
    pcols: Seq<ColV>,
    kcols: Seq<ColV>,
    acols: Seq<ColV>,
    n: nat,
    r: int,
)
    requires
        rows_fit(w, kcols, n),
        0 <= r < n,
        w.args.len() == acols.len(),
        acols.len() > 0,
        w.kind == WindowKind::Agg(AggKind::Sum) && w.result_ty.phys() == PhysType::I128 || w.kind == WindowKind::Agg(
            AggKind::Avg,
        ) && w.result_ty is Double,
        w.args[0].result_ty == acols[0].ty,
        forall|s: int| 0 <= s < n ==> (#[trigger] acols[0].cells[s]).fits(acols[0].ty.phys()),
        acols[0].ty.phys() == PhysType::I32 || acols[0].ty.phys() == PhysType::I64 || acols[0].ty.phys() == PhysType::I128,
    ensures
        ({
            let m = framed(w, pcols, kcols, n, r, |s: int| !(acols[0].cells[s] is Null));
            let t = frame_total(w, pcols, kcols, n, r, |s: int| number_of(acols[0].cells[s]));
            let v = window_value(w, pcols, kcols, acols, n, r);
            &&& acols[0].ty.phys() != PhysType::I128 ==> v is Ok
            &&& v is Ok ==> v->Ok_0 == if m == 0 {
                Val::Null
            } else if w.kind == WindowKind::Agg(AggKind::Sum) {
                Val::I128(t as i128)
            } else {
                Val::F64(f_quotient(f_quotient(f_of_int(t), f_pow10(places(acols[0].ty))), f_of_int(m)))
            }
            &&& v is Ok && m > 0 ==> i128::MIN <= t <= i128::MAX
        }),
{
    let kind = w.kind->Agg_0;
    let part = partition_of(w, pcols, kcols, n, r);
    let col = acols[0];
    let k = frame_size(w, pcols, kcols, n, r);
    let f = |s: int| !(col.cells[s] is Null);
    let g = |s: int| one(f(s));
    let c = |x: u32| one(!(col.cells[x as int] is Null));
    let g2 = |s: int| number_of(acols[0].cells[s]);
    let h = |x: u32| number_of(col.cells[x as int]);
    lemma_window_agg(w, pcols, kcols, acols, n, r, kind);
    lemma_frame_total(w, pcols, kcols, n, r, g, c);
    lemma_frame_total(w, pcols, kcols, n, r, g2, h);
    lemma_settled(w, pcols, kcols, n, r);
    lemma_size(w, pcols, kcols, n, r);
    let dom = |a: u32| a < n;
    assert forall|j: int| 0 <= j < part.len() implies (#[trigger] col.cells[part[j] as int] is Null
        || col.cells[part[j] as int].as_int() is Some) by {
        assert(dom(part[j]));
        assert(col.cells[part[j] as int].fits(col.ty.phys()));
    }
    lemma_summed(kind, col, part, k, c, h);
    if col.ty.phys() != PhysType::I128 {
        assert forall|j: int| 0 <= j < part.len() implies (#[trigger] col.cells[part[j] as int] is Null
            || col.cells[part[j] as int] is I32 || col.cells[part[j] as int] is I64) by {
            assert(dom(part[j]));
            assert(col.cells[part[j] as int].fits(col.ty.phys()));
        }
        lemma_no_overflow(kind, col, part, k);
    }
    assert(f_pow10(0) == F_ONE);
    let f1 = |s: int| !(acols[0].cells[s] is Null);
    let q = |s: int| in_frame(w, pcols, kcols, n, r, s) && f1(s);
    let a = |s: int|
        if in_frame(w, pcols, kcols, n, r, s) {
            g(s)
        } else {
            0
        };
    let b = |s: int| one(q(s));
    crate::laws::windows::lemma_total_agrees(n as int, a, b);
}

// --- Truth values ------------------------------------------------------------------------------------------

proof fn lemma_truths(kind: AggKind, col: ColV, part: Seq<u32>, k: int)
    requires
        0 <= k <= part.len(),
        kind is BoolAnd || kind is BoolOr,
        forall|j: int| 0 <= j < part.len() ==> (#[trigger] col.cells[part[j] as int]).fits(PhysType::Bool),
    ensures
        acc_over(kind, Some(col), part, k) matches Ok(st) && (match st.acc {
            Val::Null => forall|j: int| 0 <= j < k ==> (#[trigger] col.cells[part[j] as int]) is Null,
            Val::Bool(b) => {
                &&& exists|j: int| 0 <= j < k && (#[trigger] col.cells[part[j] as int]) == Val::Bool(b)
                &&& b == (kind is BoolOr) || forall|j: int|
                    0 <= j < k ==> (#[trigger] col.cells[part[j] as int]) != Val::Bool(!b)
            },
            _ => false,
        }),
    decreases k,
{
    reveal(acc_add);
    if k > 0 {
        lemma_truths(kind, col, part, k - 1);
        let v = col.cells[part[k - 1] as int];
        assert(v.fits(PhysType::Bool));
        let st = acc_over(kind, Some(col), part, k - 1)->Ok_0;
        if let Val::Bool(b) = st.acc {
            let j = choose|j: int| 0 <= j < k - 1 && (#[trigger] col.cells[part[j] as int]) == Val::Bool(b);
            assert(col.cells[part[j] as int] == Val::Bool(b));
        }
        assert(col.cells[part[k - 1] as int] == v);
    }
}

/// `BOOL_AND` over a frame is true where none of its rows is false, `BOOL_OR` where one is true;
/// NULLs are passed over, and where all are NULL so is the value.
#[verifier::rlimit(30)]
pub proof fn frame_truths_are_of_its_rows(
    w: WindowV,
    pcols: Seq<ColV>,
    kcols: Seq<ColV>,
    acols: Seq<ColV>,
    n: nat,
    r: int,
)
    requires
        rows_fit(w, kcols, n),
        0 <= r < n,
        w.args.len() == acols.len(),
        acols.len() > 0,
        w.kind == WindowKind::Agg(AggKind::BoolAnd) || w.kind == WindowKind::Agg(AggKind::BoolOr),
        w.result_ty is Boolean,
        forall|s: int| 0 <= s < n ==> (#[trigger] acols[0].cells[s]).fits(PhysType::Bool),
    ensures
        ({
            let some_true = exists|s: int|
                0 <= s < n && in_frame(w, pcols, kcols, n, r, s) && #[trigger] acols[0].cells[s] == Val::Bool(true);
            let some_false = exists|s: int|
                0 <= s < n && in_frame(w, pcols, kcols, n, r, s) && #[trigger] acols[0].cells[s] == Val::Bool(false);
            window_value(w, pcols, kcols, acols, n, r) == Ok::<Val, Code>(
                if !some_true && !some_false {
                    Val::Null
                } else if w.kind == WindowKind::Agg(AggKind::BoolAnd) {
                    Val::Bool(!some_false)
                } else {
                    Val::Bool(some_true)
                },
            )
        }),
{
    let kind = w.kind->Agg_0;
    let part = partition_of(w, pcols, kcols, n, r);
    let col = acols[0];
    let k = frame_size(w, pcols, kcols, n, r);
    lemma_window_agg(w, pcols, kcols, acols, n, r, kind);
    lemma_settled(w, pcols, kcols, n, r);
    lemma_frame(w, pcols, kcols, n, r);
    let dom = |a: u32| a < n;
    assert forall|j: int| 0 <= j < part.len() implies (#[trigger] col.cells[part[j] as int]).fits(PhysType::Bool) by {
        assert(dom(part[j]));
    }
    lemma_truths(kind, col, part, k);
    assert forall|j: int| 0 <= j < k implies in_frame(w, pcols, kcols, n, r, (#[trigger] part[j]) as int) && part[j] < n by {
        assert(dom(part[j]));
        lemma_frame_rows(w, pcols, kcols, n, r, j);
    }
    assert forall|s: int| 0 <= s < n && #[trigger] in_frame(w, pcols, kcols, n, r, s) implies exists|j: int|
        0 <= j < k && #[trigger] part[j] == s by {
        lemma_at_place(w, pcols, kcols, n, r, s);
        let j = place(w, pcols, kcols, n, s);
        assert(part[j] == s);
        lemma_frame_rows(w, pcols, kcols, n, r, j);
    }
    let st = acc_over(kind, Some(col), part, k)->Ok_0;
    if let Val::Bool(b) = st.acc {
        let j = choose|j: int| 0 <= j < k && (#[trigger] col.cells[part[j] as int]) == Val::Bool(b);
        assert(in_frame(w, pcols, kcols, n, r, part[j] as int));
        assert(acols[0].cells[part[j] as int] == Val::Bool(b));
    }
}

} // verus!
