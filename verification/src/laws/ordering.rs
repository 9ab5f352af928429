//! How values, rows and names compare.

use crate::exec::ranking::{cell_order, key_order};
use crate::expr::{compared, OpCode};
use crate::float::{f_finite, f_scaled};
use crate::hash::{fold_ascii, same_name};
use crate::laws::rounding::doubles_are_ordered_as_numbers;
use crate::order::{bytes_order, f64_is_nan, Order};
use crate::plan::SortKeyV;
use crate::vector::{packed_interval, interval_components_survive_packing, val_order, Ty, Val};
use vstd::prelude::*;

verus! {

/// What a comparison says of two numbers.
pub open spec fn holds(op: OpCode, a: int, b: int) -> bool {
    match op {
        OpCode::Eq => a == b,
        OpCode::Ne => a != b,
        OpCode::Lt => a < b,
        OpCode::Le => a <= b,
        OpCode::Gt => a > b,
        OpCode::Ge => a >= b,
        _ => false,
    }
}

pub open spec fn compares(op: OpCode) -> bool {
    op is Eq || op is Ne || op is Lt || op is Le || op is Gt || op is Ge
}

/// Whole numbers compare as numbers; comparing with NULL gives NULL.
pub proof fn whole_numbers_compare_as_numbers(op: OpCode, a: Val, b: Val, ty: Ty)
    requires
        compares(op),
        ty != Ty::Interval,
        a is Null || b is Null || a.phys() == b.phys(),
    ensures
        a is Null || b is Null ==> compared(op, a, b, ty) == Val::Null,
        a.as_int() is Some && b.as_int() is Some ==> compared(op, a, b, ty) == Val::Bool(
            holds(op, a.as_int()->0, b.as_int()->0),
        ),
{
    match (a, b) {
        (Val::I32(x), Val::I32(y)) => {},
        (Val::I64(x), Val::I64(y)) => {},
        (Val::I128(x), Val::I128(y)) => {},
        _ => {},
    }
}

/// `false` is before `true`.
pub proof fn false_is_before_true(op: OpCode, a: bool, b: bool, ty: Ty)
    requires
        compares(op),
    ensures
        compared(op, Val::Bool(a), Val::Bool(b), ty) == Val::Bool(
            holds(
                op,
                if a {
                    1
                } else {
                    0
                },
                if b {
                    1
                } else {
                    0
                },
            ),
        ),
{
}

/// Finite doubles compare as numbers; a NaN is above every number and equal to every NaN.
pub proof fn doubles_compare_as_numbers(op: OpCode, a: u64, b: u64, ty: Ty)
    requires
        compares(op),
    ensures
        f_finite(a) && f_finite(b) ==> compared(op, Val::F64(a), Val::F64(b), ty) == Val::Bool(
            holds(op, f_scaled(a), f_scaled(b)),
        ),
        f64_is_nan(a) ==> compared(op, Val::F64(a), Val::F64(b), ty) == Val::Bool(
            holds(
                op,
                1,
                if f64_is_nan(b) {
                    1
                } else {
                    0
                },
            ),
        ),
{
    doubles_are_ordered_as_numbers(a, b);
    doubles_are_ordered_as_numbers(b, a);
}

/// Whether one byte string is before another: it is a beginning of it, or has the lower byte
/// where they first differ.
pub open spec fn before(a: Seq<u8>, b: Seq<u8>) -> bool {
    exists|k: int|
        {
            &&& 0 <= k <= a.len()
            &&& k < b.len()
            &&& #[trigger] a.take(k) == b.take(k)
            &&& k == a.len() || a[k] < b[k]
        }
}

proof fn lemma_before_step(a: Seq<u8>, b: Seq<u8>)
    requires
        a.len() > 0,
        b.len() > 0,
    ensures
        a[0] == b[0] ==> before(a, b) == before(a.drop_first(), b.drop_first()),
        a[0] != b[0] ==> before(a, b) == (a[0] < b[0]),
{
    let x = a.drop_first();
    let y = b.drop_first();
    if a[0] == b[0] {
        if before(a, b) {
            let k = choose|k: int|
                {
                    &&& 0 <= k <= a.len()
                    &&& k < b.len()
                    &&& #[trigger] a.take(k) == b.take(k)
                    &&& k == a.len() || a[k] < b[k]
                };
            assert(k > 0);
            assert(x.take(k - 1) =~= a.take(k).drop_first());
            assert(y.take(k - 1) =~= b.take(k).drop_first());
            assert(before(x, y));
        }
        if before(x, y) {
            let k = choose|k: int|
                {
                    &&& 0 <= k <= x.len()
                    &&& k < y.len()
                    &&& #[trigger] x.take(k) == y.take(k)
                    &&& k == x.len() || x[k] < y[k]
                };
            assert(a.take(k + 1) =~= seq![a[0]] + x.take(k));
            assert(b.take(k + 1) =~= seq![b[0]] + y.take(k));
            assert(a.take(k + 1) == b.take(k + 1));
            assert(before(a, b));
        }
    } else {
        if before(a, b) {
            let k = choose|k: int|
                {
                    &&& 0 <= k <= a.len()
                    &&& k < b.len()
                    &&& #[trigger] a.take(k) == b.take(k)
                    &&& k == a.len() || a[k] < b[k]
                };
            if k > 0 {
                assert(a.take(k)[0] == b.take(k)[0]);
            }
        }
        if a[0] < b[0] {
            assert(a.take(0) =~= b.take(0));
            assert(before(a, b));
        }
    }
}

/// Byte strings compare byte by byte.
pub proof fn texts_compare_byte_by_byte(a: Seq<u8>, b: Seq<u8>)
    ensures
        bytes_order(a, b) == Order::Less <==> before(a, b),
        bytes_order(a, b) == Order::Greater <==> before(b, a),
        bytes_order(a, b) == Order::Equal <==> a == b,
    decreases a.len(),
{
    if a.len() == 0 {
        if b.len() > 0 {
            assert(a.take(0) =~= b.take(0));
            assert(before(a, b));
        } else {
            assert(a =~= b);
        }
    } else if b.len() == 0 {
        assert(b.take(0) =~= a.take(0));
        assert(before(b, a));
    } else {
        lemma_before_step(a, b);
        lemma_before_step(b, a);
        let x = a.drop_first();
        let y = b.drop_first();
        texts_compare_byte_by_byte(x, y);
        if a[0] == b[0] && x == y {
            assert(a =~= seq![a[0]] + x);
            assert(b =~= seq![b[0]] + y);
        }
    }
}

/// Texts and blobs compare as byte strings.
pub proof fn text_values_compare_byte_by_byte(op: OpCode, a: Seq<u8>, b: Seq<u8>, ty: Ty)
    requires
        compares(op),
    ensures
        compared(op, Val::Bytes(a), Val::Bytes(b), ty) == Val::Bool(
            holds(
                op,
                if before(b, a) {
                    1
                } else {
                    0
                },
                if before(a, b) {
                    1
                } else {
                    0
                },
            ),
        ),
{
    texts_compare_byte_by_byte(a, b);
}

/// Intervals compare by their length, with a month of 30 days and a day of 24 hours.
pub proof fn intervals_compare_by_length(op: OpCode, m: i32, d: i32, u: i64, n: i32, e: i32, v: i64)
    requires
        compares(op),
    ensures
        compared(op, Val::I128(packed_interval(m, d, u)), Val::I128(packed_interval(n, e, v)), Ty::Interval) == Val::Bool(
            holds(op, ((m * 30 + d) * 24) * 3_600_000_000 + u, ((n * 30 + e) * 24) * 3_600_000_000 + v),
        ),
{
    interval_components_survive_packing(m, d, u);
    interval_components_survive_packing(n, e, v);
}

// --- Sort keys ------------------------------------------------------------------------------------------

/// How a sort key orders two cells: NULLs stand together, first or last as the key says, whichever
/// way it sorts; other cells stand in their order, or in the opposite one where the key descends.
pub proof fn a_sort_key_orders_cells(k: SortKeyV, ty: Ty, a: Val, b: Val)
    ensures
        a is Null && b is Null ==> cell_order(k, ty, a, b) == Order::Equal,
        a is Null && !(b is Null) ==> (cell_order(k, ty, a, b) == Order::Less) == k.nulls_first && cell_order(k, ty, a, b)
            != Order::Equal,
        !(a is Null) && b is Null ==> (cell_order(k, ty, a, b) == Order::Greater) == k.nulls_first && cell_order(k, ty, a, b)
            != Order::Equal,
        !(a is Null) && !(b is Null) && !k.desc ==> cell_order(k, ty, a, b) == val_order(a, b, ty),
        !(a is Null) && !(b is Null) && k.desc ==> cell_order(k, ty, a, b) == val_order(b, a, ty),
{
    crate::vector::val_order_flips(a, b, ty);
}

proof fn lemma_first_difference(ks: Seq<SortKeyV>, tys: Seq<Ty>, a: Seq<Val>, b: Seq<Val>, from: int, k: int)
    requires
        0 <= from <= k < ks.len(),
        forall|j: int| from <= j < k ==> cell_order(#[trigger] ks[j], tys[j], a[j], b[j]) == Order::Equal,
        cell_order(ks[k], tys[k], a[k], b[k]) != Order::Equal,
    ensures
        key_order(ks, tys, a, b, from) == cell_order(ks[k], tys[k], a[k], b[k]),
    decreases k - from,
{
    if from < k {
        assert(cell_order(ks[from], tys[from], a[from], b[from]) == Order::Equal);
        lemma_first_difference(ks, tys, a, b, from + 1, k);
    }
}

/// Rows are ordered by the first sort key that tells them apart.
pub proof fn the_first_key_that_differs_decides(ks: Seq<SortKeyV>, tys: Seq<Ty>, a: Seq<Val>, b: Seq<Val>, k: int)
    requires
        0 <= k < ks.len(),
        forall|j: int| 0 <= j < k ==> cell_order(#[trigger] ks[j], tys[j], a[j], b[j]) == Order::Equal,
        cell_order(ks[k], tys[k], a[k], b[k]) != Order::Equal,
    ensures
        key_order(ks, tys, a, b, 0) == cell_order(ks[k], tys[k], a[k], b[k]),
{
    lemma_first_difference(ks, tys, a, b, 0, k);
}

proof fn lemma_no_difference(ks: Seq<SortKeyV>, tys: Seq<Ty>, a: Seq<Val>, b: Seq<Val>, from: int)
    requires
        0 <= from,
        forall|j: int| from <= j < ks.len() ==> cell_order(#[trigger] ks[j], tys[j], a[j], b[j]) == Order::Equal,
    ensures
        key_order(ks, tys, a, b, from) == Order::Equal,
    decreases ks.len() - from,
{
    if from < ks.len() {
        assert(cell_order(ks[from], tys[from], a[from], b[from]) == Order::Equal);
        lemma_no_difference(ks, tys, a, b, from + 1);
    }
}

/// Rows that no sort key tells apart are equal.
pub proof fn rows_that_no_key_tells_apart_are_equal(ks: Seq<SortKeyV>, tys: Seq<Ty>, a: Seq<Val>, b: Seq<Val>)
    requires
        forall|j: int| 0 <= j < ks.len() ==> cell_order(#[trigger] ks[j], tys[j], a[j], b[j]) == Order::Equal,
    ensures
        key_order(ks, tys, a, b, 0) == Order::Equal,
{
    lemma_no_difference(ks, tys, a, b, 0);
}

// --- Types that hold two others ---------------------------------------------------------------------------

/// The whole numbers that a type's columns hold.
pub open spec fn range_of(t: Ty) -> Option<(int, int)> {
    match t {
        Ty::TinyInt => Some((-0x80, 0x7f)),
        Ty::SmallInt => Some((-0x8000, 0x7fff)),
        Ty::Int => Some((-0x8000_0000, 0x7fff_ffff)),
        Ty::BigInt => Some((-0x8000_0000_0000_0000, 0x7fff_ffff_ffff_ffff)),
        Ty::HugeInt => Some((i128::MIN as int, i128::MAX as int)),
        Ty::UTinyInt => Some((0, 0xff)),
        Ty::USmallInt => Some((0, 0xffff)),
        Ty::UInt => Some((0, 0xffff_ffff)),
        Ty::UBigInt => Some((0, 0xffff_ffff_ffff_ffff)),
        _ => None,
    }
}

pub open spec fn least(t: Ty) -> int {
    let (l, h) = range_of(t)->0;
    l
}

pub open spec fn most(t: Ty) -> int {
    let (l, h) = range_of(t)->0;
    h
}

/// Whether a type holds every whole number of another.
pub open spec fn holds_all(t: Ty, a: Ty) -> bool {
    &&& range_of(t) is Some
    &&& range_of(a) is Some
    &&& least(t) <= least(a)
    &&& most(a) <= most(t)
}

/// Two types of whole numbers widen to one that holds the numbers of both, and no narrower type
/// does.
pub proof fn whole_types_widen_to_the_narrowest(a: Ty, b: Ty, c: Ty)
    requires
        range_of(a) is Some,
        range_of(b) is Some,
    ensures
        Ty::unified(a, b) is Some,
        holds_all(Ty::unified(a, b)->0, a),
        holds_all(Ty::unified(a, b)->0, b),
        holds_all(c, a) && holds_all(c, b) ==> holds_all(c, Ty::unified(a, b)->0),
{
}

/// A type widens to itself, NULL to any type, and a number that is not whole to nothing whole.
pub proof fn types_widen_to_themselves(a: Ty, b: Ty)
    ensures
        Ty::unified(a, a) == Some(a),
        Ty::unified(a, Ty::Null) == Some(a),
        Ty::unified(Ty::Null, a) == Some(a),
        Ty::unified(Ty::Float, Ty::Double) == Some(Ty::Double),
        range_of(a) is Some && range_of(b) is None && !(b is Null) ==> Ty::unified(a, b) is None,
        a != b && !(a is Null) && !(b is Null) && !(a is Float || a is Double) && range_of(a) is None ==> Ty::unified(a, b)
            is None,
{
}

// --- Names ------------------------------------------------------------------------------------------------

/// Names are the same if they differ in nothing but the case of their ASCII letters.
pub proof fn names_are_the_same_but_for_case(a: Seq<u8>, b: Seq<u8>)
    ensures
        same_name(a, b) <==> a.len() == b.len() && forall|i: int|
            0 <= i < a.len() ==> (#[trigger] a[i] == b[i] || (65 <= a[i] <= 90 && b[i] == a[i] + 32) || (97 <= a[i] <= 122
                && b[i] == a[i] - 32)),
{
    if same_name(a, b) {
        assert forall|i: int| 0 <= i < a.len() implies (#[trigger] a[i] == b[i] || (65 <= a[i] <= 90 && b[i] == a[i] + 32)
            || (97 <= a[i] <= 122 && b[i] == a[i] - 32)) by {
            assert(fold_ascii(a[i]) == fold_ascii(b[i]));
        }
    }
}

} // verus!
