//! Window functions.
//!
//! The output is the input's rows, in the input's order, each followed by one value
//! per window function. A value is computed in its partition: the rows with the same
//! `PARTITION BY` key, sorted by the `ORDER BY` keys. Rows that those keys do not tell
//! apart are peers, and a `RANGE` frame reaches to the last peer of the current row.

use crate::catalog::MemTable;
use crate::error::{Code, Error};
use crate::exec::looks::{lemma_no_look, looked_on};
use crate::exec::meaning::{gave, lemma_begins, stops, stuck, supplied, windows_computed, Why};
use crate::exec::recursive::chunk_cols;
use crate::exec::join::append_all;
use crate::exec::ranking::{
    arranged, arranging_sorts, lemma_rows_ordered, row_rule, sort_rows, KeyedRows, RowOrder,
};
use crate::exec::rowkey::{
    col_keys, column_refs, encode_key, entry_of, has_key, keys_are_distinct, lemma_col_key, HashIndex, max_keys,
};
use crate::exec::sort::{
    can_append, columns_bytes, columns_size, empty_like, eval_keys, sort_keys_value, storage_agrees, types_of,
};
use crate::exec::total::{
    add_int, compensated, compensated_step, compensated_sum, divisor, divisor_of, neumaier_add, scale_double, scaled_double,
};
use crate::exec::{
    answers, chunk, flat, fresh_trace, grown_trace, lemma_flat_push, lemma_portions_push, lost_trace, portion, portions, Chunk, Trace, Child, ExecContext, Look,
    Operator, Said, Step,
};
use crate::expr::{cols_of, programs_value, ColV, Vm};
use crate::float::{f_of_int, f_product, f_quotient, from_int, over, times, F_ONE, F_ZERO};
use crate::order::Order;
use crate::plan::{windows_of, AggKind, NodeV, WindowFrame, WindowKind, WindowSpec, WindowV};
use crate::vector::{
    cols_wf, gather_columns, order_values, row_at, row_numbers, val_order, Batch, PhysType, Ty, Val, Value, Vector, BATCH_SIZE,
    MAX_ROWS,
};
use vstd::prelude::*;

verus! {

/// The bytes that may be buffered.
pub const MAX_BUFFER_BYTES: u64 = 0x800_0000;

// --- Values ---------------------------------------------------------------------------

/// A number as a double.
pub open spec fn double_of(v: Val) -> Option<u64> {
    match v {
        Val::F64(x) => Some(x),
        Val::I32(x) => Some(f_of_int(x as int)),
        Val::I64(x) => Some(f_of_int(x as int)),
        Val::I128(x) => Some(f_of_int(x as int)),
        _ => None,
    }
}

/// A value as a whole number; a truth value counts as 0 or 1.
pub open spec fn int_of(v: Val) -> Option<i128> {
    match v {
        Val::Bool(b) => Some(if b {
            1i128
        } else {
            0i128
        }),
        Val::I32(x) => Some(x as i128),
        Val::I64(x) => Some(x as i128),
        Val::I128(x) => Some(x),
        _ => None,
    }
}

/// A value adapted to a column type.
pub open spec fn adapted(ty: Ty, v: Val) -> Result<Val, Code> {
    if v is Null {
        Ok(Val::Null)
    } else {
        match ty.phys() {
            PhysType::Bool => match v {
                Val::Bool(b) => Ok(Val::Bool(b)),
                _ => Err(Code::TypeMismatch),
            },
            PhysType::I32 => match int_of(v) {
                None => Err(Code::TypeMismatch),
                Some(x) => if i32::MIN <= x <= i32::MAX {
                    Ok(Val::I32(x as i32))
                } else {
                    Err(Code::ValueOutOfRange)
                },
            },
            PhysType::I64 => match int_of(v) {
                None => Err(Code::TypeMismatch),
                Some(x) => if i64::MIN <= x <= i64::MAX {
                    Ok(Val::I64(x as i64))
                } else {
                    Err(Code::ValueOutOfRange)
                },
            },
            PhysType::I128 => match int_of(v) {
                None => Err(Code::TypeMismatch),
                Some(x) => Ok(Val::I128(x)),
            },
            PhysType::F64 => match double_of(v) {
                None => Err(Code::TypeMismatch),
                Some(x) => Ok(Val::F64(x)),
            },
            PhysType::Bytes => match v {
                Val::Bytes(s) => Ok(Val::Bytes(s)),
                _ => Err(Code::TypeMismatch),
            },
        }
    }
}

pub fn as_double(v: &Value) -> (r: Option<u64>)
    ensures
        r == double_of(v@),
{
    match v {
        Value::F64(x) => Some(*x),
        Value::I32(x) => Some(from_int(*x as i128)),
        Value::I64(x) => Some(from_int(*x as i128)),
        Value::I128(x) => Some(from_int(*x)),
        _ => None,
    }
}

fn as_int(v: &Value) -> (r: Option<i128>)
    ensures
        r == int_of(v@),
{
    match v {
        Value::Bool(b) => Some(if *b { 1i128 } else { 0i128 }),
        Value::I32(x) => Some(*x as i128),
        Value::I64(x) => Some(*x as i128),
        Value::I128(x) => Some(*x),
        _ => None,
    }
}

/// Adapts a value to a column type.
pub fn adapt(ty: Ty, v: &Value) -> (r: Result<Value, Error>)
    ensures
        match r {
            Ok(x) => adapted(ty, v@) == Ok::<Val, Code>(x@) && x@.fits(ty.phys()),
            Err(e) => adapted(ty, v@) == Err::<Val, Code>(e.code),
        },
{
    if v.is_null() {
        return Ok(Value::Null);
    }
    match ty.phys() {
        PhysType::Bool => match v {
            Value::Bool(b) => Ok(Value::Bool(*b)),
            _ => Err(Error::new(Code::TypeMismatch)),
        },
        PhysType::I32 => match as_int(v) {
            None => Err(Error::new(Code::TypeMismatch)),
            Some(x) => if x >= i32::MIN as i128 && x <= i32::MAX as i128 {
                Ok(Value::I32(x as i32))
            } else {
                Err(Error::new(Code::ValueOutOfRange))
            },
        },
        PhysType::I64 => match as_int(v) {
            None => Err(Error::new(Code::TypeMismatch)),
            Some(x) => if x >= i64::MIN as i128 && x <= i64::MAX as i128 {
                Ok(Value::I64(x as i64))
            } else {
                Err(Error::new(Code::ValueOutOfRange))
            },
        },
        PhysType::I128 => match as_int(v) {
            None => Err(Error::new(Code::TypeMismatch)),
            Some(x) => Ok(Value::I128(x)),
        },
        PhysType::F64 => match as_double(v) {
            None => Err(Error::new(Code::TypeMismatch)),
            Some(x) => Ok(Value::F64(x)),
        },
        PhysType::Bytes => match v {
            Value::Bytes(_) => Ok(v.dup()),
            _ => Err(Error::new(Code::TypeMismatch)),
        },
    }
}

// --- Peers ----------------------------------------------------------------------------

/// The first peer of the row at a position of a sorted partition.
pub open spec fn peers_start(part: Seq<u32>, rule: spec_fn(u32, u32) -> Order, p: int) -> int
    decreases p,
{
    if p <= 0 {
        0
    } else if rule(part[p - 1], part[p]) == Order::Equal {
        peers_start(part, rule, p - 1)
    } else {
        p
    }
}

/// The position after the last peer.
pub open spec fn peers_end(part: Seq<u32>, rule: spec_fn(u32, u32) -> Order, p: int) -> int
    decreases part.len() - p,
{
    if p + 1 >= part.len() {
        part.len() as int
    } else if rule(part[p], part[p + 1]) == Order::Equal {
        peers_end(part, rule, p + 1)
    } else {
        p + 1
    }
}

/// The number of peer groups up to a position.
pub open spec fn peer_groups(part: Seq<u32>, rule: spec_fn(u32, u32) -> Order, p: int) -> int
    decreases p,
{
    if p <= 0 {
        1
    } else if rule(part[p - 1], part[p]) == Order::Equal {
        peer_groups(part, rule, p - 1)
    } else {
        peer_groups(part, rule, p - 1) + 1
    }
}

/// Peers have the same frame and the same rank.
pub proof fn peers_share_their_frame(part: Seq<u32>, rule: spec_fn(u32, u32) -> Order, p: int)
    requires
        0 <= p,
        p + 1 < part.len(),
        rule(part[p], part[p + 1]) == Order::Equal,
    ensures
        peers_start(part, rule, p) == peers_start(part, rule, p + 1),
        peers_end(part, rule, p) == peers_end(part, rule, p + 1),
        peer_groups(part, rule, p) == peer_groups(part, rule, p + 1),
{
}

proof fn lemma_peers_bounds(part: Seq<u32>, rule: spec_fn(u32, u32) -> Order, p: int)
    requires
        0 <= p < part.len(),
    ensures
        0 <= peers_start(part, rule, p) <= p,
        p < peers_end(part, rule, p) <= part.len(),
        1 <= peer_groups(part, rule, p) <= p + 1,
    decreases p, part.len() - p,
{
    lemma_start_bounds(part, rule, p);
    lemma_end_bounds(part, rule, p);
}

proof fn lemma_start_bounds(part: Seq<u32>, rule: spec_fn(u32, u32) -> Order, p: int)
    requires
        0 <= p,
    ensures
        0 <= peers_start(part, rule, p) <= p,
        1 <= peer_groups(part, rule, p) <= p + 1,
    decreases p,
{
    if p > 0 {
        lemma_start_bounds(part, rule, p - 1);
    }
}

proof fn lemma_end_bounds(part: Seq<u32>, rule: spec_fn(u32, u32) -> Order, p: int)
    requires
        0 <= p < part.len(),
    ensures
        p < peers_end(part, rule, p) <= part.len(),
    decreases part.len() - p,
{
    if p + 1 < part.len() {
        lemma_end_bounds(part, rule, p + 1);
    }
}

// --- Aggregates over a frame ------------------------------------------------------------

/// The state of an aggregate.
#[verifier::ext_equal]
pub struct AccV {
    /// How many values have been added.
    pub n: int,
    /// What has been accumulated; NULL before the first value.
    pub acc: Val,
    /// The compensation of a sum of doubles.
    pub comp: u64,
}

pub open spec fn acc_start() -> AccV {
    AccV { n: 0, acc: Val::Null, comp: F_ZERO }
}

/// Whether an aggregate can be computed over a frame: values are only ever added to it.
pub open spec fn window_agg(kind: AggKind) -> bool {
    match kind {
        AggKind::CountStar => true,
        AggKind::Count => true,
        AggKind::Sum => true,
        AggKind::Min => true,
        AggKind::Max => true,
        AggKind::Avg => true,
        AggKind::AnyValue => true,
        AggKind::Last => true,
        AggKind::BoolAnd => true,
        AggKind::BoolOr => true,
        AggKind::CountIf => true,
        AggKind::Product => true,
        _ => false,
    }
}

/// Whether a new value replaces the smallest or largest so far.
pub open spec fn replaces(kind: AggKind, ty: Ty, x: Val, acc: Val) -> bool {
    acc is Null || if kind is Min {
        val_order(x, acc, ty) == Order::Less
    } else {
        val_order(x, acc, ty) == Order::Greater
    }
}

/// The state after one more row.
#[verifier::opaque]
pub open spec fn acc_add(kind: AggKind, col: Option<ColV>, row: int, st: AccV) -> Result<AccV, Code> {
    if kind is CountStar {
        Ok(AccV { n: st.n + 1, ..st })
    } else {
        match col {
            None => Err(Code::WrongArgCount),
            Some(c) => {
                let v = c.cells[row];
                let n = st.n + 1;
                if v is Null {
                    Ok(st)
                } else {
                    match kind {
                        AggKind::Count => Ok(AccV { n, ..st }),
                        AggKind::Sum | AggKind::Avg => match v {
                            Val::F64(x) => match st.acc {
                                Val::F64(s) => {
                                    let t = compensated_step(s, st.comp, x);
                                    Ok(AccV { n, acc: Val::F64(t.0), comp: t.1 })
                                },
                                _ => Ok(AccV { n, acc: Val::F64(x), comp: F_ZERO }),
                            },
                            Val::Bool(_) => Err(Code::TypeMismatch),
                            Val::Bytes(_) => Err(Code::TypeMismatch),
                            _ => match add_int(st.acc, int_of(v)->0) {
                                Ok(acc) => Ok(AccV { n, acc, ..st }),
                                Err(e) => Err(e),
                            },
                        },
                        AggKind::Min | AggKind::Max => Ok(
                            AccV {
                                n,
                                acc: if replaces(kind, c.ty, v, st.acc) {
                                    v
                                } else {
                                    st.acc
                                },
                                ..st
                            },
                        ),
                        AggKind::AnyValue => Ok(
                            AccV {
                                n,
                                acc: if st.acc is Null {
                                    v
                                } else {
                                    st.acc
                                },
                                ..st
                            },
                        ),
                        AggKind::Last => Ok(AccV { n, acc: v, ..st }),
                        AggKind::BoolAnd => match v {
                            Val::Bool(x) => Ok(
                                AccV {
                                    n,
                                    acc: match st.acc {
                                        Val::Bool(a) => Val::Bool(a && x),
                                        _ => Val::Bool(x),
                                    },
                                    ..st
                                },
                            ),
                            _ => Err(Code::TypeMismatch),
                        },
                        AggKind::BoolOr => match v {
                            Val::Bool(x) => Ok(
                                AccV {
                                    n,
                                    acc: match st.acc {
                                        Val::Bool(a) => Val::Bool(a || x),
                                        _ => Val::Bool(x),
                                    },
                                    ..st
                                },
                            ),
                            _ => Err(Code::TypeMismatch),
                        },
                        AggKind::CountIf => {
                            let c0 = match st.acc {
                                Val::I64(c) => c as int,
                                _ => 0,
                            };
                            let hit = v == Val::Bool(true);
                            Ok(
                                AccV {
                                    n,
                                    acc: Val::I64(
                                        (if hit && c0 < i64::MAX {
                                            c0 + 1
                                        } else {
                                            c0
                                        }) as i64,
                                    ),
                                    ..st
                                },
                            )
                        },
                        AggKind::Product => match scaled_double(v, divisor(c.ty)) {
                            None => Err(Code::TypeMismatch),
                            Some(x) => Ok(
                                AccV {
                                    n,
                                    acc: match st.acc {
                                        Val::F64(p) => Val::F64(f_product(p, x)),
                                        _ => Val::F64(x),
                                    },
                                    ..st
                                },
                            ),
                        },
                        _ => Err(Code::UnsupportedFeature),
                    }
                }
            },
        }
    }
}

/// The state after the first `k` rows of a partition.
pub open spec fn acc_over(kind: AggKind, col: Option<ColV>, part: Seq<u32>, k: int) -> Result<AccV, Code>
    decreases k,
{
    if k <= 0 {
        Ok(acc_start())
    } else {
        match acc_over(kind, col, part, k - 1) {
            Err(e) => Err(e),
            Ok(st) => acc_add(kind, col, part[k - 1] as int, st),
        }
    }
}

/// The value of an aggregate.
pub open spec fn acc_value(kind: AggKind, st: AccV, div: u64) -> Val {
    match kind {
        AggKind::CountStar => Val::I64(st.n as i64),
        AggKind::Count => Val::I64(st.n as i64),
        AggKind::Sum => match st.acc {
            Val::F64(s) => Val::F64(compensated_sum(s, st.comp)),
            v => v,
        },
        AggKind::CountIf => match st.acc {
            Val::I64(c) => Val::I64(c),
            _ => Val::I64(0),
        },
        AggKind::Avg => match st.acc {
            Val::I128(s) => Val::F64(f_quotient(f_quotient(f_of_int(s as int), div), f_of_int(st.n))),
            Val::F64(s) => Val::F64(f_quotient(compensated_sum(s, st.comp), f_of_int(st.n))),
            _ => Val::Null,
        },
        _ => st.acc,
    }
}

/// The running state of an aggregate over a frame that only grows.
pub struct Acc {
    pub n: i64,
    pub acc: Value,
    pub comp: u64,
}

impl View for Acc {
    type V = AccV;

    open spec fn view(&self) -> AccV {
        AccV { n: self.n as int, acc: self.acc@, comp: self.comp }
    }
}

impl Acc {
    pub fn new() -> (a: Acc)
        ensures
            a@ == acc_start(),
    {
        Acc { n: 0, acc: Value::Null, comp: F_ZERO }
    }

    /// Adds a row.
    pub fn add(&mut self, kind: AggKind, col: Option<&Vector>, row: usize) -> (r: Result<(), Error>)
        requires
            old(self).n < i64::MAX,
            col matches Some(c) ==> row < c@.len(),
        ensures
            match acc_add(kind, opt_col(col), row as int, old(self)@) {
                Ok(st) => r is Ok && final(self)@ == st,
                Err(c) => r matches Err(e) && e.code == c,
            },
            old(self).n <= final(self).n <= old(self).n + 1,
    {
        reveal(acc_add);
        if kind == AggKind::CountStar {
            self.n = self.n + 1;
            return Ok(());
        }
        let col = match col {
            Some(c) => c,
            None => {
                return Err(Error::new(Code::WrongArgCount));
            },
        };
        if !col.is_valid(row) {
            return Ok(());
        }
        let v: &Value = col.cell(row);
        match kind {
            AggKind::Count => {},
            AggKind::Sum | AggKind::Avg => match v {
                Value::F64(x) => {
                    let t: (u64, u64) = match &self.acc {
                        Value::F64(s) => neumaier_add(*s, self.comp, *x),
                        _ => (*x, F_ZERO),
                    };
                    self.acc = Value::F64(t.0);
                    self.comp = t.1;
                },
                Value::I32(x) => match self.add_int(*x as i128) {
                    Ok(()) => {},
                    Err(e) => {
                        return Err(e);
                    },
                },
                Value::I64(x) => match self.add_int(*x as i128) {
                    Ok(()) => {},
                    Err(e) => {
                        return Err(e);
                    },
                },
                Value::I128(x) => match self.add_int(*x) {
                    Ok(()) => {},
                    Err(e) => {
                        return Err(e);
                    },
                },
                _ => {
                    return Err(Error::new(Code::TypeMismatch));
                },
            },
            AggKind::Min | AggKind::Max => {
                let take: bool = if self.acc.is_null() {
                    true
                } else {
                    let o: Order = order_values(v, &self.acc, col.ty());
                    if kind == AggKind::Min {
                        o == Order::Less
                    } else {
                        o == Order::Greater
                    }
                };
                if take {
                    self.acc = v.dup();
                }
            },
            AggKind::AnyValue => {
                if self.acc.is_null() {
                    self.acc = v.dup();
                }
            },
            AggKind::Last => {
                self.acc = v.dup();
            },
            AggKind::BoolAnd | AggKind::BoolOr => {
                let x: bool = match v {
                    Value::Bool(b) => *b,
                    _ => {
                        return Err(Error::new(Code::TypeMismatch));
                    },
                };
                let y: bool = match &self.acc {
                    Value::Bool(a) => if kind == AggKind::BoolAnd {
                        *a && x
                    } else {
                        *a || x
                    },
                    _ => x,
                };
                self.acc = Value::Bool(y);
            },
            AggKind::CountIf => {
                let hit: bool = match v {
                    Value::Bool(b) => *b,
                    _ => false,
                };
                let c: i64 = match &self.acc {
                    Value::I64(c) => *c,
                    _ => 0,
                };
                self.acc = Value::I64(if hit && c < i64::MAX { c + 1 } else { c });
            },
            AggKind::Product => {
                let x: u64 = match scale_double(v, divisor_of(col.ty())) {
                    Some(x) => x,
                    None => {
                        return Err(Error::new(Code::TypeMismatch));
                    },
                };
                let p: u64 = match &self.acc {
                    Value::F64(p) => times(*p, x),
                    _ => x,
                };
                self.acc = Value::F64(p);
            },
            _ => {
                return Err(Error::new(Code::UnsupportedFeature));
            },
        }
        self.n = self.n + 1;
        Ok(())
    }

    fn add_int(&mut self, x: i128) -> (r: Result<(), Error>)
        ensures
            final(self).n == old(self).n,
            final(self).comp == old(self).comp,
            match add_int(old(self).acc@, x) {
                Ok(acc) => r is Ok && final(self).acc@ == acc,
                Err(c) => (r matches Err(e) && e.code == c) && *final(self) == *old(self),
            },
    {
        let s: i128 = match &self.acc {
            Value::I128(s) => match s.checked_add(x) {
                Some(v) => v,
                None => {
                    return Err(Error::new(Code::ValueOutOfRange));
                },
            },
            _ => x,
        };
        self.acc = Value::I128(s);
        Ok(())
    }

    /// The aggregate's value over what has been added. The state stays as it is.
    pub fn value(&self, kind: AggKind, div: u64) -> (r: Value)
        ensures
            r@ == acc_value(kind, self@, div),
    {
        match kind {
            AggKind::CountStar | AggKind::Count => Value::I64(self.n),
            AggKind::Sum => match &self.acc {
                Value::F64(s) => Value::F64(compensated(*s, self.comp)),
                v => v.dup(),
            },
            AggKind::CountIf => match &self.acc {
                Value::I64(c) => Value::I64(*c),
                _ => Value::I64(0),
            },
            AggKind::Avg => match &self.acc {
                Value::I128(s) => Value::F64(over(over(from_int(*s), div), from_int(self.n as i128))),
                Value::F64(s) => Value::F64(over(compensated(*s, self.comp), from_int(self.n as i128))),
                _ => Value::Null,
            },
            _ => self.acc.dup(),
        }
    }
}

pub open spec fn opt_col(c: Option<&Vector>) -> Option<ColV> {
    match c {
        Some(c) => Some(crate::expr::col_of(*c)),
        None => None,
    }
}

// --- One window function, by rows -------------------------------------------------------

/// The position after the last row of the frame.
pub open spec fn frame_end(w: WindowV, part: Seq<u32>, rule: spec_fn(u32, u32) -> Order, p: int) -> int {
    if w.frame == WindowFrame::WholePartition || w.order_by.len() == 0 {
        part.len() as int
    } else {
        peers_end(part, rule, p)
    }
}

/// The offset of `LAG` and `LEAD`: 1 if it is left out, `None` if it is NULL.
pub open spec fn offset_at(acols: Seq<ColV>, row: int) -> Result<Option<i64>, Code> {
    if acols.len() < 2 {
        Ok(Some(1))
    } else {
        match acols[1].cells[row].as_i64_spec() {
            Some(x) => Ok(Some(x)),
            None => if acols[1].cells[row] is Null {
                Ok(None)
            } else {
                Err(Code::TypeMismatch)
            },
        }
    }
}

/// The value a number of rows back or ahead. Outside the partition it is the default.
pub open spec fn shifted_value(acols: Seq<ColV>, part: Seq<u32>, p: int, back: bool) -> Result<Val, Code> {
    if acols.len() == 0 {
        Err(Code::WrongArgCount)
    } else {
        match offset_at(acols, part[p] as int) {
            Err(e) => Err(e),
            Ok(None) => Ok(Val::Null),
            Ok(Some(off)) => {
                let t = if back {
                    p - off
                } else {
                    p + off
                };
                if 0 <= t < part.len() {
                    Ok(acols[0].cells[part[t] as int])
                } else if acols.len() > 2 {
                    Ok(acols[2].cells[part[p] as int])
                } else {
                    Ok(Val::Null)
                }
            },
        }
    }
}

/// The bucket, from 0, of a position if `n` rows are dealt into `b` buckets: the first
/// `n % b` buckets get one row more than the others.
pub open spec fn bucket_of(p: int, n: int, b: int) -> int {
    let base = n / b;
    let rem = n % b;
    if p < rem * (base + 1) {
        p / (base + 1)
    } else {
        rem + (p - rem * (base + 1)) / base
    }
}

/// The bucket number, from 1. There are no more buckets than rows.
pub open spec fn ntile_value(acols: Seq<ColV>, part: Seq<u32>, p: int) -> Val {
    if acols.len() == 0 {
        Val::Null
    } else {
        match acols[0].cells[part[p] as int].as_i64_spec() {
            None => Val::Null,
            Some(b) => if b < 1 {
                Val::Null
            } else if b < part.len() {
                Val::I64((bucket_of(p, part.len() as int, b as int) + 1) as i64)
            } else {
                Val::I64((p + 1) as i64)
            },
        }
    }
}

/// The value of a window function at a position of a sorted partition, before it is
/// adapted to the result's type.
pub open spec fn raw_value(
    w: WindowV,
    acols: Seq<ColV>,
    part: Seq<u32>,
    rule: spec_fn(u32, u32) -> Order,
    p: int,
) -> Result<Val, Code> {
    let n = part.len() as int;
    match w.kind {
        WindowKind::RowNumber => Ok(Val::I64((p + 1) as i64)),
        WindowKind::Rank => Ok(Val::I64((peers_start(part, rule, p) + 1) as i64)),
        WindowKind::DenseRank => Ok(Val::I64(peer_groups(part, rule, p) as i64)),
        WindowKind::Lag => shifted_value(acols, part, p, true),
        WindowKind::Lead => shifted_value(acols, part, p, false),
        WindowKind::FirstValue => if acols.len() == 0 {
            Err(Code::WrongArgCount)
        } else {
            Ok(acols[0].cells[part[0] as int])
        },
        WindowKind::LastValue => if acols.len() == 0 {
            Err(Code::WrongArgCount)
        } else {
            Ok(acols[0].cells[part[frame_end(w, part, rule, p) - 1] as int])
        },
        WindowKind::NthValue => if acols.len() < 2 {
            Err(Code::WrongArgCount)
        } else {
            match acols[1].cells[part[p] as int].as_i64_spec() {
                None => Ok(Val::Null),
                Some(k) => if 1 <= k <= frame_end(w, part, rule, p) {
                    Ok(acols[0].cells[part[k - 1] as int])
                } else {
                    Ok(Val::Null)
                },
            }
        },
        WindowKind::NTile => Ok(ntile_value(acols, part, p)),
        WindowKind::PercentRank => if n > 1 {
            Ok(Val::F64(f_quotient(f_of_int(peers_start(part, rule, p)), f_of_int(n - 1))))
        } else {
            Ok(Val::F64(F_ZERO))
        },
        WindowKind::CumeDist => Ok(Val::F64(f_quotient(f_of_int(peers_end(part, rule, p)), f_of_int(n)))),
        WindowKind::Agg(kind) => {
            let col = if acols.len() > 0 {
                Some(acols[0])
            } else {
                None
            };
            let div = if w.args.len() > 0 {
                divisor(w.args[0].result_ty)
            } else {
                F_ONE
            };
            if !window_agg(kind) {
                Err(Code::UnsupportedFeature)
            } else {
                match acc_over(kind, col, part, frame_end(w, part, rule, p)) {
                    Err(e) => Err(e),
                    Ok(st) => Ok(acc_value(kind, st, div)),
                }
            }
        },
    }
}

/// The value of a window function at a position of a sorted partition.
pub open spec fn value_at(
    w: WindowV,
    acols: Seq<ColV>,
    part: Seq<u32>,
    rule: spec_fn(u32, u32) -> Order,
    p: int,
) -> Result<Val, Code> {
    match raw_value(w, acols, part, rule, p) {
        Err(e) => Err(e),
        Ok(v) => adapted(w.result_ty, v),
    }
}

/// The first `n` rows that have a key, in order.
pub open spec fn members(keys: Seq<Seq<u8>>, key: Seq<u8>, n: int) -> Seq<u32>
    decreases n,
{
    if n <= 0 {
        Seq::empty()
    } else if keys[n - 1] == key {
        members(keys, key, n - 1).push((n - 1) as u32)
    } else {
        members(keys, key, n - 1)
    }
}

/// The partition of a row, sorted.
pub open spec fn partition_of(w: WindowV, pcols: Seq<ColV>, kcols: Seq<ColV>, n: nat, r: int) -> Seq<u32> {
    let keys = col_keys(pcols, n);
    arranged(members(keys, keys[r], n as int), row_rule(w.order_by, kcols))
}

/// The value of a window function for a row, given the columns of its expressions.
pub open spec fn window_value(
    w: WindowV,
    pcols: Seq<ColV>,
    kcols: Seq<ColV>,
    acols: Seq<ColV>,
    n: nat,
    r: int,
) -> Result<Val, Code> {
    let part = partition_of(w, pcols, kcols, n, r);
    value_at(w, acols, part, row_rule(w.order_by, kcols), part.index_of(r as u32))
}

/// The columns of a window function's expressions: partition keys, sort keys, arguments.
pub open spec fn window_columns(w: WindowV, tys: Seq<Ty>, rows: Seq<Seq<Val>>) -> Result<
    (Seq<ColV>, Seq<ColV>, Seq<ColV>),
    Code,
> {
    match programs_value(w.partition_by, tys, rows, w.partition_by.len() as int) {
        Err(e) => Err(e),
        Ok(pcols) => match sort_keys_value(w.order_by, tys, rows, w.order_by.len() as int) {
            Err(e) => Err(e),
            Ok(kcols) => match programs_value(w.args, tys, rows, w.args.len() as int) {
                Err(e) => Err(e),
                Ok(acols) => Ok((pcols, kcols, acols)),
            },
        },
    }
}

/// The rows of a partition are those with the key, each once.
pub(crate) proof fn lemma_members(keys: Seq<Seq<u8>>, key: Seq<u8>, n: int)
    requires
        0 <= n <= keys.len(),
        n <= u32::MAX,
    ensures
        members(keys, key, n).len() <= n,
        forall|i: int| 0 <= i < members(keys, key, n).len() ==> (#[trigger] members(keys, key, n)[i]) < n,
        forall|i: int, j: int|
            0 <= i < j < members(keys, key, n).len() ==> (#[trigger] members(keys, key, n)[i]) < (#[trigger] members(
                keys,
                key,
                n,
            )[j]),
        forall|i: int| 0 <= i < members(keys, key, n).len() ==> keys[(#[trigger] members(keys, key, n)[i]) as int] == key,
        forall|r: int| 0 <= r < n && keys[r] == key ==> members(keys, key, n).contains(#[trigger] (r as u32)),
    decreases n,
{
    if n > 0 {
        lemma_members(keys, key, n - 1);
        let before = members(keys, key, n - 1);
        let now = members(keys, key, n);
        assert forall|r: int| 0 <= r < n && keys[r] == key implies now.contains(#[trigger] (r as u32)) by {
            if r < n - 1 {
                assert(before.contains(r as u32));
                let i = before.index_of(r as u32);
                assert(now[i] == r as u32);
            } else {
                assert(now[now.len() - 1] == r as u32);
            }
        }
    }
}

/// A sorted partition holds the rows with its key, each once.
pub proof fn partitions_hold_their_rows_once(
    keys: Seq<Seq<u8>>,
    key: Seq<u8>,
    n: int,
    rule: spec_fn(u32, u32) -> Order,
    dom: spec_fn(u32) -> bool,
)
    requires
        0 <= n <= keys.len(),
        n <= u32::MAX,
        crate::exec::ranking::orders(rule, dom),
        forall|r: u32| r < n ==> #[trigger] dom(r),
    ensures
        arranged(members(keys, key, n), rule).len() == members(keys, key, n).len(),
        forall|i: int|
            0 <= i < members(keys, key, n).len() ==> (#[trigger] arranged(members(keys, key, n), rule)[i]) < n
                && keys[arranged(members(keys, key, n), rule)[i] as int] == key,
        forall|i: int, j: int|
            0 <= i < j < members(keys, key, n).len() ==> (#[trigger] arranged(members(keys, key, n), rule)[i])
                != (#[trigger] arranged(members(keys, key, n), rule)[j]),
        forall|r: int|
            0 <= r < n && keys[r] == key ==> arranged(members(keys, key, n), rule).contains(#[trigger] (r as u32)),
{
    broadcast use vstd::multiset::group_multiset_axioms;
    broadcast use vstd::seq_lib::group_to_multiset_ensures;

    let m = members(keys, key, n);
    let t = arranged(m, rule);
    lemma_members(keys, key, n);
    assert forall|i: int| 0 <= i < m.len() implies dom(#[trigger] m[i]) by {}
    arranging_sorts(m, rule, dom);
    crate::exec::ranking::arranging_is_stable(m, rule, dom, |x: u32| x as int);
    assert forall|i: int| 0 <= i < m.len() implies (#[trigger] t[i]) < n && keys[t[i] as int] == key by {
        assert(t.contains(t[i]));
        assert(t.to_multiset().count(t[i]) > 0);
        assert(m.contains(t[i]));
        let k = m.index_of(t[i]);
        assert(m[k] == t[i]);
    }
    assert forall|i: int, j: int| 0 <= i < j < m.len() implies (#[trigger] t[i]) != (#[trigger] t[j]) by {
        if t[i] == t[j] {
            assert(dom(t[i]));
            assert(rule(t[i], t[i]) == rule(t[i], t[i]).flipped());
            assert(rule(t[i], t[j]) == Order::Equal);
            assert(t[i] < t[j]);
        }
    }
    assert forall|r: int| 0 <= r < n && keys[r] == key implies t.contains(#[trigger] (r as u32)) by {
        assert(m.contains(r as u32));
        assert(m.to_multiset().count(r as u32) > 0);
        assert(t.to_multiset().count(r as u32) > 0);
    }
}

// --- One window function, computed --------------------------------------------------------

/// A sorted partition with the peer group of each position.
pub struct Framed {
    pub part: Vec<u32>,
    /// The first peer.
    pub starts: Vec<usize>,
    /// The position after the last peer.
    pub ends: Vec<usize>,
    /// The number of groups so far.
    pub groups: Vec<usize>,
}

impl Framed {
    pub open spec fn wf(&self, rule: spec_fn(u32, u32) -> Order, rows: int) -> bool {
        let n = self.part@.len();
        &&& n == self.starts@.len() == self.ends@.len() == self.groups@.len()
        &&& n <= rows <= MAX_ROWS
        &&& forall|p: int| 0 <= p < n ==> #[trigger] self.part@[p] < rows
        &&& forall|p: int| 0 <= p < n ==> (#[trigger] self.starts@[p]) == peers_start(self.part@, rule, p)
        &&& forall|p: int| 0 <= p < n ==> (#[trigger] self.ends@[p]) == peers_end(self.part@, rule, p)
        &&& forall|p: int| 0 <= p < n ==> (#[trigger] self.groups@[p]) == peer_groups(self.part@, rule, p)
    }
}

/// Finds the peers in a sorted partition.
fn find_peers(o: &KeyedRows, part: Vec<u32>) -> (f: Framed)
    requires
        o.wf(),
        o.rows <= MAX_ROWS,
        part@.len() <= o.rows,
        forall|p: int| 0 <= p < part@.len() ==> #[trigger] part@[p] < o.rows,
    ensures
        f.wf(o.rule(), o.rows as int),
        f.part@ == part@,
{
    let ghost rule = o.rule();
    let n: usize = part.len();
    let mut starts: Vec<usize> = Vec::new();
    let mut groups: Vec<usize> = Vec::new();
    let mut p: usize = 0;
    while p < n
        invariant
            o.wf(),
            rule == o.rule(),
            p <= n,
            n == part@.len(),
            n <= MAX_ROWS,
            forall|q: int| 0 <= q < part@.len() ==> #[trigger] part@[q] < o.rows,
            starts@.len() == p,
            groups@.len() == p,
            forall|q: int| 0 <= q < p ==> (#[trigger] starts@[q]) == peers_start(part@, rule, q),
            forall|q: int| 0 <= q < p ==> (#[trigger] groups@[q]) == peer_groups(part@, rule, q),
        decreases n - p,
    {
        if p == 0 {
            starts.push(0);
            groups.push(1);
        } else {
            assert(part@[p - 1] < o.rows && part@[p as int] < o.rows);
            let s: usize = starts[p - 1];
            let g: usize = groups[p - 1];
            proof {
                lemma_start_bounds(part@, rule, p - 1);
            }
            if o.order_rows(part[p - 1], part[p]) == Order::Equal {
                starts.push(s);
                groups.push(g);
            } else {
                starts.push(p);
                groups.push(g + 1);
            }
        }
        p = p + 1;
    }
    let mut back: Vec<usize> = Vec::new();
    let mut k: usize = 0;
    while k < n
        invariant
            o.wf(),
            rule == o.rule(),
            k <= n,
            n == part@.len(),
            forall|q: int| 0 <= q < part@.len() ==> #[trigger] part@[q] < o.rows,
            back@.len() == k,
            forall|j: int| 0 <= j < k ==> (#[trigger] back@[j]) == peers_end(part@, rule, n - 1 - j),
        decreases n - k,
    {
        let q: usize = n - 1 - k;
        if k == 0 {
            back.push(n);
        } else {
            assert(part@[q as int] < o.rows && part@[q + 1] < o.rows);
            if o.order_rows(part[q], part[q + 1]) == Order::Equal {
                let e: usize = back[k - 1];
                back.push(e);
            } else {
                back.push(q + 1);
            }
        }
        k = k + 1;
    }
    let mut ends: Vec<usize> = Vec::new();
    let mut p: usize = 0;
    while p < n
        invariant
            p <= n,
            n == part@.len(),
            back@.len() == n,
            forall|j: int| 0 <= j < n ==> (#[trigger] back@[j]) == peers_end(part@, rule, n - 1 - j),
            ends@.len() == p,
            forall|q: int| 0 <= q < p ==> (#[trigger] ends@[q]) == peers_end(part@, rule, q),
        decreases n - p,
    {
        ends.push(back[n - 1 - p]);
        p = p + 1;
    }
    Framed { part, starts, ends, groups }
}

/// `LAG` and `LEAD` at a position.
fn eval_shift(part: &Vec<u32>, acols: &Vec<Vector>, rows: usize, p: usize, back: bool) -> (r: Result<Value, Error>)
    requires
        p < part@.len(),
        part@.len() <= rows <= MAX_ROWS,
        cols_wf(acols@, rows as int),
        forall|q: int| 0 <= q < part@.len() ==> #[trigger] part@[q] < rows,
    ensures
        match r {
            Ok(v) => shifted_value(cols_of(acols@), part@, p as int, back) == Ok::<Val, Code>(v@),
            Err(e) => shifted_value(cols_of(acols@), part@, p as int, back) == Err::<Val, Code>(e.code),
        },
{
    if acols.len() == 0 {
        return Err(Error::new(Code::WrongArgCount));
    }
    let row: usize = part[p] as usize;
    let off: i64 = if acols.len() > 1 {
        assert(acols@[1]@.len() == rows);
        match acols[1].cell(row).as_i64() {
            Some(x) => x,
            None => {
                if acols[1].is_valid(row) {
                    return Err(Error::new(Code::TypeMismatch));
                }
                return Ok(Value::Null);
            },
        }
    } else {
        1
    };
    let target: Option<i64> = if back {
        (p as i64).checked_sub(off)
    } else {
        (p as i64).checked_add(off)
    };
    if let Some(t) = target {
        if t >= 0 && t < part.len() as i64 {
            assert(acols@[0]@.len() == rows);
            assert(part@[t as int] < rows);
            return Ok(acols[0].value_at(part[t as usize] as usize));
        }
    }
    if acols.len() > 2 {
        assert(acols@[2]@.len() == rows);
        return Ok(acols[2].value_at(row));
    }
    Ok(Value::Null)
}

/// `NTILE` at a position.
fn eval_ntile(part: &Vec<u32>, acols: &Vec<Vector>, rows: usize, p: usize) -> (r: Value)
    requires
        p < part@.len(),
        part@.len() <= rows <= MAX_ROWS,
        cols_wf(acols@, rows as int),
        forall|q: int| 0 <= q < part@.len() ==> #[trigger] part@[q] < rows,
    ensures
        r@ == ntile_value(cols_of(acols@), part@, p as int),
{
    if acols.len() == 0 {
        return Value::Null;
    }
    assert(acols@[0]@.len() == rows);
    let n: u64 = part.len() as u64;
    let b: i64 = match acols[0].cell(part[p] as usize).as_i64() {
        Some(b) => b,
        None => {
            return Value::Null;
        },
    };
    if b < 1 {
        return Value::Null;
    }
    let at: u64 = p as u64;
    if b as u64 >= n {
        return Value::I64(at as i64 + 1);
    }
    let b: u64 = b as u64;
    let base: u64 = n / b;
    let rem: u64 = n % b;
    proof {
        assert(base <= n) by (nonlinear_arith)
            requires
                base == n / b,
                b >= 1,
        ;
        assert(base >= 1) by (nonlinear_arith)
            requires
                base == n / b,
                1 <= b <= n,
        ;
        assert(rem * (base + 1) <= 0xffff_ffff * 0x1_0000_0000) by (nonlinear_arith)
            requires
                0 <= rem <= 0xffff_ffff,
                0 <= base + 1 <= 0x1_0000_0000,
        ;
    }
    let big: u64 = rem * (base + 1);
    let idx: u64 = if at < big {
        at / (base + 1)
    } else {
        rem + (at - big) / base
    };
    proof {
        if at < big {
            assert(at / (base + 1) as u64 <= at) by (nonlinear_arith)
                requires
                    base >= 1,
                    base + 1 <= u64::MAX,
            ;
        } else {
            let d: u64 = (at - big) as u64;
            assert(d / base <= d) by (nonlinear_arith)
                requires
                    base >= 1,
            ;
        }
        assert(idx == bucket_of(p as int, n as int, b as int));
    }
    Value::I64(idx as i64 + 1)
}

/// The position after the last row of the frame.
fn frame_limit(
    spec: &WindowSpec,
    f: &Framed,
    p: usize,
    Ghost(rule): Ghost<spec_fn(u32, u32) -> Order>,
    Ghost(rows): Ghost<int>,
) -> (e: usize)
    requires
        f.wf(rule, rows),
        p < f.part@.len(),
    ensures
        e == frame_end(spec@, f.part@, rule, p as int),
        p < e <= f.part@.len(),
{
    proof {
        lemma_end_bounds(f.part@, rule, p as int);
    }
    if spec.frame == WindowFrame::WholePartition || spec.order_by.len() == 0 {
        f.part.len()
    } else {
        f.ends[p]
    }
}

/// A window function that is not an aggregate, at a position.
fn eval_position(
    spec: &WindowSpec,
    f: &Framed,
    acols: &Vec<Vector>,
    rows: usize,
    p: usize,
    Ghost(rule): Ghost<spec_fn(u32, u32) -> Order>,
) -> (r: Result<Value, Error>)
    requires
        f.wf(rule, rows as int),
        p < f.part@.len(),
        cols_wf(acols@, rows as int),
        !(spec.kind is Agg),
    ensures
        match r {
            Ok(v) => raw_value(spec@, cols_of(acols@), f.part@, rule, p as int) == Ok::<Val, Code>(v@),
            Err(e) => raw_value(spec@, cols_of(acols@), f.part@, rule, p as int) == Err::<Val, Code>(e.code),
        },
{
    let n: usize = f.part.len();
    proof {
        lemma_peers_bounds(f.part@, rule, p as int);
        assert(f.part@[p as int] < rows && f.part@[0] < rows && f.part@[n - 1] < rows);
        assert(acols@.len() > 0 ==> acols@[0]@.len() == rows);
        assert(acols@.len() > 1 ==> acols@[1]@.len() == rows);
    }
    match spec.kind {
        WindowKind::RowNumber => Ok(Value::I64(p as i64 + 1)),
        WindowKind::Rank => Ok(Value::I64(f.starts[p] as i64 + 1)),
        WindowKind::DenseRank => Ok(Value::I64(f.groups[p] as i64)),
        WindowKind::Lag => eval_shift(&f.part, acols, rows, p, true),
        WindowKind::Lead => eval_shift(&f.part, acols, rows, p, false),
        WindowKind::FirstValue => {
            if acols.len() == 0 {
                return Err(Error::new(Code::WrongArgCount));
            }
            Ok(acols[0].value_at(f.part[0] as usize))
        },
        WindowKind::LastValue => {
            if acols.len() == 0 {
                return Err(Error::new(Code::WrongArgCount));
            }
            let e: usize = frame_limit(spec, f, p, Ghost(rule), Ghost(rows as int));
            assert(f.part@[e - 1] < rows);
            Ok(acols[0].value_at(f.part[e - 1] as usize))
        },
        WindowKind::NthValue => {
            if acols.len() < 2 {
                return Err(Error::new(Code::WrongArgCount));
            }
            let k: i64 = match acols[1].cell(f.part[p] as usize).as_i64() {
                Some(k) => k,
                None => {
                    return Ok(Value::Null);
                },
            };
            let e: usize = frame_limit(spec, f, p, Ghost(rule), Ghost(rows as int));
            if k >= 1 && k <= e as i64 {
                assert(f.part@[k - 1] < rows);
                Ok(acols[0].value_at(f.part[(k - 1) as usize] as usize))
            } else {
                Ok(Value::Null)
            }
        },
        WindowKind::NTile => Ok(eval_ntile(&f.part, acols, rows, p)),
        WindowKind::PercentRank => {
            if n > 1 {
                Ok(Value::F64(over(from_int(f.starts[p] as i128), from_int(n as i128 - 1))))
            } else {
                Ok(Value::F64(F_ZERO))
            }
        },
        WindowKind::CumeDist => Ok(Value::F64(over(from_int(f.ends[p] as i128), from_int(n as i128)))),
        WindowKind::Agg(_) => Err(Error::new(Code::Internal)),
    }
}

fn can_window(kind: AggKind) -> (r: bool)
    ensures
        r == window_agg(kind),
{
    match kind {
        AggKind::CountStar
        | AggKind::Count
        | AggKind::Sum
        | AggKind::Min
        | AggKind::Max
        | AggKind::Avg
        | AggKind::AnyValue
        | AggKind::Last
        | AggKind::BoolAnd
        | AggKind::BoolOr
        | AggKind::CountIf
        | AggKind::Product => true,
        _ => false,
    }
}

proof fn lemma_acc_stays_failed(kind: AggKind, col: Option<ColV>, part: Seq<u32>, k: int, n: int)
    requires
        0 <= k <= n,
        acc_over(kind, col, part, k) is Err,
    ensures
        acc_over(kind, col, part, n) == acc_over(kind, col, part, k),
    decreases n - k,
{
    if k < n {
        lemma_acc_stays_failed(kind, col, part, k + 1, n);
    }
}

/// The rows of a frame reach no further than those of a later position's.
proof fn lemma_frames_grow(w: WindowV, part: Seq<u32>, rule: spec_fn(u32, u32) -> Order, p: int)
    requires
        0 <= p,
        p + 1 < part.len(),
    ensures
        frame_end(w, part, rule, p) <= frame_end(w, part, rule, p + 1),
{
    lemma_end_bounds(part, rule, p);
    lemma_end_bounds(part, rule, p + 1);
}

/// The values of an aggregate at each position of a partition. A frame only ever grows, so
/// each row is added once.
fn eval_aggregate(
    spec: &WindowSpec,
    kind: AggKind,
    f: &Framed,
    acols: &Vec<Vector>,
    rows: usize,
    Ghost(rule): Ghost<spec_fn(u32, u32) -> Order>,
) -> (r: Result<Vec<Value>, Error>)
    requires
        f.wf(rule, rows as int),
        cols_wf(acols@, rows as int),
        acols@.len() == spec.args@.len(),
        spec.kind == WindowKind::Agg(kind),
        f.part@.len() > 0,
    ensures
        match r {
            Ok(vs) => vs@.len() == f.part@.len() && forall|p: int|
                0 <= p < f.part@.len() ==> raw_value(spec@, cols_of(acols@), f.part@, rule, p) == Ok::<Val, Code>(
                    (#[trigger] vs@[p])@,
                ),
            Err(e) => exists|p: int|
                0 <= p < f.part@.len() && #[trigger] raw_value(spec@, cols_of(acols@), f.part@, rule, p) == Err::<Val, Code>(
                    e.code,
                ),
        },
{
    let ghost w = spec@;
    let ghost cs = cols_of(acols@);
    let ghost part = f.part@;
    if !can_window(kind) {
        assert(raw_value(w, cs, part, rule, 0) == Err::<Val, Code>(Code::UnsupportedFeature));
        return Err(Error::new(Code::UnsupportedFeature));
    }
    let src: Option<&Vector> = if acols.len() > 0 {
        Some(&acols[0])
    } else {
        None
    };
    let div: u64 = if spec.args.len() > 0 {
        divisor_of(spec.args[0].result_ty)
    } else {
        F_ONE
    };
    let ghost col = opt_col(src);
    assert(acols@.len() > 0 ==> cs[0] == crate::expr::col_of(acols@[0]));
    assert(spec.args@.len() > 0 ==> w.args[0] == spec.args@[0]@);
    let n: usize = f.part.len();
    let mut acc = Acc::new();
    let mut added: usize = 0;
    let mut vs: Vec<Value> = Vec::new();
    let mut p: usize = 0;
    while p < n
        invariant
            w == spec@,
            cs == cols_of(acols@),
            part == f.part@,
            n == part.len(),
            f.wf(rule, rows as int),
            cols_wf(acols@, rows as int),
            col == opt_col(src),
            src matches Some(c) ==> c@.len() == rows,
            acols@.len() > 0 ==> src == Some(&acols@[0]) && cs[0] == crate::expr::col_of(acols@[0]) && cs.len() > 0,
            acols@.len() == 0 ==> src is None && cs.len() == 0,
            div == if w.args.len() > 0 {
                divisor(w.args[0].result_ty)
            } else {
                F_ONE
            },
            w.kind == WindowKind::Agg(kind),
            window_agg(kind),
            p <= n,
            added <= n,
            acc.n <= added,
            p > 0 ==> added == frame_end(w, part, rule, p - 1),
            p == 0 ==> added == 0,
            acc_over(kind, col, part, added as int) == Ok::<AccV, Code>(acc@),
            vs@.len() == p,
            forall|q: int| 0 <= q < p ==> raw_value(w, cs, part, rule, q) == Ok::<Val, Code>((#[trigger] vs@[q])@),
        decreases n - p,
    {
        let e: usize = frame_limit(spec, f, p, Ghost(rule), Ghost(rows as int));
        proof {
            if p > 0 {
                lemma_frames_grow(w, part, rule, p - 1);
            }
        }
        while added < e
            invariant
                part == f.part@,
                f.wf(rule, rows as int),
                col == opt_col(src),
                src matches Some(c) ==> c@.len() == rows,
                w.kind == WindowKind::Agg(kind),
                window_agg(kind),
                cs.len() > 0 ==> col == Some(cs[0]),
                cs.len() == 0 ==> col is None,
                w == spec@,
                cs == cols_of(acols@),
                p < part.len(),
                e == frame_end(w, part, rule, p as int),
                added <= e <= part.len(),
                acc.n <= added,
                acc_over(kind, col, part, added as int) == Ok::<AccV, Code>(acc@),
            decreases e - added,
        {
            assert(part[added as int] < rows);
            match acc.add(kind, src, f.part[added] as usize) {
                Ok(()) => {},
                Err(x) => {
                    proof {
                        assert(acc_over(kind, col, part, added + 1) == Err::<AccV, Code>(x.code));
                        lemma_acc_stays_failed(kind, col, part, added + 1, e as int);
                        assert(raw_value(w, cs, part, rule, p as int) == Err::<Val, Code>(x.code));
                    }
                    return Err(x);
                },
            }
            added = added + 1;
        }
        vs.push(acc.value(kind, div));
        p = p + 1;
    }
    Ok(vs)
}

/// Computes a window function on a sorted partition and puts the values where its rows are.
fn eval_partition(
    spec: &WindowSpec,
    f: &Framed,
    acols: &Vec<Vector>,
    rows: usize,
    out: &mut Vec<Value>,
    Ghost(rule): Ghost<spec_fn(u32, u32) -> Order>,
) -> (r: Result<(), Error>)
    requires
        f.wf(rule, rows as int),
        cols_wf(acols@, rows as int),
        acols@.len() == spec.args@.len(),
        old(out)@.len() == rows,
        forall|i: int, j: int| 0 <= i < j < f.part@.len() ==> (#[trigger] f.part@[i]) != (#[trigger] f.part@[j]),
    ensures
        final(out)@.len() == rows,
        match r {
            Ok(_) => {
                &&& forall|p: int|
                    0 <= p < f.part@.len() ==> value_at(spec@, cols_of(acols@), f.part@, rule, p) == Ok::<Val, Code>(
                        final(out)@[(#[trigger] f.part@[p]) as int]@,
                    ) && final(out)@[f.part@[p] as int]@.fits(spec.result_ty.phys())
                &&& forall|q: int|
                    0 <= q < rows && !f.part@.contains(q as u32) ==> #[trigger] final(out)@[q] == old(out)@[q]
            },
            Err(e) => exists|p: int|
                0 <= p < f.part@.len() && #[trigger] value_at(spec@, cols_of(acols@), f.part@, rule, p) == Err::<Val, Code>(
                    e.code,
                ),
        },
{
    let n: usize = f.part.len();
    if n == 0 {
        return Ok(());
    }
    let vals: Option<Vec<Value>> = match spec.kind {
        WindowKind::Agg(kind) => match eval_aggregate(spec, kind, f, acols, rows, Ghost(rule)) {
            Ok(vs) => Some(vs),
            Err(e) => {
                proof {
                    let p = choose|p: int|
                        0 <= p < f.part@.len() && #[trigger] raw_value(spec@, cols_of(acols@), f.part@, rule, p) == Err::<
                            Val,
                            Code,
                        >(e.code);
                    assert(value_at(spec@, cols_of(acols@), f.part@, rule, p) == Err::<Val, Code>(e.code));
                }
                return Err(e);
            },
        },
        _ => None,
    };
    let ghost before = out@;
    let mut p: usize = 0;
    while p < n
        invariant
            before == old(out)@,
            n == f.part@.len(),
            f.wf(rule, rows as int),
            cols_wf(acols@, rows as int),
            forall|i: int, j: int| 0 <= i < j < f.part@.len() ==> (#[trigger] f.part@[i]) != (#[trigger] f.part@[j]),
            match vals {
                Some(vs) => vs@.len() == n && forall|q: int|
                    0 <= q < n ==> raw_value(spec@, cols_of(acols@), f.part@, rule, q) == Ok::<Val, Code>(
                        (#[trigger] vs@[q])@,
                    ),
                None => !(spec.kind is Agg),
            },
            p <= n,
            out@.len() == rows,
            before.len() == rows,
            forall|q: int|
                0 <= q < p ==> value_at(spec@, cols_of(acols@), f.part@, rule, q) == Ok::<Val, Code>(
                    out@[(#[trigger] f.part@[q]) as int]@,
                ) && out@[f.part@[q] as int]@.fits(spec.result_ty.phys()),
            forall|q: int|
                0 <= q < rows && !f.part@.contains(q as u32) ==> #[trigger] out@[q] == before[q],
        decreases n - p,
    {
        let raw: Value = match &vals {
            Some(vs) => vs[p].dup(),
            None => match eval_position(spec, f, acols, rows, p, Ghost(rule)) {
                Ok(v) => v,
                Err(e) => {
                    assert(value_at(spec@, cols_of(acols@), f.part@, rule, p as int) == Err::<Val, Code>(e.code));
                    return Err(e);
                },
            },
        };
        match adapt(spec.result_ty, &raw) {
            Ok(v) => {
                let row: usize = f.part[p] as usize;
                assert(f.part@[p as int] < rows);
                let ghost prev = out@;
                out.set(row, v);
                proof {
                    assert(f.part@.contains(f.part@[p as int]));
                    assert forall|q: int| 0 <= q < rows && !f.part@.contains(q as u32) implies #[trigger] out@[q]
                        == before[q] by {
                        assert(q != row);
                        assert(prev[q] == before[q]);
                    }
                    assert forall|q: int| 0 <= q < p + 1 implies value_at(spec@, cols_of(acols@), f.part@, rule, q)
                        == Ok::<Val, Code>(out@[(#[trigger] f.part@[q]) as int]@) && out@[f.part@[q] as int]@.fits(
                        spec.result_ty.phys(),
                    ) by {
                        assert(f.part@[q] < rows);
                        if q < p {
                            assert(f.part@[q] != f.part@[p as int]);
                        }
                    }
                }
            },
            Err(e) => {
                assert(value_at(spec@, cols_of(acols@), f.part@, rule, p as int) == Err::<Val, Code>(e.code));
                return Err(e);
            },
        }
        p = p + 1;
    }
    Ok(())
}

/// Deals the rows out by their partition keys, in the order in which the keys come up; `None` if
/// there are more keys than can be told apart.
fn split_rows(pcols: &Vec<Vector>, rows: usize) -> (r: Option<(Vec<Vec<u32>>, Ghost<Seq<Seq<u8>>>)>)
    requires
        cols_wf(pcols@, rows as int),
        rows <= MAX_ROWS,
    ensures
        match r {
            Some((parts, names)) => {
                &&& parts@.len() == names@.len()
                &&& forall|s: int|
                    0 <= s < parts@.len() ==> (#[trigger] parts@[s])@ == members(
                        col_keys(cols_of(pcols@), rows as nat),
                        names@[s],
                        rows as int,
                    )
                &&& forall|i: int|
                    0 <= i < rows ==> names@.contains(#[trigger] col_keys(cols_of(pcols@), rows as nat)[i])
                &&& forall|s: int, t: int| 0 <= s < t < names@.len() ==> (#[trigger] names@[s]) != (#[trigger] names@[t])
            },
            None => rows > max_keys(),
        },
{
    let ghost keys = col_keys(cols_of(pcols@), rows as nat);
    let refs = column_refs(pcols);
    let mut index = HashIndex::new();
    let mut parts: Vec<Vec<u32>> = Vec::new();
    let mut key: Vec<u8> = Vec::new();
    let mut i: usize = 0;
    while i < rows
        invariant
            i <= rows,
            rows <= MAX_ROWS,
            cols_wf(pcols@, rows as int),
            refs@.unref() == pcols@,
            refs@.len() == pcols@.len(),
            forall|c: int| 0 <= c < refs@.len() ==> *(#[trigger] refs@[c]) == pcols@[c],
            keys == col_keys(cols_of(pcols@), rows as nat),
            index.wf(),
            index@.len() <= i,
            parts@.len() == index@.len(),
            forall|s: int| 0 <= s < parts@.len() ==> (#[trigger] parts@[s])@ == members(keys, index@[s].0, i as int),
            forall|s: int| 0 <= s < index@.len() ==> (#[trigger] index@[s]).1 == s,
            forall|j: int| 0 <= j < i ==> has_key(index@, #[trigger] keys[j]),
        decreases rows - i,
    {
        assert forall|c: int| 0 <= c < refs@.len() implies i < (#[trigger] refs@[c])@.len() by {
            assert(pcols@[c]@.len() == rows);
        }
        encode_key(refs.as_slice(), i, &mut key);
        proof {
            lemma_col_key(pcols@, rows as nat, i as int);
        }
        assert(key@ == keys[i as int]);
        let ghost e0 = index@;
        let ghost parts0 = parts@;
        if index.len() >= max_keys() {
            return None;
        }
        let (slot, is_new) = index.get_or_insert(key.as_slice());
        if is_new {
            parts.push(Vec::new());
            proof {
                lemma_no_members(keys, key@, i as int, e0);
            }
        }
        let ghost parts1 = parts@;
        assert(index@[slot as int].0 == key@ && slot < parts@.len()) by {
            if !is_new {
                assert(index@[entry_of(e0, key@)].1 == entry_of(e0, key@));
            }
        }
        let at: usize = slot as usize;
        parts[at].push(i as u32);
        proof {
            keys_are_distinct(index);
            assert forall|s: int| 0 <= s < parts@.len() implies (#[trigger] parts@[s])@ == members(
                keys,
                index@[s].0,
                i + 1,
            ) by {
                if s != slot {
                    assert(index@[s].0 != index@[slot as int].0);
                    assert(parts@[s] == parts1[s]);
                    assert(parts0[s]@ == members(keys, e0[s].0, i as int));
                } else {
                    if !is_new {
                        assert(parts0[s]@ == members(keys, e0[s].0, i as int));
                    }
                }
            }
            assert forall|j: int| 0 <= j < i + 1 implies has_key(index@, #[trigger] keys[j]) by {
                if j < i {
                    let t = entry_of(e0, keys[j]);
                    assert(index@[t].0 == keys[j]);
                } else {
                    assert(index@[slot as int].0 == keys[j]);
                }
            }
        }
        i = i + 1;
    }
    let ghost names = Seq::new(index@.len(), |s: int| index@[s].0);
    proof {
        keys_are_distinct(index);
        assert forall|j: int| 0 <= j < rows implies names.contains(#[trigger] keys[j]) by {
            assert(has_key(index@, keys[j]));
            let t = entry_of(index@, keys[j]);
            assert(names[t] == keys[j]);
        }
    }
    Some((parts, Ghost(names)))
}

proof fn lemma_no_members(keys: Seq<Seq<u8>>, key: Seq<u8>, n: int, e: Seq<(Seq<u8>, u32)>)
    requires
        0 <= n <= keys.len(),
        !has_key(e, key),
        forall|j: int| 0 <= j < n ==> has_key(e, #[trigger] keys[j]),
    ensures
        members(keys, key, n) == Seq::<u32>::empty(),
    decreases n,
{
    if n > 0 {
        lemma_no_members(keys, key, n - 1, e);
        assert(has_key(e, keys[n - 1]));
    }
}

/// A column of the given values.
fn column_of(ty: Ty, vals: Vec<Value>) -> (v: Vector)
    requires
        forall|i: int| 0 <= i < vals@.len() ==> (#[trigger] vals@[i])@.fits(ty.phys()),
    ensures
        v.wf(),
        v.ty() == ty,
        v@.len() == vals@.len(),
        forall|i: int| 0 <= i < vals@.len() ==> (#[trigger] v@[i]) == vals@[i]@,
{
    let mut v = Vector::with_capacity(ty, vals.len());
    let mut i: usize = 0;
    while i < vals.len()
        invariant
            i <= vals@.len(),
            forall|j: int| 0 <= j < vals@.len() ==> (#[trigger] vals@[j])@.fits(ty.phys()),
            v.wf(),
            v.ty() == ty,
            v@.len() == i,
            forall|j: int| 0 <= j < i ==> (#[trigger] v@[j]) == vals@[j]@,
        decreases vals@.len() - i,
    {
        assert(vals@[i as int]@.fits(ty.phys()));
        v.push_value(&vals[i]);
        i = i + 1;
    }
    v
}

/// Computes a window function for every row, in the order of the rows.
pub fn compute(spec: &WindowSpec, batch: &Batch, rows: usize, vm: &Vm) -> (r: Result<Vector, Error>)
    requires
        batch.wf(),
        rows == batch.spec_card(),
    ensures
        match window_columns(spec@, batch.types(), batch.rows()) {
            Err(c) => r matches Err(e) && e.code == c,
            Ok(cs) => match r {
                Ok(v) => {
                    &&& v.wf()
                    &&& v.ty() == spec.result_ty
                    &&& v@.len() == rows
                    &&& forall|i: int|
                        0 <= i < rows ==> window_value(spec@, cs.0, cs.1, cs.2, rows as nat, i) == Ok::<Val, Code>(
                            #[trigger] v@[i],
                        )
                },
                Err(e) => {
                    ||| e.code == Code::LimitExceeded && rows > max_keys()
                    ||| exists|i: int|
                        0 <= i < rows && #[trigger] window_value(spec@, cs.0, cs.1, cs.2, rows as nat, i) == Err::<
                            Val,
                            Code,
                        >(e.code)
                },
            },
        },
{
    let pcols = match vm.eval_all(&spec.partition_by, batch) {
        Ok(v) => v,
        Err(e) => {
            return Err(e);
        },
    };
    let kcols = match eval_keys(&spec.order_by, vm, batch) {
        Ok(v) => v,
        Err(e) => {
            return Err(e);
        },
    };
    let acols = match vm.eval_all(&spec.args, batch) {
        Ok(v) => v,
        Err(e) => {
            return Err(e);
        },
    };
    let ghost ps = cols_of(pcols@);
    let ghost ks = cols_of(kcols@);
    let ghost cs = cols_of(acols@);
    let ghost keys = col_keys(ps, rows as nat);
    let (parts, names) = match split_rows(&pcols, rows) {
        Some(p) => p,
        None => {
            return Err(Error::new(Code::LimitExceeded));
        },
    };
    let o = KeyedRows { keys: &spec.order_by, cols: &kcols, rows };
    let ghost rule = o.rule();
    let ghost dom = o.dom();
    proof {
        lemma_rows_ordered(o);
    }
    let mut out: Vec<Value> = Vec::new();
    let mut i: usize = 0;
    while i < rows
        invariant
            i <= rows,
            out@.len() == i,
            forall|j: int| 0 <= j < i ==> (#[trigger] out@[j])@ is Null,
        decreases rows - i,
    {
        out.push(Value::Null);
        i = i + 1;
    }
    let mut s: usize = 0;
    while s < parts.len()
        invariant
            rows <= MAX_ROWS,
            o.wf(),
            o.rows == rows,
            o.keys == &spec.order_by,
            ks == cols_of(o.cols@),
            rule == o.rule(),
            dom == o.dom(),
            crate::exec::ranking::orders(rule, dom),
            rule == row_rule(spec@.order_by, ks),
            cs == cols_of(acols@),
            cols_wf(acols@, rows as int),
            acols@.len() == spec.args@.len(),
            keys == col_keys(ps, rows as nat),
            s <= parts@.len(),
            parts@.len() == names@.len(),
            forall|t: int| 0 <= t < parts@.len() ==> (#[trigger] parts@[t])@ == members(keys, names@[t], rows as int),
            forall|t: int, u: int| 0 <= t < u < names@.len() ==> (#[trigger] names@[t]) != (#[trigger] names@[u]),
            out@.len() == rows,
            forall|j: int| 0 <= j < rows ==> (#[trigger] out@[j])@.fits(spec.result_ty.phys()),
            forall|t: int, j: int|
                0 <= t < s && 0 <= j < rows && keys[j] == (#[trigger] names@[t]) ==> window_value(
                    spec@,
                    ps,
                    ks,
                    cs,
                    rows as nat,
                    j,
                ) == Ok::<Val, Code>((#[trigger] out@[j])@),
            window_columns(spec@, batch.types(), batch.rows()) == Ok::<(Seq<ColV>, Seq<ColV>, Seq<ColV>), Code>((ps, ks, cs)),
        decreases parts@.len() - s,
    {
        let ghost key = names@[s as int];
        proof {
            assert forall|q: u32| q < rows implies #[trigger] dom(q) by {}
            partitions_hold_their_rows_once(keys, key, rows as int, rule, dom);
            lemma_members(keys, key, rows as int);
            assert(parts@[s as int]@ == members(keys, key, rows as int));
            assert forall|q: int| 0 <= q < parts@[s as int]@.len() implies dom(#[trigger] parts@[s as int]@[q]) by {}
        }
        let sorted = sort_rows(&o, &parts[s]);
        let ghost part = sorted@;
        let f = find_peers(&o, sorted);
        let ghost before = out@;
        let res = eval_partition(spec, &f, &acols, rows, &mut out, Ghost(rule));
        proof {
            assert forall|j: int| 0 <= j < rows && keys[j] == key implies 0 <= part.index_of(j as u32) < part.len()
                && part[part.index_of(j as u32)] == j as u32 && #[trigger] partition_of(spec@, ps, ks, rows as nat, j) == part by {
                assert(part.contains(j as u32));
            }
        }
        match res {
            Err(e) => {
                proof {
                    let p = choose|p: int|
                        0 <= p < part.len() && #[trigger] value_at(spec@, cs, part, rule, p) == Err::<Val, Code>(e.code);
                    let j = part[p] as int;
                    assert(keys[j] == key && j < rows);
                    assert(partition_of(spec@, ps, ks, rows as nat, j) == part);
                    assert(part.index_of(j as u32) == p);
                    assert(window_value(spec@, ps, ks, cs, rows as nat, j) == Err::<Val, Code>(e.code));
                }
                return Err(e);
            },
            Ok(()) => {},
        }
        proof {
            assert forall|t: int, j: int|
                0 <= t < s + 1 && 0 <= j < rows && keys[j] == (#[trigger] names@[t]) implies window_value(
                spec@,
                ps,
                ks,
                cs,
                rows as nat,
                j,
            ) == Ok::<Val, Code>((#[trigger] out@[j])@) by {
                if t == s {
                    assert(partition_of(spec@, ps, ks, rows as nat, j) == part);
                    let p = part.index_of(j as u32);
                    assert(value_at(spec@, cs, part, rule, p) == Ok::<Val, Code>(out@[part[p] as int]@));
                } else {
                    assert(names@[t] != names@[s as int]);
                    assert(!part.contains(j as u32)) by {
                        if part.contains(j as u32) {
                            let q = part.index_of(j as u32);
                            assert(keys[part[q] as int] == key);
                        }
                    }
                    assert(out@[j] == before[j]);
                }
            }
            assert forall|j: int| 0 <= j < rows implies (#[trigger] out@[j])@.fits(spec.result_ty.phys()) by {
                if part.contains(j as u32) {
                    let q = part.index_of(j as u32);
                    assert(out@[part[q] as int]@.fits(spec.result_ty.phys()));
                } else {
                    assert(out@[j] == before[j]);
                }
            }
        }
        s = s + 1;
    }
    let ghost cells = out@;
    let v = column_of(spec.result_ty, out);
    proof {
        assert forall|j: int| 0 <= j < rows implies window_value(spec@, ps, ks, cs, rows as nat, j) == Ok::<Val, Code>(
            #[trigger] v@[j],
        ) by {
            assert(names@.contains(keys[j]));
            let t = names@.index_of(keys[j]);
            assert(names@[t] == keys[j]);
            assert(window_value(spec@, ps, ks, cs, rows as nat, j) == Ok::<Val, Code>(cells[j]@));
        }
    }
    Ok(v)
}

// --- The operator -------------------------------------------------------------------------

/// Whether a column holds a window function's values on the given rows.
pub open spec fn window_column(w: WindowV, tys: Seq<Ty>, rows: Seq<Seq<Val>>, v: ColV) -> bool {
    match window_columns(w, tys, rows) {
        Err(_) => false,
        Ok(cs) => {
            &&& v.ty == w.result_ty
            &&& v.cells.len() == rows.len()
            &&& forall|i: int|
                0 <= i < rows.len() ==> window_value(w, cs.0, cs.1, cs.2, rows.len(), i) == Ok::<Val, Code>(
                    #[trigger] v.cells[i],
                )
        },
    }
}

/// Whether a window function fails on the given rows with a code: there are more partitions than can
/// be told apart, or it has no value on a row.
pub open spec fn window_fails(w: WindowV, tys: Seq<Ty>, rows: Seq<Seq<Val>>, code: Code) -> bool {
    match window_columns(w, tys, rows) {
        Err(c) => c == code,
        Ok(cs) => {
            ||| code == Code::LimitExceeded && rows.len() > max_keys()
            ||| exists|i: int|
                0 <= i < rows.len() && #[trigger] window_value(w, cs.0, cs.1, cs.2, rows.len(), i) == Err::<Val, Code>(code)
        },
    }
}

/// Whether columns hold the values of the first window functions.
pub open spec fn windows_done(ws: Seq<WindowV>, tys: Seq<Ty>, rows: Seq<Seq<Val>>, done: Seq<ColV>) -> bool {
    &&& done.len() <= ws.len()
    &&& forall|k: int| 0 <= k < done.len() ==> window_column(ws[k], tys, rows, #[trigger] done[k])
}

/// Whether computing the window functions ends in a code once some are done: the next one
/// fails, or there are too many bytes.
pub open spec fn windows_stop(
    ws: Seq<WindowV>,
    tys: Seq<Ty>,
    rows: Seq<Seq<Val>>,
    held: int,
    done: Seq<ColV>,
    code: Code,
) -> bool {
    &&& windows_done(ws, tys, rows, done)
    &&& {
        ||| done.len() < ws.len() && window_fails(ws[done.len() as int], tys, rows, code)
        ||| done.len() > 0 && code == Code::Oom && columns_bytes(held, done, done.len() as int) > MAX_BUFFER_BYTES
    }
}

/// The estimated bytes of rows.
pub open spec fn rows_bytes(tys: Seq<Ty>, rows: Seq<Seq<Val>>) -> int {
    let c = Chunk { types: tys, rows };
    columns_bytes(0, chunk_cols(c), tys.len() as int)
}

/// Why some batches cannot be worked on: the last one's columns are stored otherwise than before,
/// there are too many rows or bytes, or a window function fails on them.
pub open spec fn window_stuck(ws: Seq<WindowV>, xs: Seq<Chunk>, code: Code) -> bool {
    ||| xs.len() > 0 && code == Code::Internal && (first_types(xs.drop_last()) matches Some(t) && !storage_agrees(
        t,
        xs.last().types,
    ))
    ||| code == Code::LimitExceeded && flat(xs).len() > MAX_ROWS
    ||| first_types(xs) is Some && code == Code::Oom && rows_bytes(first_types(xs)->0, flat(xs)) > MAX_BUFFER_BYTES
    ||| first_types(xs) is Some && finish_stuck(ws, first_types(xs)->0, flat(xs), code)
}

/// Computing the window functions on rows ends in a code.
pub open spec fn finish_stuck(ws: Seq<WindowV>, tys: Seq<Ty>, rows: Seq<Seq<Val>>, code: Code) -> bool {
    exists|done: Seq<ColV>| #[trigger] windows_stop(ws, tys, rows, rows_bytes(tys, rows), done, code)
}

#[derive(Clone, Copy, PartialEq, Eq, Structural, Debug)]
pub enum WindowPhase {
    /// Reading and buffering the input.
    Buffering,
    /// The window columns are settled and the rows are being returned.
    Emitting,
    Done,
}

pub struct Window {
    pub input: Child,
    pub windows: Vec<WindowSpec>,
    pub phase: WindowPhase,
    /// The input's columns.
    pub cols: Vec<Vector>,
    /// The input's rows so far. An input without columns has rows too.
    pub rows: usize,
    /// Whether the column types are known.
    pub init: bool,
    /// The window columns, in the order of the input's rows.
    pub out: Vec<Vector>,
    /// The next row to return.
    pub pos: usize,
    /// The window columns, as values.
    pub result: Ghost<Seq<ColV>>,
    pub trace: Ghost<Trace>,
}

/// The types of the first batch that has rows.
pub open spec fn first_types(xs: Seq<Chunk>) -> Option<Seq<Ty>>
    decreases xs.len(),
{
    if xs.len() == 0 {
        None
    } else {
        match first_types(xs.drop_last()) {
            Some(t) => Some(t),
            None => if xs.last().rows.len() > 0 {
                Some(xs.last().types)
            } else {
                None
            },
        }
    }
}

/// Rows with columns put behind them.
pub open spec fn widened(rows: Seq<Seq<Val>>, cols: Seq<ColV>) -> Seq<Seq<Val>> {
    Seq::new(rows.len(), |r: int| rows[r] + Seq::new(cols.len(), |c: int| cols[c].cells[r]))
}

impl Window {
    /// The input's rows so far.
    pub open spec fn held(&self) -> Seq<Seq<Val>> {
        Seq::new(self.rows as nat, |r: int| row_at(self.cols@, r))
    }

    /// The rows that are still to be returned.
    pub open spec fn to_come(&self) -> Seq<Seq<Val>> {
        Seq::new(
            (self.rows - self.pos) as nat,
            |k: int| row_at(self.cols@, self.pos + k) + row_at(self.out@, self.pos + k),
        )
    }

    pub open spec fn inv(&self) -> bool {
        match self.phase {
            WindowPhase::Buffering => {
                &&& cols_wf(self.cols@, self.rows as int)
                &&& self.rows <= MAX_ROWS
                &&& !self.init ==> self.rows == 0 && self.cols@.len() == 0
            },
            WindowPhase::Emitting => {
                &&& cols_wf(self.cols@, self.rows as int)
                &&& cols_wf(self.out@, self.rows as int)
                &&& self.rows <= MAX_ROWS
                &&& self.pos <= self.rows
            },
            WindowPhase::Done => true,
        }
    }

    pub open spec fn same_query(&self, other: Window) -> bool {
        self.input == other.input && self.windows == other.windows && self.trace == other.trace
    }

    /// The types that a batch has to agree with: those of the first batch.
    pub open spec fn held_types(&self, tys: Seq<Ty>) -> Seq<Ty> {
        if self.init {
            types_of(self.cols@)
        } else {
            tys
        }
    }

    pub fn new(input: Child, windows: Vec<WindowSpec>) -> (r: Result<Window, Error>)
        requires
            input.op.wf(),
        ensures
            r matches Ok(w) && {
                &&& w.wf()
                &&& w.input == input
                &&& w.windows == windows
                &&& w.phase == WindowPhase::Buffering
                &&& w.held().len() == 0
                &&& w.trace@ == fresh_trace(input.op.returned())
            },
    {
        let w = Window {
            input,
            windows,
            phase: WindowPhase::Buffering,
            cols: Vec::new(),
            rows: 0,
            init: false,
            out: Vec::new(),
            pos: 0,
            result: Ghost(Seq::empty()),
            trace: Ghost(fresh_trace(input.op.returned())),
        };
        assert(w.input == input);
        assert(w.held() =~= Seq::empty());
        Ok(w)
    }

    /// Takes a batch into the buffer.
    pub fn absorb(&mut self, batch: Batch) -> (r: Result<(), Error>)
        requires
            old(self).inv(),
            old(self).phase == WindowPhase::Buffering,
            batch.wf(),
        ensures
            final(self).inv(),
            final(self).same_query(*old(self)),
            final(self).phase == old(self).phase,
            ({
                let n = batch.rows().len();
                let tys = old(self).held_types(batch.types());
                if n == 0 {
                    r is Ok && *final(self) == *old(self)
                } else if tys.len() != batch.types().len() {
                    (r matches Err(e) && e.code == Code::Internal) && *final(self) == *old(self)
                } else if old(self).rows + n > MAX_ROWS {
                    (r matches Err(e) && e.code == Code::LimitExceeded) && *final(self) == *old(self)
                } else if !storage_agrees(tys, batch.types()) {
                    (r matches Err(e) && e.code == Code::Internal) && *final(self) == *old(self)
                } else {
                    &&& final(self).held() == old(self).held() + batch.rows()
                    &&& types_of(final(self).cols@) == tys
                    &&& final(self).init
                    &&& if columns_bytes(0, cols_of(final(self).cols@), tys.len() as int) > MAX_BUFFER_BYTES {
                        r matches Err(e) && e.code == Code::Oom
                    } else {
                        r is Ok
                    }
                }
            }),
    {
        let mut flat = batch;
        flat.materialize();
        let n: usize = flat.card();
        if n == 0 {
            return Ok(());
        }
        assert(types_of(flat.cols@) =~= batch.types());
        if self.init && flat.cols.len() != self.cols.len() {
            return Err(Error::new(Code::Internal));
        }
        if n > MAX_ROWS - self.rows {
            return Err(Error::new(Code::LimitExceeded));
        }
        if self.init && !can_append(&self.cols, &flat.cols) {
            return Err(Error::new(Code::Internal));
        }
        let ghost tys = self.held_types(batch.types());
        let ghost held0 = self.held();
        if !self.init {
            self.cols = empty_like(&flat.cols);
            self.init = true;
        }
        let ghost cols0 = self.cols@;
        let rows: usize = self.rows;
        proof {
            assert(types_of(self.cols@) =~= tys);
            assert forall|c: int| 0 <= c < flat.cols@.len() implies (#[trigger] self.cols@[c]).ty().phys()
                == flat.cols@[c].ty().phys() by {
                assert(types_of(self.cols@)[c].phys() == types_of(flat.cols@)[c].phys());
            }
        }
        append_all(&mut self.cols, &flat.cols, rows, n);
        self.rows = rows + n;
        proof {
            assert(types_of(self.cols@) =~= tys);
            assert forall|r: int| 0 <= r < rows + n implies #[trigger] self.held()[r] == (held0 + batch.rows())[r] by {
                if r < rows {
                    assert(row_at(self.cols@, r) == row_at(cols0, r));
                } else {
                    assert(row_at(self.cols@, rows + (r - rows)) == row_at(flat.cols@, r - rows));
                    assert(flat.rows()[r - rows] == batch.rows()[r - rows]);
                }
            }
            assert(self.held() =~= held0 + batch.rows());
        }
        if columns_size(0, &self.cols) > MAX_BUFFER_BYTES {
            return Err(Error::new(Code::Oom));
        }
        Ok(())
    }

    /// The input is read through: computes the window columns.
    pub fn finish(&mut self, vm: &Vm) -> (r: Result<(), Error>)
        requires
            old(self).inv(),
            old(self).phase == WindowPhase::Buffering,
        ensures
            final(self).inv(),
            final(self).same_query(*old(self)),
            final(self).cols == old(self).cols,
            final(self).rows == old(self).rows,
            ({
                let ws = windows_of(old(self).windows@);
                let tys = types_of(old(self).cols@);
                let held = columns_bytes(0, cols_of(old(self).cols@), old(self).cols@.len() as int);
                match r {
                    Ok(_) => {
                        &&& final(self).phase == WindowPhase::Emitting
                        &&& final(self).pos == 0
                        &&& final(self).cols == old(self).cols
                        &&& old(self).rows > 0 ==> final(self).out@.len() == ws.len() && windows_done(
                            ws,
                            tys,
                            old(self).held(),
                            cols_of(final(self).out@),
                        )
                    },
                    Err(e) => {
                        &&& final(self).phase == WindowPhase::Buffering
                        &&& old(self).rows > 0
                        &&& exists|done: Seq<ColV>| #[trigger]
                            windows_stop(ws, tys, old(self).held(), held, done, e.code)
                    },
                }
            }),
    {
        if self.rows == 0 {
            self.out = Vec::new();
            self.pos = 0;
            self.phase = WindowPhase::Emitting;
            proof {
                assert(cols_wf(self.out@, 0));
            }
            return Ok(());
        }
        let rows: usize = self.rows;
        let ghost ws = windows_of(self.windows@);
        let ghost tys = types_of(self.cols@);
        let ghost held = self.held();
        let ghost size = columns_bytes(0, cols_of(self.cols@), self.cols@.len() as int);
        let mut cols: Vec<Vector> = Vec::new();
        std::mem::swap(&mut cols, &mut self.cols);
        let mut bytes: u64 = columns_size(0, &cols);
        let batch = Batch::of_columns(cols, rows);
        assert(batch.types() =~= tys);
        assert(batch.rows() =~= held);
        let mut out: Vec<Vector> = Vec::new();
        let mut failed: Option<Error> = None;
        let mut k: usize = 0;
        assert(cols_of(out@) =~= Seq::empty());
        while k < self.windows.len()
            invariant
                old(self).inv(),
                self.windows == old(self).windows,
                self.input == old(self).input,
                self.rows == rows,
                self.phase == WindowPhase::Buffering,
                ws == windows_of(self.windows@),
                batch.wf(),
                batch.spec_card() == rows,
                rows == held.len(),
                batch.cols == old(self).cols,
                batch.types() == tys,
                batch.rows() == held,
                k <= self.windows@.len(),
                failed is None ==> out@.len() == k && cols_wf(out@, rows as int) && windows_done(ws, tys, held, cols_of(out@))
                    && bytes == columns_bytes(size, cols_of(out@), k as int),
                failed matches Some(e) ==> exists|done: Seq<ColV>| #[trigger]
                    windows_stop(ws, tys, held, size, done, e.code),
            decreases self.windows@.len() - k,
        {
            if failed.is_some() {
                k = k + 1;
                continue;
            }
            let ghost before = cols_of(out@);
            assert(ws[k as int] == self.windows@[k as int]@);
            match compute(&self.windows[k], &batch, rows, vm) {
                Err(e) => {
                    assert(windows_stop(ws, tys, held, size, before, e.code));
                    failed = Some(e);
                },
                Ok(v) => {
                    bytes = bytes.saturating_add(crate::exec::sort::vector_bytes(&v));
                    out.push(v);
                    proof {
                        let now = cols_of(out@);
                        assert(now =~= before.push(crate::expr::col_of(v)));
                        assert(window_column(ws[k as int], tys, held, crate::expr::col_of(v)));
                        assert forall|j: int| 0 <= j < now.len() implies window_column(ws[j], tys, held, #[trigger] now[j]) by {
                            if j < k {
                                assert(now[j] == before[j]);
                            }
                        }
                        lemma_columns_prefix(size, now, before, k as int);
                        assert(bytes == columns_bytes(size, now, k + 1));
                    }
                    if bytes > MAX_BUFFER_BYTES {
                        assert(windows_stop(ws, tys, held, size, cols_of(out@), Code::Oom));
                        failed = Some(Error::new(Code::Oom));
                    }
                },
            }
            k = k + 1;
        }
        self.cols = batch.cols;
        match failed {
            Some(e) => Err(e),
            None => {
                self.out = out;
                self.pos = 0;
                self.phase = WindowPhase::Emitting;
                Ok(())
            },
        }
    }

    /// What is returned once the rows are settled: the next of those to come.
    pub open spec fn emitted(self, after: Window, r: Step) -> bool {
            let left = self.to_come();
            let n = if left.len() < BATCH_SIZE {
                left.len() as int
            } else {
                BATCH_SIZE as int
            };
            match r {
                Step::Ready(b) => {
                    &&& n > 0
                    &&& b.wf()
                    &&& b.types() == types_of(self.cols@) + types_of(self.out@)
                    &&& b.rows() == left.take(n)
                    &&& after.phase == WindowPhase::Emitting
                    &&& after.to_come() == left.skip(n)
                },
                Step::Done => n == 0 && after.phase == WindowPhase::Done,
                _ => false,
            }
    }

    /// The next rows, in the order of the input, at most a batch of them.
    pub fn emit(&mut self) -> (r: Step)
        requires
            old(self).inv(),
            old(self).phase == WindowPhase::Emitting,
        ensures
            final(self).inv(),
            final(self).same_query(*old(self)),
            old(self).emitted(*final(self), r),
            r is Ready ==> final(self).cols == old(self).cols && final(self).out == old(self).out,
    {
        let ghost left = self.to_come();
        if self.pos >= self.rows {
            self.phase = WindowPhase::Done;
            self.cols = Vec::new();
            self.out = Vec::new();
            return Step::Done;
        }
        let rest: usize = self.rows - self.pos;
        let n: usize = if rest < BATCH_SIZE {
            rest
        } else {
            BATCH_SIZE
        };
        let idx = row_numbers(self.pos, self.pos + n);
        let mut cols = gather_columns(&self.cols, idx.as_slice(), self.rows);
        let mut more = gather_columns(&self.out, idx.as_slice(), self.rows);
        let ghost a = cols@;
        let ghost b = more@;
        cols.append(&mut more);
        proof {
            assert(cols@ =~= a + b);
            assert forall|c: int| 0 <= c < cols@.len() implies (#[trigger] cols@[c]).wf() && cols@[c]@.len() == n by {
                if c < a.len() {
                    assert(a[c].wf());
                } else {
                    assert(b[c - a.len()].wf());
                }
            }
        }
        let batch = Batch::of_columns(cols, n);
        let ghost p0 = self.pos;
        self.pos = self.pos + n;
        proof {
            assert forall|k: int| 0 <= k < n implies #[trigger] batch.rows()[k] == left[k] by {
                assert(row_at(a, k) == row_at(self.cols@, idx@[k] as int));
                assert(row_at(b, k) == row_at(self.out@, idx@[k] as int));
                assert(row_at(cols@, k) =~= row_at(a, k) + row_at(b, k));
            }
            assert(batch.rows() =~= left.take(n as int));
            assert(self.to_come() =~= left.skip(n as int));
            assert(batch.types() =~= types_of(self.cols@) + types_of(self.out@));
        }
        Step::Ready(batch)
    }
}

proof fn lemma_columns_prefix(held: int, a: Seq<ColV>, b: Seq<ColV>, k: int)
    requires
        0 <= k <= a.len(),
        k <= b.len(),
        forall|j: int| 0 <= j < k ==> a[j] == b[j],
    ensures
        columns_bytes(held, a, k) == columns_bytes(held, b, k),
    decreases k,
{
    if k > 0 {
        lemma_columns_prefix(held, a, b, k - 1);
    }
}

/// The types of the columns returned: those of the input's columns, and those of the window columns.
pub open spec fn window_types(ws: Seq<WindowV>, xs: Seq<Chunk>) -> Seq<Ty> {
    first_types(xs)->0 + Seq::new(ws.len(), |k: int| ws[k].result_ty)
}

impl Window {
    /// The window columns are those of the rows of batches.
    pub open spec fn computed(&self, xs: Seq<Chunk>) -> bool {
        flat(xs).len() > 0 ==> self.result@.len() == self.windows@.len() && windows_done(
            windows_of(self.windows@),
            first_types(xs)->0,
            flat(xs),
            self.result@,
        )
    }

    /// How what has been returned follows from what came in.
    pub open spec fn accounted(&self) -> bool {
        let xs = self.input.op.returned();
        &&& portions(self.trace@.out, window_types(windows_of(self.windows@), xs))
        &&& match self.phase {
            WindowPhase::Buffering => {
                &&& self.trace@.out.len() == 0
                &&& self.held() == flat(xs)
                &&& first_types(xs) == if self.init {
                    Some(types_of(self.cols@))
                } else {
                    None
                }
                &&& columns_bytes(0, cols_of(self.cols@), self.cols@.len() as int) <= MAX_BUFFER_BYTES
            },
            WindowPhase::Emitting => {
                &&& self.input.op.spent()
                &&& self.computed(xs)
                &&& flat(self.trace@.out) + self.to_come() == widened(flat(xs), self.result@)
                &&& self.to_come().len() > 0 ==> types_of(self.cols@) + types_of(self.out@) == window_types(
                    windows_of(self.windows@),
                    xs,
                )
            },
            WindowPhase::Done => {
                &&& self.input.op.spent()
                &&& self.computed(xs)
                &&& flat(self.trace@.out) == widened(flat(xs), self.result@)
            },
        }
    }
}

impl Window {
    /// What has been returned is what the plan gives.
    pub(crate) proof fn lemma_gave(&self, mem: Seq<MemTable>)
        requires
            self.wf(),
        ensures
            self.traced() && self.sound(mem) ==> gave(self.plan(), mem, self.looked(), self.returned(), self.spent()),
            forall|why: Why| #[trigger]
                stops(self.input.op.plan(), mem, self.input.op.looked(), why) ==> stops(self.plan(), mem, self.looked(), why),
            forall|code: Code|
                supplied(self.input, mem) && #[trigger] stuck(self.plan(), self.input.op.returned(), Seq::empty(), code) ==> stops(
                    self.plan(),
                    mem,
                    self.looked(),
                    Why::Failed(code),
                ),
    {
        reveal_with_fuel(gave, 1);
        reveal_with_fuel(stops, 1);
        if self.traced() && self.sound(mem) {
            if self.phase == WindowPhase::Emitting {
                lemma_begins(flat(self.trace@.out), self.to_come(), false);
            } else {
                lemma_begins(flat(self.trace@.out), Seq::empty(), true);
            }
            if self.phase != WindowPhase::Buffering {
                let p = self.plan();
                assert(windows_computed(p->Window_windows, self.input.op.returned(), self.result@));
            }
        }
    }
}

impl Window {
    /// The bytes held are those of the rows of batches.
    proof fn lemma_held(&self, xs: Seq<Chunk>)
        requires
            self.inv(),
            self.phase == WindowPhase::Buffering,
            self.held() == flat(xs),
        ensures
            columns_bytes(0, cols_of(self.cols@), self.cols@.len() as int) == rows_bytes(types_of(self.cols@), flat(xs)),
    {
        let c = Chunk { types: types_of(self.cols@), rows: flat(xs) };
        assert forall|k: int| 0 <= k < self.cols@.len() implies #[trigger] cols_of(self.cols@)[k] == chunk_cols(c)[k] by {
            let col = self.cols@[k];
            assert forall|i: int| 0 <= i < self.rows implies col@[i] == c.rows[i][k] by {
                assert(self.held()[i] == row_at(self.cols@, i));
            }
            assert(col@.len() == self.rows);
            assert(col@ =~= chunk_cols(c)[k].cells);
        }
        assert(cols_of(self.cols@) =~= chunk_cols(c));
    }
}

proof fn lemma_windows_stuck(ws: Seq<WindowV>, xs: Seq<Chunk>, t: Seq<Ty>, done: Seq<ColV>, code: Code)
    requires
        first_types(xs) == Some(t),
        windows_stop(ws, t, flat(xs), rows_bytes(t, flat(xs)), done, code),
    ensures
        window_stuck(ws, xs, code),
{
    assert(finish_stuck(ws, t, flat(xs), code));
}

impl Operator for Window {
    open spec fn wf(&self) -> bool {
        &&& self.input.op.wf()
        &&& self.inv()
        &&& self.traced() ==> self.accounted()
    }

    open spec fn plan(&self) -> NodeV {
        NodeV::Window { input: Box::new(self.input.op.plan()), windows: windows_of(self.windows@) }
    }

    open spec fn looked(&self) -> Seq<Look> {
        self.input.op.looked()
    }

    open spec fn traced(&self) -> bool {
        self.trace@.ok && self.input.op.traced()
    }

    open spec fn returned(&self) -> Seq<Chunk> {
        self.trace@.out
    }

    open spec fn spent(&self) -> bool {
        self.phase == WindowPhase::Done
    }

    open spec fn sound(&self, mem: Seq<MemTable>) -> bool {
        supplied(self.input, mem)
    }

    #[verifier::rlimit(60)]
    fn next(&mut self, ctx: &mut ExecContext) -> (r: Result<Step, Error>)
        ensures
            answers(
                r,
                *final(ctx),
                final(self).input.said@,
                old(self).traced(),
                final(self).plan(),
                final(self).input.op.returned(),
                Seq::empty(),
            ),
            old(self).phase == WindowPhase::Emitting ==> (r matches Ok(s) && old(self).emitted(*final(self), s)),
            old(self).phase == WindowPhase::Done ==> r matches Ok(Step::Done),
            r matches Ok(Step::Ready(b)) ==> portion(
                chunk(b),
                types_of(final(self).cols@) + types_of(final(self).out@),
            ),
    {
        self.input.said = Ghost(Said::Nothing);
        let ghost start = *self;
        let mut fuel: u64 = u64::MAX;
        proof {
            lemma_no_look(self.looked(), ctx.catalog);
        }
        while fuel > 0
            invariant
                self.wf(),
                ctx.wf(),
                ctx.same_data(*old(ctx)),
                looked_on(old(self).looked(), old(ctx).catalog, self.looked(), ctx.catalog),
                ctx.io == old(ctx).io,
                ctx.codec == old(ctx).codec,
                self.input.said@.goes_on(),
                self.input.op.traced() ==> self.input.op.returned().len() + fuel + if self.phase == WindowPhase::Buffering {
                    0int
                } else {
                    1int
                } >= u64::MAX,
                start == (Window { input: start.input, ..*old(self) }),
                old(self).sound(old(ctx).catalog.mem@) && self.traced() ==> self.sound(old(ctx).catalog.mem@),
                old(self).phase != WindowPhase::Buffering ==> *self == start && fuel == u64::MAX,
                self.windows == old(self).windows,
                self.trace == old(self).trace,
                self.input.op.plan() == old(self).input.op.plan(),
                self.input.op.traced() <==> old(self).input.op.traced(),
            decreases fuel,
        {
            match self.phase {
                WindowPhase::Buffering => {
                    let ghost before = self.input.op.returned();
                    match self.input.pull(ctx) {
                        Ok(Step::Ready(b)) => {
                            let ghost c = chunk(b);
                            proof {
                                lemma_flat_push(before, c);
                                assert(before.push(c).drop_last() =~= before);
                                assert(c.rows.len() == 0 ==> flat(before) + c.rows =~= flat(before));
                            }
                            match self.absorb(b) {
                                Ok(()) => {},
                                Err(e) => {
                                    self.trace = Ghost(lost_trace(self.trace@));
                                    proof {
                                        if old(self).traced() {
                                            assert(self.input.op.returned() == before.push(c));
                                            assert(before.push(c).drop_last() =~= before);
                                            if e.code == Code::Oom {
                                                self.lemma_held(before.push(c));
                                            }
                                            assert(stuck(self.plan(), self.input.op.returned(), Seq::empty(), e.code));
                                        }
                                        self.lemma_gave(old(ctx).catalog.mem@);
                                    }
                                    return Err(e);
                                },
                            }
                        },
                        Ok(Step::Done) => {
                            let ghost was = *self;
                            match self.finish(&ctx.vm) {
                                Ok(()) => {
                                    self.result = Ghost(cols_of(self.out@));
                                    proof {
                                        if self.traced() {
                                            assert forall|r: int| 0 <= r < self.rows implies #[trigger] widened(was.held(), self.result@)[r] =~= self.to_come()[r] by {}
                                            assert(widened(was.held(), self.result@) =~= self.to_come());
                                            assert(flat(self.trace@.out) + self.to_come() =~= self.to_come());
                                            if self.rows > 0 {
                                                let ws = windows_of(self.windows@);
                                                assert forall|k: int| 0 <= k < ws.len() implies #[trigger] types_of(
                                                    self.out@,
                                                )[k] == ws[k].result_ty by {
                                                    assert(window_column(
                                                        ws[k],
                                                        types_of(was.cols@),
                                                        was.held(),
                                                        self.result@[k],
                                                    ));
                                                }
                                                assert(types_of(self.cols@) + types_of(self.out@) =~= window_types(
                                                    ws,
                                                    self.input.op.returned(),
                                                ));
                                            }
                                        }
                                    }
                                },
                                Err(e) => {
                                    self.trace = Ghost(lost_trace(self.trace@));
                                    proof {
                                        if old(self).traced() {
                                            let xs = self.input.op.returned();
                                            was.lemma_held(xs);
                                            let t = types_of(was.cols@);
                                            let ws = windows_of(self.windows@);
                                            let bytes = rows_bytes(t, flat(xs));
                                            let done = choose|done: Seq<ColV>| #[trigger]
                                                windows_stop(ws, t, flat(xs), bytes, done, e.code);
                                            lemma_windows_stuck(ws, xs, t, done, e.code);
                                            assert(stuck(self.plan(), self.input.op.returned(), Seq::empty(), e.code));
                                        }
                                        self.lemma_gave(old(ctx).catalog.mem@);
                                    }
                                    return Err(e);
                                },
                            }
                        },
                        Ok(other) => {
                            proof {
                                self.lemma_gave(old(ctx).catalog.mem@);
                            }
                            return Ok(other);
                        },
                        Err(e) => {
                            proof {
                                self.lemma_gave(old(ctx).catalog.mem@);
                            }
                            return Err(e);
                        },
                    }
                },
                WindowPhase::Emitting => {
                    let ghost left = self.to_come();
                    let ghost result = self.result@;
                    let step = self.emit();
                    self.result = Ghost(result);
                    if let Step::Ready(b) = &step {
                        proof {
                            lemma_flat_push(self.trace@.out, chunk(*b));
                            assert(flat(self.trace@.out) + b.rows() + self.to_come() =~= flat(self.trace@.out) + left);
                            if self.traced() {
                                let tys = window_types(windows_of(self.windows@), self.input.op.returned());
                                lemma_portions_push(self.trace@.out, tys, chunk(*b));
                            }
                        }
                        self.trace = Ghost(grown_trace(self.trace@, chunk(*b)));
                    } else {
                        assert(flat(self.trace@.out) + left =~= flat(self.trace@.out));
                    }
                    proof {
                        self.lemma_gave(old(ctx).catalog.mem@);
                    }
                    return Ok(step);
                },
                WindowPhase::Done => {
                    proof {
                        self.lemma_gave(old(ctx).catalog.mem@);
                    }
                    return Ok(Step::Done);
                },
            }
            fuel = fuel - 1;
        }
        proof {
            if old(self).traced() {
                assert(stuck(self.plan(), self.input.op.returned(), Seq::empty(), Code::LimitExceeded));
            }
            self.lemma_gave(old(ctx).catalog.mem@);
        }
        Err(Error::new(Code::LimitExceeded))
    }
}

} // verus!
