//! Running totals.
//!
//! Doubles are summed with Neumaier's compensation, by grouped aggregates and by
//! window functions alike, so that the same values give the same sum in both.

use crate::error::Code;
use crate::exec::rowkey::{f_pow10, pow10};
use crate::float::{f_difference, f_of_int, f_quotient, f_sum, from_int, minus, over, plus, F_ONE};
use crate::order::{f64_is_nan, f64_magnitude};
use crate::vector::{Ty, Val, Value};
use vstd::prelude::*;

verus! {

/// A sum and its compensation after one more addend: what the sum loses in rounding is
/// added to the compensation.
pub open spec fn compensated_step(s: u64, comp: u64, x: u64) -> (u64, u64) {
    let t = f_sum(s, x);
    let lost = if f64_magnitude(s) >= f64_magnitude(x) {
        f_sum(f_difference(s, t), x)
    } else {
        f_sum(f_difference(x, t), s)
    };
    (t, f_sum(comp, lost))
}

/// The sum with its compensation folded in. An infinite sum has a compensation that is
/// not a number, and stands as it is.
pub open spec fn compensated_sum(s: u64, comp: u64) -> u64 {
    let t = f_sum(s, comp);
    if f64_is_nan(t) {
        s
    } else {
        t
    }
}

/// Adds a double to a compensated sum.
pub fn neumaier_add(s: u64, comp: u64, x: u64) -> (r: (u64, u64))
    ensures
        r == compensated_step(s, comp, x),
{
    let t: u64 = plus(s, x);
    let ms: u64 = crate::float::magnitude_of(s);
    let mx: u64 = crate::float::magnitude_of(x);
    let lost: u64 = if ms >= mx {
        plus(minus(s, t), x)
    } else {
        plus(minus(x, t), s)
    };
    (t, plus(comp, lost))
}

/// The value of a compensated sum.
pub fn compensated(s: u64, comp: u64) -> (r: u64)
    ensures
        r == compensated_sum(s, comp),
{
    let t: u64 = plus(s, comp);
    if crate::float::is_nan(t) {
        s
    } else {
        t
    }
}

// --- Numbers as addends -----------------------------------------------------------------

/// The divisor that turns a column's whole numbers into its values.
pub open spec fn divisor(ty: Ty) -> u64 {
    match ty {
        Ty::Decimal { precision, scale } => f_pow10(scale as nat),
        _ => F_ONE,
    }
}

/// A number of a column as a double.
pub open spec fn scaled_double(v: Val, div: u64) -> Option<u64> {
    match v {
        Val::F64(x) => Some(x),
        Val::I32(x) => Some(f_quotient(f_of_int(x as int), div)),
        Val::I64(x) => Some(f_quotient(f_of_int(x as int), div)),
        Val::I128(x) => Some(f_quotient(f_of_int(x as int), div)),
        _ => None,
    }
}

/// A running total of whole numbers, if it stays in range.
pub open spec fn add_int(acc: Val, x: i128) -> Result<Val, Code> {
    match acc {
        Val::I128(s) => if i128::MIN <= s + x <= i128::MAX {
            Ok(Val::I128((s + x) as i128))
        } else {
            Err(Code::ValueOutOfRange)
        },
        _ => Ok(Val::I128(x)),
    }
}

/// A column's divisor.
pub fn divisor_of(ty: Ty) -> (r: u64)
    ensures
        r == divisor(ty),
{
    match ty {
        Ty::Decimal { precision: _, scale } => pow10(scale),
        _ => F_ONE,
    }
}

/// A number of a column as a double.
pub fn scale_double(v: &Value, div: u64) -> (r: Option<u64>)
    ensures
        r == scaled_double(v@, div),
{
    match v {
        Value::F64(x) => Some(*x),
        Value::I32(x) => Some(over(from_int(*x as i128), div)),
        Value::I64(x) => Some(over(from_int(*x as i128), div)),
        Value::I128(x) => Some(over(from_int(*x), div)),
        _ => None,
    }
}

} // verus!
