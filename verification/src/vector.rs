//! Values, columns and batches.
//!
//! A [`Vector`] is one column: a logical type and its cells. A [`Batch`] is a
//! set of equally long columns, optionally narrowed by a selection vector that
//! lists the physical rows to look at, in order.
//!
//! Contracts speak of [`Val`], the mathematical counterpart of [`Value`]: a
//! column is a `Seq<Val>` and a row of a batch is a `Seq<Val>` too.

use crate::error::{Code, Error};
use crate::hash::{copy_bytes, eq_bytes};
use crate::order::{
    bool_rank, bytes_order, f64_rank, int_order, ord_f64, order_bool, order_bytes, order_i128, Order,
};
use vstd::prelude::*;

verus! {

/// How many rows an operator hands out at a time.
pub const BATCH_SIZE: usize = 2048;

/// The most rows one batch may hold: row numbers are kept as `u32`.
pub const MAX_ROWS: usize = 0xffff_ffff;

/// How the cells of a column are stored.
#[derive(Clone, Copy, PartialEq, Eq, Structural, Debug)]
pub enum PhysType {
    Bool,
    I32,
    I64,
    F64,
    I128,
    Bytes,
}

/// Logical column types.
#[derive(Clone, Copy, PartialEq, Eq, Structural, Debug)]
pub enum Ty {
    Null,
    Boolean,
    TinyInt,
    SmallInt,
    Int,
    BigInt,
    HugeInt,
    UTinyInt,
    USmallInt,
    UInt,
    UBigInt,
    Float,
    Double,
    Decimal { precision: u8, scale: u8 },
    Varchar,
    Blob,
    Date,
    Time,
    Timestamp,
    Interval,
    Json,
    Uuid,
    Timestamptz,
}

impl Ty {
    pub open spec fn phys_spec(self) -> PhysType {
        match self {
            Ty::Boolean => PhysType::Bool,
            Ty::Null | Ty::TinyInt | Ty::SmallInt | Ty::Int | Ty::UTinyInt | Ty::USmallInt
            | Ty::Date => PhysType::I32,
            Ty::BigInt | Ty::UInt | Ty::Time | Ty::Timestamp | Ty::Timestamptz => PhysType::I64,
            Ty::HugeInt | Ty::UBigInt | Ty::Interval | Ty::Uuid => PhysType::I128,
            Ty::Float | Ty::Double => PhysType::F64,
            Ty::Decimal { precision, scale } => if precision > 18 {
                PhysType::I128
            } else {
                PhysType::I64
            },
            Ty::Varchar | Ty::Blob | Ty::Json => PhysType::Bytes,
        }
    }

    /// The physical type behind a logical one.
    #[verifier::when_used_as_spec(phys_spec)]
    pub fn phys(self) -> (r: PhysType)
        ensures
            r == self.phys_spec(),
    {
        match self {
            Ty::Boolean => PhysType::Bool,
            Ty::Null | Ty::TinyInt | Ty::SmallInt | Ty::Int | Ty::UTinyInt | Ty::USmallInt
            | Ty::Date => PhysType::I32,
            Ty::BigInt | Ty::UInt | Ty::Time | Ty::Timestamp | Ty::Timestamptz => PhysType::I64,
            Ty::HugeInt | Ty::UBigInt | Ty::Interval | Ty::Uuid => PhysType::I128,
            Ty::Float | Ty::Double => PhysType::F64,
            Ty::Decimal { precision, scale } => if precision > 18 {
                PhysType::I128
            } else {
                PhysType::I64
            },
            Ty::Varchar | Ty::Blob | Ty::Json => PhysType::Bytes,
        }
    }

    pub fn decimal(precision: u8, scale: u8) -> (r: Ty)
        ensures
            r == (Ty::Decimal { precision, scale }),
    {
        Ty::Decimal { precision, scale }
    }

    /// For a signed integer type its width class, from 1 (TINYINT) to 5 (HUGEINT).
    pub open spec fn signed_width(self) -> Option<u8> {
        match self {
            Ty::TinyInt => Some(1),
            Ty::SmallInt => Some(2),
            Ty::Int => Some(3),
            Ty::BigInt => Some(4),
            Ty::HugeInt => Some(5),
            _ => None,
        }
    }

    /// For an unsigned integer type its width class, from 1 to 4.
    pub open spec fn unsigned_width(self) -> Option<u8> {
        match self {
            Ty::UTinyInt => Some(1),
            Ty::USmallInt => Some(2),
            Ty::UInt => Some(3),
            Ty::UBigInt => Some(4),
            _ => None,
        }
    }

    /// The signed integer type of a width class.
    pub open spec fn signed_of(w: u8) -> Ty {
        if w <= 1 {
            Ty::TinyInt
        } else if w == 2 {
            Ty::SmallInt
        } else if w == 3 {
            Ty::Int
        } else if w == 4 {
            Ty::BigInt
        } else {
            Ty::HugeInt
        }
    }

    /// The type that holds the values of both types, where there is one: the
    /// same type, the wider of two integer types (a signed and an unsigned one
    /// meet in the signed type above both), DOUBLE for the two float types, and
    /// the other type next to NULL.
    pub open spec fn unified(a: Ty, b: Ty) -> Option<Ty> {
        if a == b {
            Some(a)
        } else if a == Ty::Null {
            Some(b)
        } else if b == Ty::Null {
            Some(a)
        } else {
            match (a.signed_width(), b.signed_width(), a.unsigned_width(), b.unsigned_width()) {
                (Some(x), Some(y), _, _) => Some(if x < y { b } else { a }),
                (_, _, Some(x), Some(y)) => Some(if x < y { b } else { a }),
                (Some(x), _, _, Some(y)) => Some(
                    Ty::signed_of(if x > y { x } else { (y + 1) as u8 }),
                ),
                (_, Some(x), Some(y), _) => Some(
                    Ty::signed_of(if x > y { x } else { (y + 1) as u8 }),
                ),
                _ => if (a == Ty::Float || a == Ty::Double) && (b == Ty::Float || b == Ty::Double) {
                    Some(Ty::Double)
                } else {
                    None
                },
            }
        }
    }

    fn signed_class(self) -> (r: Option<u8>)
        ensures
            r == self.signed_width(),
    {
        match self {
            Ty::TinyInt => Some(1),
            Ty::SmallInt => Some(2),
            Ty::Int => Some(3),
            Ty::BigInt => Some(4),
            Ty::HugeInt => Some(5),
            _ => None,
        }
    }

    fn unsigned_class(self) -> (r: Option<u8>)
        ensures
            r == self.unsigned_width(),
    {
        match self {
            Ty::UTinyInt => Some(1),
            Ty::USmallInt => Some(2),
            Ty::UInt => Some(3),
            Ty::UBigInt => Some(4),
            _ => None,
        }
    }

    fn signed_type(w: u8) -> (r: Ty)
        ensures
            r == Ty::signed_of(w),
    {
        if w <= 1 {
            Ty::TinyInt
        } else if w == 2 {
            Ty::SmallInt
        } else if w == 3 {
            Ty::Int
        } else if w == 4 {
            Ty::BigInt
        } else {
            Ty::HugeInt
        }
    }

    /// Finds the type that two column types widen to.
    pub fn unify(a: Ty, b: Ty) -> (r: Option<Ty>)
        ensures
            r == Ty::unified(a, b),
    {
        if a == b {
            return Some(a);
        }
        if a == Ty::Null {
            return Some(b);
        }
        if b == Ty::Null {
            return Some(a);
        }
        match (a.signed_class(), b.signed_class(), a.unsigned_class(), b.unsigned_class()) {
            (Some(x), Some(y), _, _) => Some(if x < y { b } else { a }),
            (_, _, Some(x), Some(y)) => Some(if x < y { b } else { a }),
            (Some(x), _, _, Some(y)) => Some(Ty::signed_type(if x > y { x } else { y + 1 })),
            (_, Some(x), Some(y), _) => Some(Ty::signed_type(if x > y { x } else { y + 1 })),
            _ => if (a == Ty::Float || a == Ty::Double) && (b == Ty::Float || b == Ty::Double) {
                Some(Ty::Double)
            } else {
                None
            },
        }
    }
}

/// Widening does not depend on which type comes first.
pub proof fn unified_is_symmetric(a: Ty, b: Ty)
    ensures
        Ty::unified(a, b) == Ty::unified(b, a),
{
}

/// One value. A floating-point number is held as its IEEE-754 bit pattern.
#[derive(PartialEq, Debug)]
pub enum Value {
    Null,
    Bool(bool),
    I32(i32),
    I64(i64),
    I128(i128),
    F64(u64),
    Bytes(Vec<u8>),
}

/// A value as mathematics sees it.
pub enum Val {
    Null,
    Bool(bool),
    I32(i32),
    I64(i64),
    I128(i128),
    F64(u64),
    Bytes(Seq<u8>),
}

impl View for Value {
    type V = Val;

    open spec fn view(&self) -> Val {
        match self {
            Value::Null => Val::Null,
            Value::Bool(b) => Val::Bool(*b),
            Value::I32(x) => Val::I32(*x),
            Value::I64(x) => Val::I64(*x),
            Value::I128(x) => Val::I128(*x),
            Value::F64(x) => Val::F64(*x),
            Value::Bytes(b) => Val::Bytes(b@),
        }
    }
}

impl Val {
    /// The storage of a value, `None` for NULL.
    pub open spec fn phys(self) -> Option<PhysType> {
        match self {
            Val::Null => None,
            Val::Bool(_) => Some(PhysType::Bool),
            Val::I32(_) => Some(PhysType::I32),
            Val::I64(_) => Some(PhysType::I64),
            Val::I128(_) => Some(PhysType::I128),
            Val::F64(_) => Some(PhysType::F64),
            Val::Bytes(_) => Some(PhysType::Bytes),
        }
    }

    /// Whether a column of storage `p` can hold the value. NULL fits anywhere.
    pub open spec fn fits(self, p: PhysType) -> bool {
        self is Null || self.phys() == Some(p)
    }

    /// The integer a value stands for, where it is one.
    pub open spec fn as_int(self) -> Option<int> {
        match self {
            Val::I32(x) => Some(x as int),
            Val::I64(x) => Some(x as int),
            Val::I128(x) => Some(x as int),
            _ => None,
        }
    }

    pub open spec fn as_i64_spec(self) -> Option<i64> {
        match self.as_int() {
            Some(x) => if i64::MIN <= x <= i64::MAX {
                Some(x as i64)
            } else {
                None
            },
            None => None,
        }
    }
}

impl Value {
    pub fn is_null(&self) -> (r: bool)
        ensures
            r == (self@ is Null),
    {
        match self {
            Value::Null => true,
            _ => false,
        }
    }

    /// A copy of the value.
    pub fn dup(&self) -> (r: Value)
        ensures
            r@ == self@,
    {
        match self {
            Value::Null => Value::Null,
            Value::Bool(b) => Value::Bool(*b),
            Value::I32(x) => Value::I32(*x),
            Value::I64(x) => Value::I64(*x),
            Value::I128(x) => Value::I128(*x),
            Value::F64(x) => Value::F64(*x),
            Value::Bytes(b) => Value::Bytes(copy_bytes(b.as_slice())),
        }
    }

    pub fn phys(&self) -> (r: Option<PhysType>)
        ensures
            r == self@.phys(),
    {
        match self {
            Value::Null => None,
            Value::Bool(_) => Some(PhysType::Bool),
            Value::I32(_) => Some(PhysType::I32),
            Value::I64(_) => Some(PhysType::I64),
            Value::I128(_) => Some(PhysType::I128),
            Value::F64(_) => Some(PhysType::F64),
            Value::Bytes(_) => Some(PhysType::Bytes),
        }
    }

    pub fn fits(&self, p: PhysType) -> (r: bool)
        ensures
            r == self@.fits(p),
    {
        match self.phys() {
            None => true,
            Some(q) => q == p,
        }
    }

    /// The value as an `i64`, for an integer in that range.
    pub fn as_i64(&self) -> (r: Option<i64>)
        ensures
            r == self@.as_i64_spec(),
    {
        match self {
            Value::I32(x) => Some(*x as i64),
            Value::I64(x) => Some(*x),
            Value::I128(x) => {
                if *x >= i64::MIN as i128 && *x <= i64::MAX as i128 {
                    Some(*x as i64)
                } else {
                    None
                }
            },
            _ => None,
        }
    }

    pub fn as_bool(&self) -> (r: Option<bool>)
        ensures
            match self@ {
                Val::Bool(b) => r == Some(b),
                _ => r is None,
            },
    {
        match self {
            Value::Bool(b) => Some(*b),
            _ => None,
        }
    }

    pub fn as_bytes(&self) -> (r: Option<&[u8]>)
        ensures
            match self@ {
                Val::Bytes(b) => r is Some && r->0@ == b,
                _ => r is None,
            },
    {
        match self {
            Value::Bytes(b) => Some(b.as_slice()),
            _ => None,
        }
    }

    /// The bit pattern of a floating-point value.
    pub fn as_f64_bits(&self) -> (r: Option<u64>)
        ensures
            match self@ {
                Val::F64(b) => r == Some(b),
                _ => r is None,
            },
    {
        match self {
            Value::F64(b) => Some(*b),
            _ => None,
        }
    }

    /// Whether two values are the same value.
    pub fn same(&self, other: &Value) -> (r: bool)
        ensures
            r == (self@ == other@),
    {
        match (self, other) {
            (Value::Null, Value::Null) => true,
            (Value::Bool(a), Value::Bool(b)) => *a == *b,
            (Value::I32(a), Value::I32(b)) => *a == *b,
            (Value::I64(a), Value::I64(b)) => *a == *b,
            (Value::I128(a), Value::I128(b)) => *a == *b,
            (Value::F64(a), Value::F64(b)) => *a == *b,
            (Value::Bytes(a), Value::Bytes(b)) => eq_bytes(a.as_slice(), b.as_slice()),
            _ => false,
        }
    }
}

impl Clone for Value {
    fn clone(&self) -> (r: Value)
        ensures
            r@ == self@,
    {
        self.dup()
    }
}

// --- Intervals -----------------------------------------------------------------

/// An INTERVAL is three independent components in one integer: months in the
/// top 32 bits, then days in 32 bits, then microseconds in the low 64 bits.
pub open spec fn packed_interval(months: i32, days: i32, micros: i64) -> i128 {
    ((months as u32 as u128) << 96u128 | (days as u32 as u128) << 64u128 | (micros as u64 as u128)) as i128
}

pub open spec fn interval_months(v: i128) -> i32 {
    ((v as u128) >> 96u128) as u32 as i32
}

pub open spec fn interval_days(v: i128) -> i32 {
    (((v as u128) >> 64u128) & 0xffff_ffffu128) as u32 as i32
}

pub open spec fn interval_micros(v: i128) -> i64 {
    ((v as u128) & 0xffff_ffff_ffff_ffffu128) as u64 as i64
}

pub fn pack_interval(months: i32, days: i32, micros: i64) -> (r: i128)
    ensures
        r == packed_interval(months, days, micros),
{
    let m: u128 = #[verifier::truncate] (months as u32) as u128;
    let d: u128 = #[verifier::truncate] (days as u32) as u128;
    let u: u128 = #[verifier::truncate] (micros as u64) as u128;
    #[verifier::truncate] ((m << 96u128 | d << 64u128 | u) as i128)
}

pub fn unpack_interval(v: i128) -> (r: (i32, i32, i64))
    ensures
        r.0 == interval_months(v),
        r.1 == interval_days(v),
        r.2 == interval_micros(v),
{
    let w: u128 = #[verifier::truncate] (v as u128);
    let months: i32 = #[verifier::truncate] ((w >> 96u128) as u32 as i32);
    let days: i32 = #[verifier::truncate] (((w >> 64u128) & 0xffff_ffffu128) as u32 as i32);
    let micros: i64 = #[verifier::truncate] ((w & 0xffff_ffff_ffff_ffffu128) as u64 as i64);
    (months, days, micros)
}

/// Unpacking gives back the components that were packed.
pub proof fn interval_components_survive_packing(months: i32, days: i32, micros: i64)
    ensures
        interval_months(packed_interval(months, days, micros)) == months,
        interval_days(packed_interval(months, days, micros)) == days,
        interval_micros(packed_interval(months, days, micros)) == micros,
{
    assert(((((months as u32 as u128) << 96u128 | (days as u32 as u128) << 64u128 | (micros as u64 as u128)) as i128 as u128) >> 96u128) as u32 as i32 == months) by (bit_vector);
    assert((((((months as u32 as u128) << 96u128 | (days as u32 as u128) << 64u128 | (micros as u64 as u128)) as i128 as u128) >> 64u128) & 0xffff_ffffu128) as u32 as i32 == days) by (bit_vector);
    assert(((((months as u32 as u128) << 96u128 | (days as u32 as u128) << 64u128 | (micros as u64 as u128)) as i128 as u128) & 0xffff_ffff_ffff_ffffu128) as u64 as i64 == micros) by (bit_vector);
}

/// The span of an interval in microseconds, with a month counted as 30 days and
/// a day as 24 hours.
pub open spec fn interval_span(v: i128) -> int {
    interval_months(v) * 2_592_000_000_000 + interval_days(v) * 86_400_000_000 + interval_micros(v)
}

/// Normalizes an INTERVAL into one comparable microsecond count.
pub fn interval_key(v: i128) -> (r: i128)
    ensures
        r == interval_span(v),
{
    let (months, days, micros) = unpack_interval(v);
    (months as i128) * 2_592_000_000_000 + (days as i128) * 86_400_000_000 + (micros as i128)
}

// --- Comparing values ------------------------------------------------------------

/// The order of two non-NULL values of one column type. Values of different
/// storage count as equal: no order is imposed on them.
pub open spec fn val_order(a: Val, b: Val, ty: Ty) -> Order {
    match (a, b) {
        (Val::Bool(x), Val::Bool(y)) => int_order(bool_rank(x), bool_rank(y)),
        (Val::I32(x), Val::I32(y)) => int_order(x as int, y as int),
        (Val::I64(x), Val::I64(y)) => int_order(x as int, y as int),
        (Val::I128(x), Val::I128(y)) => if ty == Ty::Interval {
            int_order(interval_span(x), interval_span(y))
        } else {
            int_order(x as int, y as int)
        },
        (Val::F64(x), Val::F64(y)) => int_order(f64_rank(x) as int, f64_rank(y) as int),
        (Val::Bytes(x), Val::Bytes(y)) => bytes_order(x, y),
        _ => Order::Equal,
    }
}

/// Compares two values of a column of type `ty`.
pub fn order_values(a: &Value, b: &Value, ty: Ty) -> (r: Order)
    ensures
        r == val_order(a@, b@, ty),
{
    match (a, b) {
        (Value::Bool(x), Value::Bool(y)) => order_bool(*x, *y),
        (Value::I32(x), Value::I32(y)) => order_i128(*x as i128, *y as i128),
        (Value::I64(x), Value::I64(y)) => order_i128(*x as i128, *y as i128),
        (Value::I128(x), Value::I128(y)) => if ty == Ty::Interval {
            order_i128(interval_key(*x), interval_key(*y))
        } else {
            order_i128(*x, *y)
        },
        (Value::F64(x), Value::F64(y)) => ord_f64(*x, *y),
        (Value::Bytes(x), Value::Bytes(y)) => order_bytes(x.as_slice(), y.as_slice()),
        _ => Order::Equal,
    }
}

/// On the non-NULL values of one storage the order is antisymmetric.
pub proof fn val_order_flips(a: Val, b: Val, ty: Ty)
    ensures
        val_order(b, a, ty) == val_order(a, b, ty).flipped(),
{
    if let (Val::Bytes(x), Val::Bytes(y)) = (a, b) {
        crate::order::bytes_order_flips(x, y);
    }
}

/// On the non-NULL values of one storage the order is transitive, and strict
/// wherever one of the two steps is.
pub proof fn val_order_is_transitive(a: Val, b: Val, c: Val, ty: Ty)
    requires
        a.phys() is Some,
        a.phys() == b.phys(),
        b.phys() == c.phys(),
        val_order(a, b, ty) != Order::Greater,
        val_order(b, c, ty) != Order::Greater,
    ensures
        val_order(a, c, ty) != Order::Greater,
        val_order(a, b, ty) == Order::Less || val_order(b, c, ty) == Order::Less ==> val_order(
            a,
            c,
            ty,
        ) == Order::Less,
{
    if let (Val::Bytes(x), Val::Bytes(y)) = (a, b) {
        if let Val::Bytes(z) = c {
            crate::order::bytes_order_is_transitive(x, y, z);
        }
    }
}

// --- Columns ---------------------------------------------------------------------

/// A named, typed column of a schema.
#[derive(Debug)]
pub struct Field {
    pub name: String,
    pub ty: Ty,
    pub nullable: bool,
}

/// A field as mathematics sees it.
pub struct FieldV {
    pub name: Seq<char>,
    pub ty: Ty,
    pub nullable: bool,
}

impl View for Field {
    type V = FieldV;

    open spec fn view(&self) -> FieldV {
        FieldV { name: self.name@, ty: self.ty, nullable: self.nullable }
    }
}

/// The fields of a schema.
pub open spec fn fields_of(schema: Seq<Field>) -> Seq<FieldV> {
    Seq::new(schema.len(), |i: int| schema[i]@)
}

/// The bytes of a name.
pub open spec fn name_bytes(name: Seq<char>) -> Seq<u8> {
    vstd::utf8::encode_utf8(name)
}

/// A copy of a schema.
pub fn dup_fields(schema: &[Field]) -> (r: Vec<Field>)
    ensures
        fields_of(r@) == fields_of(schema@),
        r@.len() == schema@.len(),
{
    let mut r: Vec<Field> = Vec::new();
    let mut i: usize = 0;
    while i < schema.len()
        invariant
            i <= schema@.len(),
            r@.len() == i,
            forall|j: int| 0 <= j < i ==> (#[trigger] r@[j])@ == schema@[j]@,
        decreases schema@.len() - i,
    {
        r.push(schema[i].dup());
        i = i + 1;
    }
    assert(fields_of(r@) =~= fields_of(schema@));
    r
}

impl Field {
    pub fn new(name: &str, ty: Ty, nullable: bool) -> (f: Field)
        ensures
            f@ == (FieldV { name: name@, ty, nullable }),
    {
        Field { name: name.to_owned(), ty, nullable }
    }

    /// A copy of the field.
    pub fn dup(&self) -> (f: Field)
        ensures
            f@ == self@,
    {
        Field { name: self.name.clone(), ty: self.ty, nullable: self.nullable }
    }
}

/// One column.
#[derive(Debug)]
pub struct Vector {
    ty: Ty,
    cells: Vec<Value>,
}

impl View for Vector {
    type V = Seq<Val>;

    closed spec fn view(&self) -> Seq<Val> {
        Seq::new(self.cells@.len(), |i: int| self.cells@[i]@)
    }
}

/// Whether every cell fits the storage of a column.
pub open spec fn cells_fit(cells: Seq<Val>, p: PhysType) -> bool {
    forall|i: int| 0 <= i < cells.len() ==> (#[trigger] cells[i]).fits(p)
}

/// The cells at the given row numbers, in that order.
pub open spec fn gathered(cells: Seq<Val>, idx: Seq<u32>) -> Seq<Val> {
    Seq::new(idx.len(), |k: int| cells[idx[k] as int])
}

impl Vector {
    pub closed spec fn spec_ty(&self) -> Ty {
        self.ty
    }

    /// Every cell fits the column's type.
    pub open spec fn wf(&self) -> bool {
        cells_fit(self@, self.spec_ty().phys())
    }

    pub fn new(ty: Ty) -> (v: Vector)
        ensures
            v.wf(),
            v.spec_ty() == ty,
            v@ == Seq::<Val>::empty(),
    {
        let v = Vector { ty, cells: Vec::new() };
        assert(v@ =~= Seq::<Val>::empty());
        v
    }

    pub fn with_capacity(ty: Ty, n: usize) -> (v: Vector)
        ensures
            v.wf(),
            v.spec_ty() == ty,
            v@ == Seq::<Val>::empty(),
    {
        let v = Vector { ty, cells: Vec::with_capacity(n) };
        assert(v@ =~= Seq::<Val>::empty());
        v
    }

    #[verifier::when_used_as_spec(spec_ty)]
    pub fn ty(&self) -> (r: Ty)
        ensures
            r == self.spec_ty(),
    {
        self.ty
    }

    /// The storage of the column.
    pub fn phys(&self) -> (r: PhysType)
        ensures
            r == self.ty().phys(),
    {
        self.ty.phys()
    }

    pub fn len(&self) -> (n: usize)
        ensures
            n == self@.len(),
    {
        self.cells.len()
    }

    pub fn is_empty(&self) -> (r: bool)
        ensures
            r == (self@.len() == 0),
    {
        self.cells.len() == 0
    }

    /// Whether the cell holds a value (is not NULL).
    pub fn is_valid(&self, row: usize) -> (r: bool)
        requires
            row < self@.len(),
        ensures
            r == !(self@[row as int] is Null),
    {
        !self.cells[row].is_null()
    }

    pub fn cell(&self, row: usize) -> (r: &Value)
        requires
            row < self@.len(),
        ensures
            r@ == self@[row as int],
    {
        &self.cells[row]
    }

    pub fn value_at(&self, row: usize) -> (r: Value)
        requires
            row < self@.len(),
        ensures
            r@ == self@[row as int],
    {
        self.cells[row].dup()
    }

    /// Whether any cell is NULL.
    pub fn has_nulls(&self) -> (r: bool)
        ensures
            r == exists|i: int| 0 <= i < self@.len() && #[trigger] self@[i] is Null,
    {
        let mut i: usize = 0;
        while i < self.cells.len()
            invariant
                i <= self@.len(),
                self@.len() == self.cells@.len(),
                forall|j: int| 0 <= j < i ==> !(#[trigger] self@[j] is Null),
            decreases self@.len() - i,
        {
            if self.cells[i].is_null() {
                assert(self@[i as int] is Null);
                return true;
            }
            i = i + 1;
        }
        false
    }

    /// Appends a value. One that does not fit the column's storage is ignored.
    pub fn push_value(&mut self, v: &Value)
        requires
            old(self).wf(),
        ensures
            final(self).wf(),
            final(self).ty() == old(self).ty(),
            final(self)@ == if v@.fits(old(self).ty().phys()) {
                old(self)@.push(v@)
            } else {
                old(self)@
            },
    {
        if v.fits(self.ty.phys()) {
            self.cells.push(v.dup());
            assert(self@ =~= old(self)@.push(v@));
        }
    }

    /// Appends a value that fits, without copying it.
    pub fn push_owned(&mut self, v: Value)
        requires
            old(self).wf(),
            v@.fits(old(self).ty().phys()),
        ensures
            final(self).wf(),
            final(self).ty() == old(self).ty(),
            final(self)@ == old(self)@.push(v@),
    {
        self.cells.push(v);
        assert(self@ =~= old(self)@.push(v@));
    }

    pub fn push_null(&mut self)
        requires
            old(self).wf(),
        ensures
            final(self).wf(),
            final(self).ty() == old(self).ty(),
            final(self)@ == old(self)@.push(Val::Null),
    {
        self.cells.push(Value::Null);
        assert(self@ =~= old(self)@.push(Val::Null));
    }

    /// A new column of the cells at `idx`, in that order.
    pub fn gather(&self, idx: &[u32]) -> (v: Vector)
        requires
            self.wf(),
            forall|k: int| 0 <= k < idx@.len() ==> #[trigger] idx@[k] < self@.len(),
        ensures
            v.wf(),
            v.ty() == self.ty(),
            v@ == gathered(self@, idx@),
    {
        let mut v = Vector::with_capacity(self.ty, idx.len());
        let mut k: usize = 0;
        while k < idx.len()
            invariant
                self.wf(),
                forall|k: int| 0 <= k < idx@.len() ==> #[trigger] idx@[k] < self@.len(),
                k <= idx@.len(),
                v.wf(),
                v.ty() == self.ty(),
                v@ == gathered(self@, idx@.take(k as int)),
            decreases idx@.len() - k,
        {
            let x: Value = self.value_at(idx[k] as usize);
            assert(self@[idx@[k as int] as int].fits(self.ty().phys()));
            v.push_owned(x);
            k = k + 1;
            assert(v@ =~= gathered(self@, idx@.take(k as int)));
        }
        assert(idx@.take(k as int) =~= idx@);
        v
    }

    /// A copy of the column.
    pub fn dup(&self) -> (v: Vector)
        requires
            self.wf(),
        ensures
            v.wf(),
            v.ty() == self.ty(),
            v@ == self@,
    {
        let mut v = Vector::new(self.ty);
        append(&mut v, self);
        assert(v@ =~= self@);
        v
    }
}

impl Clone for Vector {
    fn clone(&self) -> (v: Vector)
        ensures
            v.ty() == self.ty(),
            v@ == self@,
    {
        let mut cells: Vec<Value> = Vec::new();
        let mut i: usize = 0;
        while i < self.cells.len()
            invariant
                i <= self.cells@.len(),
                cells@.len() == i,
                forall|j: int| 0 <= j < i ==> (#[trigger] cells@[j])@ == self.cells@[j]@,
            decreases self.cells@.len() - i,
        {
            cells.push(self.cells[i].dup());
            i = i + 1;
        }
        let v = Vector { ty: self.ty, cells };
        assert(v@ =~= self@);
        v
    }
}

/// Appends every cell of `src`. Both columns have the same storage.
fn append(dst: &mut Vector, src: &Vector)
    requires
        old(dst).wf(),
        src.wf(),
        old(dst).ty().phys() == src.ty().phys(),
    ensures
        final(dst).wf(),
        final(dst).ty() == old(dst).ty(),
        final(dst)@ == old(dst)@ + src@,
{
    let mut i: usize = 0;
    while i < src.len()
        invariant
            i <= src@.len(),
            src.wf(),
            dst.wf(),
            dst.ty() == old(dst).ty(),
            dst.ty().phys() == src.ty().phys(),
            dst@ == old(dst)@ + src@.take(i as int),
        decreases src@.len() - i,
    {
        assert(src@[i as int].fits(src.ty().phys()));
        dst.push_owned(src.value_at(i));
        i = i + 1;
        assert(dst@ =~= old(dst)@ + src@.take(i as int));
    }
    assert(src@.take(i as int) =~= src@);
}

/// Appends every cell of `src` to `dst`. Columns of different storage are a
/// fault of whoever assembled the operators.
pub fn append_column(dst: &mut Vector, src: &Vector) -> (r: Result<(), Error>)
    requires
        old(dst).wf(),
        src.wf(),
    ensures
        final(dst).wf(),
        final(dst).ty() == old(dst).ty(),
        match r {
            Ok(()) => old(dst).ty().phys() == src.ty().phys() && final(dst)@ == old(dst)@ + src@,
            Err(e) => old(dst).ty().phys() != src.ty().phys() && e.code == Code::Internal
                && final(dst)@ == old(dst)@,
        },
{
    if dst.phys() != src.phys() {
        return Err(Error::new(Code::Internal));
    }
    append(dst, src);
    Ok(())
}

/// A column of `n` NULLs.
pub fn null_vector(ty: Ty, n: usize) -> (v: Vector)
    ensures
        v.wf(),
        v.ty() == ty,
        v@ == Seq::new(n as nat, |i: int| Val::Null),
{
    let mut v = Vector::with_capacity(ty, n);
    let mut i: usize = 0;
    while i < n
        invariant
            i <= n,
            v.wf(),
            v.ty() == ty,
            v@ == Seq::new(i as nat, |i: int| Val::Null),
        decreases n - i,
    {
        v.push_null();
        i = i + 1;
        assert(v@ =~= Seq::new(i as nat, |i: int| Val::Null));
    }
    v
}

// --- Batches ---------------------------------------------------------------------

/// A set of equally long columns, optionally narrowed by a selection vector.
#[derive(Debug)]
pub struct Batch {
    pub cols: Vec<Vector>,
    /// The physical rows to look at, in order. `None` means all of them.
    pub sel: Option<Vec<u32>>,
    /// The row count of a batch without columns.
    pub empty_rows: usize,
}

/// The cells of the columns at one physical row.
pub open spec fn row_at(cols: Seq<Vector>, r: int) -> Seq<Val> {
    Seq::new(cols.len(), |c: int| cols[c]@[r])
}

/// All columns have `n` cells and each cell fits its column.
pub open spec fn cols_wf(cols: Seq<Vector>, n: int) -> bool {
    forall|c: int| 0 <= c < cols.len() ==> (#[trigger] cols[c]).wf() && cols[c]@.len() == n
}

impl Batch {
    /// The number of physical rows.
    pub open spec fn spec_num_rows(&self) -> int {
        if self.cols@.len() > 0 {
            self.cols@[0]@.len() as int
        } else {
            self.empty_rows as int
        }
    }

    /// The number of selected rows.
    pub open spec fn spec_card(&self) -> int {
        match self.sel {
            Some(s) => s@.len() as int,
            None => self.spec_num_rows(),
        }
    }

    /// The physical row behind the `i`-th selected row.
    pub open spec fn phys_row(&self, i: int) -> int {
        match self.sel {
            Some(s) => s@[i] as int,
            None => i,
        }
    }

    /// The selected rows, in order.
    pub open spec fn rows(&self) -> Seq<Seq<Val>> {
        Seq::new(self.spec_card() as nat, |i: int| row_at(self.cols@, self.phys_row(i)))
    }

    /// The column types.
    pub open spec fn types(&self) -> Seq<Ty> {
        Seq::new(self.cols@.len(), |c: int| self.cols@[c].ty())
    }

    /// The columns agree in length, and the selection points at existing rows.
    pub open spec fn wf(&self) -> bool {
        &&& cols_wf(self.cols@, self.spec_num_rows())
        &&& self.spec_num_rows() <= MAX_ROWS
        &&& match self.sel {
            Some(s) => {
                &&& s@.len() <= MAX_ROWS
                &&& forall|k: int| 0 <= k < s@.len() ==> #[trigger] s@[k] < self.spec_num_rows()
            },
            None => true,
        }
    }

    /// A batch of the given columns.
    pub fn new(cols: Vec<Vector>) -> (b: Batch)
        ensures
            b.cols == cols,
            b.sel is None,
            b.empty_rows == 0,
    {
        Batch { cols, sel: None, empty_rows: 0 }
    }

    /// A batch without columns that still has rows.
    pub fn rows_only(n: usize) -> (b: Batch)
        ensures
            b.cols@.len() == 0,
            b.sel is None,
            b.empty_rows == n,
            b.spec_num_rows() == n,
            n <= MAX_ROWS ==> b.wf(),
    {
        Batch { cols: Vec::new(), sel: None, empty_rows: n }
    }

    /// A batch of `n` rows with the given columns, of which there may be none.
    pub fn of_columns(cols: Vec<Vector>, n: usize) -> (b: Batch)
        requires
            cols_wf(cols@, n as int),
            n <= MAX_ROWS,
        ensures
            b.wf(),
            b.cols == cols,
            b.sel is None,
            b.spec_num_rows() == n,
            b.spec_card() == n,
            b.rows() == Seq::new(n as nat, |i: int| row_at(cols@, i)),
    {
        if cols.len() == 0 {
            let b = Batch { cols, sel: None, empty_rows: n };
            assert(b.rows() =~= Seq::new(n as nat, |i: int| row_at(cols@, i)));
            return b;
        }
        assert(cols@[0]@.len() == n);
        let b = Batch::new(cols);
        assert(b.rows() =~= Seq::new(n as nat, |i: int| row_at(cols@, i)));
        b
    }

    pub fn num_rows(&self) -> (n: usize)
        ensures
            n == self.spec_num_rows(),
    {
        if self.cols.len() > 0 {
            self.cols[0].len()
        } else {
            self.empty_rows
        }
    }

    pub fn card(&self) -> (n: usize)
        ensures
            n == self.spec_card(),
    {
        match &self.sel {
            Some(s) => s.len(),
            None => self.num_rows(),
        }
    }

    /// The physical row of the `i`-th selected row.
    pub fn phys_index(&self, i: usize) -> (r: u32)
        requires
            self.wf(),
            i < self.spec_card(),
        ensures
            r == self.phys_row(i as int),
            r < self.spec_num_rows(),
    {
        match &self.sel {
            Some(s) => s[i],
            None => i as u32,
        }
    }

    /// Resolves the selection: afterwards the selected rows are the physical rows.
    pub fn materialize(&mut self)
        requires
            old(self).wf(),
        ensures
            final(self).wf(),
            final(self).sel is None,
            final(self).rows() == old(self).rows(),
            final(self).types() == old(self).types(),
            final(self).cols@.len() == old(self).cols@.len(),
            final(self).spec_num_rows() == old(self).spec_card(),
    {
        let sel: Option<Vec<u32>> = self.sel.take();
        if let Some(s) = sel {
            let ghost before = *old(self);
            let mut i: usize = 0;
            while i < self.cols.len()
                invariant
                    before == *old(self),
                    before.wf(),
                    before.sel == Some(s),
                    self.sel is None,
                    self.cols@.len() == before.cols@.len(),
                    i <= self.cols@.len(),
                    self.empty_rows == before.empty_rows,
                    forall|c: int| i <= c < self.cols@.len() ==> self.cols@[c] == before.cols@[c],
                    forall|c: int|
                        0 <= c < i ==> (#[trigger] self.cols@[c]).wf() && self.cols@[c].ty()
                            == before.cols@[c].ty() && self.cols@[c]@ == gathered(
                            before.cols@[c]@,
                            s@,
                        ),
                decreases self.cols@.len() - i,
            {
                assert(before.cols@[i as int].wf());
                let g = self.cols[i].gather(s.as_slice());
                self.cols[i] = g;
                i = i + 1;
            }
            self.empty_rows = s.len();
            proof {
                assert(self.spec_num_rows() == s@.len());
                assert(self.types() =~= before.types());
                assert forall|k: int| 0 <= k < s@.len() implies self.rows()[k] == before.rows()[k] by {
                    assert(self.rows()[k] =~= before.rows()[k]);
                }
                assert(self.rows() =~= before.rows());
            }
        } else {
            assert(self.rows() =~= old(self).rows());
            assert(self.types() =~= old(self).types());
        }
    }
}

impl Batch {
    /// Keeps the selected rows whose flag is set, as a selection.
    pub fn narrowed(self, keep: &Vec<bool>) -> (b: Batch)
        requires
            self.wf(),
            keep@.len() == self.spec_card(),
        ensures
            b.wf(),
            b.cols == self.cols,
            b.types() == self.types(),
            b.rows() == kept(self.rows(), keep@),
            b.spec_card() == kept(self.rows(), keep@).len(),
    {
        let ghost ps = phys_rows(self);
        let mut sel: Vec<u32> = Vec::new();
        let n: usize = self.card();
        let mut i: usize = 0;
        assert(ps.take(0) =~= Seq::empty());
        while i < n
            invariant
                self.wf(),
                n == self.spec_card(),
                keep@.len() == n,
                i <= n,
                ps == phys_rows(self),
                sel@ == kept(ps.take(i as int), keep@.take(i as int)),
            decreases n - i,
        {
            proof {
                lemma_kept_step(ps, keep@, i as int);
            }
            if keep[i] {
                sel.push(self.phys_index(i));
            }
            i = i + 1;
        }
        assert(ps.take(i as int) =~= ps);
        assert(keep@.take(i as int) =~= keep@);
        let b = Batch { cols: self.cols, sel: Some(sel), empty_rows: self.empty_rows };
        proof {
            lemma_selected(self, b, keep@);
        }
        b
    }
}

/// Gathers one column after another.
pub fn gather_columns(cols: &Vec<Vector>, idx: &[u32], n: usize) -> (out: Vec<Vector>)
    requires
        cols_wf(cols@, n as int),
        forall|k: int| 0 <= k < idx@.len() ==> #[trigger] idx@[k] < n,
    ensures
        out@.len() == cols@.len(),
        cols_wf(out@, idx@.len() as int),
        forall|c: int|
            0 <= c < cols@.len() ==> (#[trigger] out@[c])@ == gathered(cols@[c]@, idx@)
                && out@[c].ty() == cols@[c].ty(),
        forall|k: int| 0 <= k < idx@.len() ==> row_at(out@, k) == row_at(cols@, idx@[k] as int),
{
    let mut out: Vec<Vector> = Vec::new();
    let mut c: usize = 0;
    while c < cols.len()
        invariant
            c <= cols@.len(),
            out@.len() == c,
            cols_wf(cols@, n as int),
            forall|k: int| 0 <= k < idx@.len() ==> #[trigger] idx@[k] < n,
            cols_wf(out@, idx@.len() as int),
            forall|d: int|
                0 <= d < c ==> (#[trigger] out@[d])@ == gathered(cols@[d]@, idx@) && out@[d].ty()
                    == cols@[d].ty(),
        decreases cols@.len() - c,
    {
        assert(cols@[c as int].wf());
        out.push(cols[c].gather(idx));
        c = c + 1;
    }
    assert forall|k: int| 0 <= k < idx@.len() implies row_at(out@, k) == row_at(
        cols@,
        idx@[k] as int,
    ) by {
        assert(row_at(out@, k) =~= row_at(cols@, idx@[k] as int));
    }
    out
}

/// The row numbers `start..end`.
pub fn row_numbers(start: usize, end: usize) -> (idx: Vec<u32>)
    requires
        start <= end <= u32::MAX,
    ensures
        idx@ == Seq::new((end - start) as nat, |k: int| (start + k) as u32),
{
    let mut idx: Vec<u32> = Vec::new();
    let mut i: usize = start;
    while i < end
        invariant
            start <= i <= end <= u32::MAX,
            idx@ == Seq::new((i - start) as nat, |k: int| (start + k) as u32),
        decreases end - i,
    {
        idx.push(i as u32);
        i = i + 1;
        assert(idx@ =~= Seq::new((i - start) as nat, |k: int| (start + k) as u32));
    }
    idx
}

// --- Selections ------------------------------------------------------------------

/// The items whose flag is set, in order.
pub open spec fn kept<T>(xs: Seq<T>, keep: Seq<bool>) -> Seq<T>
    decreases xs.len(),
{
    if xs.len() == 0 {
        Seq::empty()
    } else {
        let front = kept(xs.drop_last(), keep.drop_last());
        if keep.last() {
            front.push(xs.last())
        } else {
            front
        }
    }
}

/// The physical rows behind a batch's selected rows.
pub open spec fn phys_rows(b: Batch) -> Seq<u32> {
    Seq::new(b.spec_card() as nat, |i: int| b.phys_row(i) as u32)
}

pub(crate) proof fn lemma_kept_step<T>(xs: Seq<T>, keep: Seq<bool>, k: int)
    requires
        0 <= k < xs.len(),
        xs.len() == keep.len(),
    ensures
        kept(xs.take(k + 1), keep.take(k + 1)) == if keep[k] {
            kept(xs.take(k), keep.take(k)).push(xs[k])
        } else {
            kept(xs.take(k), keep.take(k))
        },
{
    assert(xs.take(k + 1).drop_last() =~= xs.take(k));
    assert(keep.take(k + 1).drop_last() =~= keep.take(k));
}

/// What is kept is no longer than the whole, and every kept item is one of it.
pub(crate) proof fn lemma_kept_subset<T>(xs: Seq<T>, keep: Seq<bool>)
    requires
        xs.len() == keep.len(),
    ensures
        kept(xs, keep).len() <= xs.len(),
        forall|k: int| 0 <= k < kept(xs, keep).len() ==> xs.contains(#[trigger] kept(xs, keep)[k]),
    decreases xs.len(),
{
    if xs.len() > 0 {
        let front = kept(xs.drop_last(), keep.drop_last());
        lemma_kept_subset(xs.drop_last(), keep.drop_last());
        assert forall|k: int| 0 <= k < kept(xs, keep).len() implies xs.contains(#[trigger] kept(xs, keep)[k]) by {
            if k < front.len() {
                let x = front[k];
                assert(xs.drop_last().contains(x));
                let j = choose|j: int| 0 <= j < xs.drop_last().len() && xs.drop_last()[j] == x;
                assert(xs[j] == x);
            } else {
                assert(xs[xs.len() - 1] == kept(xs, keep)[k]);
            }
        }
    }
}

/// With every flag set, everything is kept.
pub(crate) proof fn lemma_kept_all<T>(xs: Seq<T>, keep: Seq<bool>)
    requires
        xs.len() == keep.len(),
        forall|i: int| 0 <= i < keep.len() ==> #[trigger] keep[i],
    ensures
        kept(xs, keep) == xs,
    decreases xs.len(),
{
    if xs.len() > 0 {
        assert(keep[keep.len() - 1]);
        assert forall|i: int| 0 <= i < keep.drop_last().len() implies #[trigger] keep.drop_last()[i] by {
            assert(keep[i]);
        }
        lemma_kept_all(xs.drop_last(), keep.drop_last());
        assert(kept(xs, keep) =~= xs);
    } else {
        assert(kept(xs, keep) =~= xs);
    }
}

pub(crate) proof fn lemma_kept_append<T>(a: Seq<T>, b: Seq<T>, f: Seq<bool>, g: Seq<bool>)
    requires
        a.len() == f.len(),
        b.len() == g.len(),
    ensures
        kept(a + b, f + g) == kept(a, f) + kept(b, g),
    decreases b.len(),
{
    if b.len() == 0 {
        assert(a + b =~= a);
        assert(f + g =~= f);
        assert(kept(a, f) + kept(b, g) =~= kept(a, f));
    } else {
        lemma_kept_append(a, b.drop_last(), f, g.drop_last());
        assert((a + b).drop_last() =~= a + b.drop_last());
        assert((f + g).drop_last() =~= f + g.drop_last());
        assert(kept(a + b, f + g) =~= kept(a, f) + kept(b, g));
    }
}

/// Keeping some of the mapped items is mapping some of the items.
pub(crate) proof fn lemma_kept_mapped<A, B>(xs: Seq<A>, ys: Seq<B>, f: spec_fn(A) -> B, keep: Seq<bool>)
    requires
        xs.len() == keep.len(),
        ys == xs.map_values(f),
    ensures
        kept(ys, keep) == kept(xs, keep).map_values(f),
    decreases xs.len(),
{
    if xs.len() > 0 {
        assert(ys.drop_last() =~= xs.drop_last().map_values(f));
        lemma_kept_mapped(xs.drop_last(), ys.drop_last(), f, keep.drop_last());
        assert(kept(ys, keep) =~= kept(xs, keep).map_values(f));
    } else {
        assert(kept(ys, keep) =~= kept(xs, keep).map_values(f));
    }
}

/// Selecting the flagged ones of a batch's selected rows leaves exactly those rows.
pub(crate) proof fn lemma_selected(before: Batch, after: Batch, keep: Seq<bool>)
    requires
        before.wf(),
        keep.len() == before.spec_card(),
        after.cols == before.cols,
        after.empty_rows == before.empty_rows,
        after.sel is Some,
        after.sel->0@ == kept(phys_rows(before), keep),
    ensures
        after.wf(),
        after.rows() == kept(before.rows(), keep),
        after.types() == before.types(),
{
    let ps = phys_rows(before);
    let f = |p: u32| row_at(before.cols@, p as int);
    assert forall|i: int| 0 <= i < ps.len() implies #[trigger] ps[i] < before.spec_num_rows() && ps[i] == before.phys_row(i) by {
        match before.sel {
            Some(s) => {
                assert(s@[i] < before.spec_num_rows());
            },
            None => {},
        }
    }
    assert(before.rows() =~= ps.map_values(f));
    lemma_kept_mapped(ps, before.rows(), f, keep);
    lemma_kept_subset(ps, keep);
    let s = after.sel->0@;
    assert forall|k: int| 0 <= k < s.len() implies #[trigger] s[k] < before.spec_num_rows() by {
        assert(ps.contains(kept(ps, keep)[k]));
        let j = choose|j: int| 0 <= j < ps.len() && ps[j] == s[k];
        assert(ps[j] < before.spec_num_rows());
    }
    assert(after.rows() =~= s.map_values(f));
    assert(after.types() =~= before.types());
}

// --- Sizes ---------------------------------------------------------------------------

/// A size that stops growing at the largest 64-bit number.
pub open spec fn sat64(n: int) -> int {
    if n > u64::MAX {
        u64::MAX as int
    } else {
        n
    }
}

/// The bytes of the byte strings among the cells.
pub open spec fn text_bytes(cells: Seq<Val>) -> int
    decreases cells.len(),
{
    if cells.len() == 0 {
        0
    } else {
        text_bytes(cells.drop_last()) + match cells.last() {
            Val::Bytes(s) => s.len() as int,
            _ => 0,
        }
    }
}

/// The approximate bytes that a column's values take.
pub open spec fn body_bytes(ty: Ty, cells: Seq<Val>) -> int {
    let n = cells.len() as int;
    match ty.phys() {
        PhysType::Bool => n / 8 + 1,
        PhysType::I32 => n * 4,
        PhysType::I64 => n * 8,
        PhysType::F64 => n * 8,
        PhysType::I128 => n * 16,
        PhysType::Bytes => text_bytes(cells) + (n + 1) * 4,
    }
}

proof fn lemma_text_bytes_positive(cells: Seq<Val>)
    ensures
        text_bytes(cells) >= 0,
    decreases cells.len(),
{
    if cells.len() > 0 {
        lemma_text_bytes_positive(cells.drop_last());
    }
}

fn text_size(v: &Vector) -> (r: u64)
    ensures
        r == sat64(text_bytes(v@)),
        text_bytes(v@) >= 0,
{
    let mut r: u64 = 0;
    let mut i: usize = 0;
    while i < v.len()
        invariant
            i <= v@.len(),
            r == sat64(text_bytes(v@.take(i as int))),
            text_bytes(v@.take(i as int)) >= 0,
        decreases v@.len() - i,
    {
        proof {
            assert(v@.take(i as int + 1).drop_last() =~= v@.take(i as int));
        }
        match v.cell(i) {
            Value::Bytes(s) => {
                r = r.saturating_add(s.len() as u64);
            },
            _ => {},
        }
        i = i + 1;
    }
    assert(v@.take(i as int) =~= v@);
    r
}

fn clamp64(x: u128) -> (r: u64)
    ensures
        r == sat64(x as int),
{
    if x > u64::MAX as u128 {
        u64::MAX
    } else {
        x as u64
    }
}

/// The approximate bytes that a column's values take.
pub fn body_size(v: &Vector) -> (r: u64)
    ensures
        r == sat64(body_bytes(v.ty(), v@)),
        body_bytes(v.ty(), v@) >= 0,
{
    let len: usize = v.len();
    let n: u128 = len as u128;
    proof {
        lemma_text_bytes_positive(v@);
    }
    match v.phys() {
        PhysType::Bool => clamp64(n / 8 + 1),
        PhysType::I32 => clamp64(n * 4),
        PhysType::I64 | PhysType::F64 => clamp64(n * 8),
        PhysType::I128 => clamp64(n * 16),
        PhysType::Bytes => {
            let t: u64 = text_size(v);
            clamp64(t as u128 + (n + 1) * 4)
        },
    }
}

} // verus!
