//! Error codes, types, values and batches.

use ahiru_core::error::{code_of, Code, Error};
use ahiru_core::order::Order;
use ahiru_core::vector::{
    append_column, null_vector, order_values, pack_interval, unpack_interval, Batch, Field, Ty, Value, Vector,
};

#[test]
fn error_codes_have_numbers_and_messages() {
    let e = Error::new(Code::TableNotFound);
    assert_eq!(e.code_u16(), 400);
    assert_eq!(e.message(), "table not found");
    assert_eq!(e.pos, u32::MAX);
    let e = Error::at(Code::SyntaxError, 17);
    assert_eq!((e.code_u16(), e.pos), (300, 17));
    assert_eq!(Error::new(Code::Internal).code_u16(), 900);
    assert_eq!(Error::new(Code::UnexpectedEof).code_u16(), 100);
    assert_eq!(Error::new(Code::MultipleRowsSubquery).message(), "scalar subquery returned more than one row");
    assert_eq!(code_of::<()>(Ok(())), None);
    assert_eq!(code_of::<()>(Err(Error::new(Code::Oom))), Some(Code::Oom));
}

#[test]
fn types_are_unified_either_way_round() {
    let all = [
        Ty::Null,
        Ty::Boolean,
        Ty::TinyInt,
        Ty::Int,
        Ty::BigInt,
        Ty::HugeInt,
        Ty::UBigInt,
        Ty::Float,
        Ty::Double,
        Ty::Decimal { precision: 9, scale: 2 },
        Ty::Varchar,
        Ty::Date,
        Ty::Timestamp,
        Ty::Json,
    ];
    for a in all {
        assert_eq!(Ty::unify(a, a), Some(a));
        for b in all {
            assert_eq!(Ty::unify(a, b), Ty::unify(b, a), "{a:?} {b:?}");
        }
    }
    assert_eq!(Ty::unify(Ty::Int, Ty::BigInt), Some(Ty::BigInt));
    assert_eq!(Ty::unify(Ty::Null, Ty::Date), Some(Ty::Date));
}

#[test]
fn intervals_keep_their_parts() {
    for (months, days, micros) in [(0, 0, 0), (1, 2, 3), (-1, -2, -3), (i32::MAX, i32::MIN, i64::MIN)] {
        assert_eq!(unpack_interval(pack_interval(months, days, micros)), (months, days, micros));
    }
    // A month is thirty days.
    let a = Value::I128(pack_interval(1, 0, 0));
    let b = Value::I128(pack_interval(0, 30, 0));
    assert_eq!(order_values(&a, &b, Ty::Interval), Order::Equal);
    assert_eq!(order_values(&a, &b, Ty::HugeInt), Order::Greater);
}

#[test]
fn values_are_read_as_what_they_are() {
    assert_eq!(Value::I32(5).as_i64(), Some(5));
    assert_eq!(Value::I128(1 << 70).as_i64(), None);
    assert_eq!(Value::Bool(true).as_bool(), Some(true));
    assert_eq!(Value::Bytes(b"x".to_vec()).as_bytes(), Some(&b"x"[..]));
    assert!(Value::Null.is_null() && Value::Null.phys().is_none());
    assert!(Value::I64(1).same(&Value::I64(1)) && !Value::I64(1).same(&Value::I32(1)));
    assert!(Value::Null.fits(Ty::Int.phys()) && !Value::I64(1).fits(Ty::Int.phys()));
}

#[test]
fn a_selection_picks_rows_until_they_are_gathered() {
    let mut a = Vector::new(Ty::Int);
    for i in 0..5 {
        a.push_value(&Value::I32(i * 10));
    }
    let b = Batch::new(vec![a]).narrowed(&vec![false, true, false, true, true]);
    assert_eq!((b.num_rows(), b.card()), (5, 3));
    let mut b = b.narrowed(&vec![true, false, true]);
    assert_eq!(b.card(), 2);
    b.materialize();
    assert_eq!(b.num_rows(), 2);
    assert_eq!(b.cols[0].value_at(0), Value::I32(10));
    assert_eq!(b.cols[0].value_at(1), Value::I32(40));
}

#[test]
fn columns_are_appended_where_their_storage_agrees() {
    let mut a = Vector::new(Ty::Int);
    a.push_value(&Value::I32(1));
    append_column(&mut a, &null_vector(Ty::Date, 2)).unwrap();
    assert_eq!(a.len(), 3);
    assert!(!a.is_valid(2) && a.is_valid(0) && a.has_nulls());
    assert_eq!(code_of(append_column(&mut a, &null_vector(Ty::Varchar, 1))), Some(Code::Internal));
    assert_eq!(a.gather(&[2, 0]).value_at(1), Value::I32(1));
    let f = Field::new("n", Ty::Int, true);
    assert_eq!((f.dup().name, f.ty, f.nullable), ("n".to_string(), Ty::Int, true));
}
