//! Row keys and the index over them.

use ahiru_core::exec::rowkey::{encode_key, key_has_null, HashIndex};
use ahiru_core::vector::{interval_key, pack_interval, Ty, Value, Vector};

/// A double as the value that holds its bits.
fn f64v(x: f64) -> Value {
    Value::F64(x.to_bits())
}

fn vec_i32(vals: &[Option<i32>]) -> Vector {
    let mut v = Vector::new(Ty::Int);
    for x in vals {
        match x {
            Some(x) => v.push_value(&Value::I32(*x)),
            None => v.push_null(),
        }
    }
    v
}

fn vec_str(vals: &[Option<&str>]) -> Vector {
    let mut v = Vector::new(Ty::Varchar);
    for x in vals {
        match x {
            Some(x) => v.push_value(&Value::Bytes(x.as_bytes().to_vec())),
            None => v.push_null(),
        }
    }
    v
}

fn key(cols: &[&Vector], row: usize) -> Vec<u8> {
    let mut out = Vec::new();
    encode_key(cols, row, &mut out);
    out
}

#[test]
fn equal_values_encode_equally() {
    let a = vec_i32(&[Some(1), Some(1), Some(2)]);
    assert_eq!(key(&[&a], 0), key(&[&a], 1));
    assert_ne!(key(&[&a], 0), key(&[&a], 2));
}

#[test]
fn nulls_group_together_and_differ_from_values() {
    let a = vec_i32(&[None, None, Some(0)]);
    assert_eq!(key(&[&a], 0), key(&[&a], 1));
    assert_ne!(key(&[&a], 0), key(&[&a], 2));
}

#[test]
fn rowkey_multi_column_keys_are_not_confusable() {
    // ("a", "bc") and ("ab", "c") must not give the same key.
    // Without a length prefix they would collide.
    let a1 = vec_str(&[Some("a")]);
    let b1 = vec_str(&[Some("bc")]);
    let a2 = vec_str(&[Some("ab")]);
    let b2 = vec_str(&[Some("c")]);
    assert_ne!(key(&[&a1, &b1], 0), key(&[&a2, &b2], 0));
}

#[test]
fn negative_zero_and_nan_are_canonicalised() {
    let mut v = Vector::new(Ty::Double);
    v.push_value(&f64v(0.0));
    v.push_value(&f64v(-0.0));
    v.push_value(&f64v(f64::NAN));
    v.push_value(&f64v(-f64::NAN));
    assert_eq!(key(&[&v], 0), key(&[&v], 1), "-0.0 groups with 0.0");
    assert_eq!(key(&[&v], 2), key(&[&v], 3), "NaN forms a single group");
    assert_ne!(key(&[&v], 0), key(&[&v], 2));
}

// DECIMAL(precision>18)/HUGEINT/UBIGINT/INTERVAL all share the physical representation
// `Data::I128` (`Ty::phys`). Encoding itself takes the same code path for every logical
// type, so checking at the physical-type level is enough.
fn vec_i128(ty: Ty, vals: &[Option<i128>]) -> Vector {
    let mut v = Vector::new(ty);
    for x in vals {
        match x {
            Some(x) => v.push_value(&Value::I128(*x)),
            None => v.push_null(),
        }
    }
    v
}

#[test]
fn i128_keys_distinguish_sign_and_magnitude() {
    let a = vec_i128(
        Ty::HugeInt,
        &[Some(1), Some(1), Some(-1), Some(i128::MAX), Some(i128::MIN), Some(0)],
    );
    // Equal values give equal keys.
    assert_eq!(key(&[&a], 0), key(&[&a], 1));
    // Differing signs and boundary values all give different keys (checked exhaustively).
    let n = 6;
    for i in 0..n {
        for j in 0..n {
            if (i == 0 && j == 1) || (i == 1 && j == 0) {
                continue; // excluded, since vals[0] == vals[1] == 1 (both directions).
            }
            if i != j {
                assert_ne!(
                    key(&[&a], i),
                    key(&[&a], j),
                    "rows {i} and {j} have different values yet their keys collided"
                );
            }
        }
    }
}

#[test]
fn i128_null_is_distinguished_from_zero() {
    let a = vec_i128(Ty::HugeInt, &[None, None, Some(0)]);
    assert_eq!(key(&[&a], 0), key(&[&a], 1), "NULLs group together");
    assert_ne!(key(&[&a], 0), key(&[&a], 2), "NULL and 0 are separate groups");
}

#[test]
fn i128_composite_key_with_null_in_another_column() {
    // With a composite key of a DECIMAL(38,0) column and an INTEGER column, confirms that
    // equal DECIMAL values still form separate groups by the other column's NULL/non-NULL.
    let dec = vec_i128(Ty::decimal(38, 0), &[Some(100), Some(100)]);
    let other = vec_i32(&[None, Some(0)]);
    assert_ne!(key(&[&dec, &other], 0), key(&[&dec, &other], 1));
}

#[test]
fn key_null_detection() {
    let a = vec_i32(&[Some(1), None]);
    let b = vec_i32(&[Some(1), Some(1)]);
    assert!(!key_has_null(&[&a, &b], 0));
    assert!(key_has_null(&[&a, &b], 1));
}

#[test]
fn get_or_insert_assigns_sequential_slots() {
    let mut h = HashIndex::new();
    assert_eq!(h.get_or_insert(b"a"), (0, true));
    assert_eq!(h.get_or_insert(b"b"), (1, true));
    assert_eq!(h.get_or_insert(b"a"), (0, false));
    assert_eq!(h.len(), 2);
    assert_eq!(h.lookup(b"b"), Some(1));
    assert_eq!(h.lookup(b"zzz"), None);
}

#[test]
fn growth_preserves_all_entries() {
    let mut h = HashIndex::new();
    // Feed in far more than the initial capacity to trigger a rehash.
    let n = 5000u32;
    for i in 0..n {
        let k = i.to_le_bytes();
        assert_eq!(h.get_or_insert(&k), (i, true));
    }
    assert_eq!(h.len(), n as usize);
    for i in 0..n {
        let k = i.to_le_bytes();
        assert_eq!(h.lookup(&k), Some(i), "{i} cannot be looked up after rehashing");
    }
}

#[test]
fn chained_insert_returns_previous_head() {
    let mut h = HashIndex::new();
    assert_eq!(h.insert_chained(b"k", 0), None);
    assert_eq!(h.insert_chained(b"k", 1), Some(0));
    assert_eq!(h.insert_chained(b"k", 2), Some(1));
    // The last one inserted comes first.
    assert_eq!(h.lookup(b"k"), Some(2));
    assert_eq!(h.len(), 1);
}

#[test]
fn empty_key_is_a_valid_key() {
    // An aggregate without GROUP BY forms one group under the empty key.
    let mut h = HashIndex::new();
    assert_eq!(h.get_or_insert(b""), (0, true));
    assert_eq!(h.get_or_insert(b""), (0, false));
}

#[test]
fn intervals_of_equal_span_share_a_key() {
    // The packed representation differs (days vs microseconds), the normalized span does
    // not: duckdb treats 1 day and 24 hours -- and 1 month and 30 days -- as equal.
    let day = pack_interval(0, 1, 0);
    let hours24 = pack_interval(0, 0, 24 * 3_600_000_000);
    assert_ne!(day, hours24, "the packed forms are genuinely different");
    assert_eq!(interval_key(day), interval_key(hours24));
    assert_eq!(
        interval_key(pack_interval(1, 0, 0)),
        interval_key(pack_interval(0, 30, 0))
    );
    // 23 hours < 1 day < 25 hours, which the raw bit pattern gets wrong.
    let h23 = interval_key(pack_interval(0, 0, 23 * 3_600_000_000));
    let h25 = interval_key(pack_interval(0, 0, 25 * 3_600_000_000));
    assert!(h23 < interval_key(day) && interval_key(day) < h25);
    // Negative components stay ordered, and the extremes do not overflow i128.
    assert!(interval_key(pack_interval(0, -1, 0)) < 0);
    let _ = interval_key(pack_interval(i32::MAX, i32::MAX, i64::MAX));
    let _ = interval_key(pack_interval(i32::MIN, i32::MIN, i64::MIN));
}

#[test]
fn interval_columns_encode_the_normalized_span() {
    let mut v = Vector::new(Ty::Interval);
    v.push_value(&Value::I128(pack_interval(0, 1, 0)));
    v.push_value(&Value::I128(pack_interval(0, 0, 24 * 3_600_000_000)));
    v.push_value(&Value::I128(pack_interval(0, 0, 25 * 3_600_000_000)));
    assert_eq!(key(&[&v], 0), key(&[&v], 1));
    assert_ne!(key(&[&v], 0), key(&[&v], 2));
}
