//! Doubles by their bits, against the machine's own.

use ahiru_core::exec::accum::sqrt;
use ahiru_core::exec::rowkey::pow10;
use ahiru_core::exec::sample::Rng;
use ahiru_core::exec::text::{push_f64_text, push_int_text, push_json_scalar, push_json_string};
use ahiru_core::exec::total::{compensated, divisor_of, neumaier_add, scale_double};
use ahiru_core::float::{from_int, is_infinite, is_nan, is_negative, less, minus, negate, over, plus, times, whole};
use ahiru_core::hash::{eq_ascii_ci, eq_bytes, hash_bytes, hash_u64};
use ahiru_core::json::{array_elements, decode_string, parse_f64, parse_i64, Kind};
use ahiru_core::order::{canonical_f64, f64_key, ord_f64, order_bytes, order_i128, Order};
use ahiru_core::vector::{Ty, Value};

/// Doubles of every sort: special ones, and many drawn by their bits.
fn doubles() -> Vec<f64> {
    let mut v = vec![
        0.0,
        -0.0,
        1.0,
        -1.0,
        0.1,
        0.5,
        1.5,
        3.0,
        1e300,
        -1e300,
        1e-300,
        f64::MAX,
        f64::MIN,
        f64::MIN_POSITIVE,
        f64::EPSILON,
        f64::INFINITY,
        f64::NEG_INFINITY,
        f64::NAN,
        f64::from_bits(1),
        f64::from_bits(0x000f_ffff_ffff_ffff),
        9007199254740992.0,
        9007199254740993.0,
    ];
    let mut rng = Rng::new(42);
    for i in 0..60u64 {
        let bits = rng.next_u64();
        v.push(f64::from_bits(bits));
        // Numbers of similar size, whose sums and differences round.
        v.push(f64::from_bits((bits & 0x800f_ffff_ffff_ffff) | ((1000 + i) << 52)));
    }
    v
}

fn same(a: u64, b: f64) -> bool {
    if b.is_nan() {
        is_nan(a)
    } else {
        a == b.to_bits()
    }
}

#[test]
fn arithmetic_is_that_of_the_machine() {
    let v = doubles();
    for &a in &v {
        for &b in &v {
            let (x, y) = (a.to_bits(), b.to_bits());
            assert!(same(plus(x, y), a + b), "{a:e} + {b:e}");
            assert!(same(minus(x, y), a - b), "{a:e} - {b:e}");
            assert!(same(times(x, y), a * b), "{a:e} * {b:e}");
            assert!(same(over(x, y), a / b), "{a:e} / {b:e}");
            assert_eq!(less(x, y), a < b, "{a:e} < {b:e}");
        }
    }
}

#[test]
fn parts_of_doubles_are_those_of_the_machine() {
    for a in doubles() {
        let x = a.to_bits();
        assert_eq!(is_nan(x), a.is_nan());
        assert_eq!(is_infinite(x), a.is_infinite());
        assert_eq!(is_negative(x), a.is_sign_negative());
        assert_eq!(negate(x), (-a).to_bits());
        assert_eq!(whole(x), a as u64);
    }
}

#[test]
fn integers_round_to_the_nearest_double() {
    let mut rng = Rng::new(7);
    for i in 0..2000u32 {
        let wide = (rng.next_u64() as i128) << 64 | rng.next_u64() as i128;
        let x = wide >> (i % 128);
        assert_eq!(from_int(x), (x as f64).to_bits(), "{x}");
    }
    for x in [0, 1, -1, i128::MAX, i128::MIN, 9007199254740993, -9007199254740993] {
        assert_eq!(from_int(x), (x as f64).to_bits(), "{x}");
    }
}

#[test]
fn square_roots_are_close() {
    for a in [1.0f64, 2.0, 4.0, 1e-10, 1e10, 12345.678] {
        let r = f64::from_bits(sqrt(a.to_bits()));
        assert!((r - a.sqrt()).abs() <= a.sqrt() * 1e-15, "{a}");
    }
    assert!(is_nan(sqrt((-1.0f64).to_bits())));
    assert_eq!(sqrt(0.0f64.to_bits()), 0.0f64.to_bits());
    assert_eq!(sqrt(f64::INFINITY.to_bits()), f64::INFINITY.to_bits());
}

#[test]
fn the_random_numbers_are_xorshift() {
    let mut rng = Rng::new(1);
    let mut x: u64 = 1;
    for _ in 0..100 {
        x ^= x >> 12;
        x ^= x << 25;
        x ^= x >> 27;
        let u = x.wrapping_mul(0x2545_F491_4F6C_DD1D);
        assert_eq!(rng.next_u64(), u);
    }
    let f = f64::from_bits(rng.next_f64());
    assert!((0.0..1.0).contains(&f));
    for n in 1..50 {
        assert!(rng.below(n) < n);
    }
}

#[test]
fn a_compensated_sum_keeps_what_rounding_loses() {
    let mut s = (0.0f64).to_bits();
    let mut c = (0.0f64).to_bits();
    for x in [1e100f64, 1.0, -1e100] {
        (s, c) = neumaier_add(s, c, x.to_bits());
    }
    assert_eq!(compensated(s, c), 1.0f64.to_bits());
    let (s, c) = neumaier_add(f64::INFINITY.to_bits(), 0, 1.0f64.to_bits());
    assert_eq!(compensated(s, c), f64::INFINITY.to_bits());
}

#[test]
fn decimals_are_scaled_to_doubles() {
    assert_eq!(f64::from_bits(pow10(3)), 1000.0);
    let div = divisor_of(Ty::Decimal { precision: 9, scale: 2 });
    assert_eq!(scale_double(&Value::I64(12345), div), Some((123.45f64).to_bits()));
    assert_eq!(scale_double(&Value::I32(7), divisor_of(Ty::Int)), Some(7.0f64.to_bits()));
    assert_eq!(scale_double(&Value::Null, div), None);
}

// --- Order and keys ---------------------------------------------------------

#[test]
fn the_order_of_doubles_is_total_with_nan_last() {
    let v = doubles();
    for &a in &v {
        for &b in &v {
            let o = ord_f64(a.to_bits(), b.to_bits());
            let expected = if a.is_nan() && b.is_nan() {
                Order::Equal
            } else if a.is_nan() {
                Order::Greater
            } else if b.is_nan() || a < b {
                Order::Less
            } else if a > b {
                Order::Greater
            } else {
                Order::Equal
            };
            assert_eq!(o, expected, "{a:e} {b:e}");
            assert_eq!(o == Order::Equal, canonical_f64(a.to_bits()) == canonical_f64(b.to_bits()));
            assert_eq!(o == Order::Less, f64_key(a.to_bits()) < f64_key(b.to_bits()));
        }
    }
}

#[test]
fn byte_strings_are_ordered_byte_by_byte() {
    assert_eq!(order_bytes(b"ab", b"abc"), Order::Less);
    assert_eq!(order_bytes(b"b", b"abc"), Order::Greater);
    assert_eq!(order_bytes(b"abc", b"abc"), Order::Equal);
    assert_eq!(order_bytes(&[0x80], &[0x7f]), Order::Greater);
    assert_eq!(order_i128(-1, 1), Order::Less);
}

#[test]
fn names_are_compared_without_case() {
    assert!(eq_ascii_ci(b"Table_1", b"tABLE_1"));
    assert!(!eq_ascii_ci(b"a", b"ab"));
    assert!(!eq_ascii_ci("\u{c9}".as_bytes(), "\u{e9}".as_bytes()));
    assert!(eq_bytes(b"a", b"a") && !eq_bytes(b"a", b"A"));
    // FNV-1a.
    assert_eq!(hash_bytes(b""), 0xcbf2_9ce4_8422_2325);
    assert_eq!(hash_bytes(b"a"), 0xaf63_dc4c_8601_ec8c);
    assert_eq!(hash_u64(1 << 32), (1 << 32) + 1);
}

// --- Text -------------------------------------------------------------------

fn int_text(v: i128, scale: u8) -> String {
    let mut out = Vec::new();
    push_int_text(&mut out, v, scale);
    String::from_utf8(out).unwrap()
}

fn f64_text(x: f64) -> String {
    let mut out = Vec::new();
    push_f64_text(&mut out, x.to_bits());
    String::from_utf8(out).unwrap()
}

#[test]
fn integers_and_decimals_are_written_in_full() {
    for x in [0, 1, -1, 10, -987654321, i128::MAX, i128::MIN] {
        assert_eq!(int_text(x, 0), x.to_string());
    }
    assert_eq!(int_text(12345, 2), "123.45");
    assert_eq!(int_text(-5, 3), "-0.005");
    assert_eq!(int_text(0, 1), "0.0");
}

#[test]
fn doubles_are_written_so_that_they_read_back_closely() {
    for x in [0.5f64, 1.0, -2.25, 1e21, 1e-7, 123456.789, 3.141592653589793] {
        let t = f64_text(x);
        let back: f64 = t.parse().unwrap();
        assert!((back - x).abs() <= x.abs() * 1e-14, "{x} {t}");
    }
    assert_eq!(f64_text(f64::NAN), "NaN");
}

#[test]
fn json_text_is_escaped() {
    let mut out = Vec::new();
    push_json_string(&mut out, b"a\"b\\c\n\x01");
    assert_eq!(out, b"\"a\\\"b\\\\c\\n\\u0001\"");
    let mut out = Vec::new();
    push_json_scalar(&mut out, &Value::Null, Ty::Int);
    push_json_scalar(&mut out, &Value::Bool(true), Ty::Boolean);
    push_json_scalar(&mut out, &Value::I32(-3), Ty::Int);
    push_json_scalar(&mut out, &Value::Bytes(b"x".to_vec()), Ty::Varchar);
    assert_eq!(out, b"nulltrue-3\"x\"");
}

#[test]
fn decimals_of_any_width_are_written_with_their_point() {
    let text = |v: Value, precision: u8| {
        let mut out = Vec::new();
        push_json_scalar(&mut out, &v, Ty::Decimal { precision, scale: 2 });
        String::from_utf8(out).unwrap()
    };
    assert_eq!(text(Value::I32(1250), 9), "12.50");
    assert_eq!(text(Value::I64(1250), 18), "12.50");
    assert_eq!(text(Value::I64(-5), 18), "-0.05");
    assert_eq!(text(Value::I128(1250), 38), "12.50");
    assert_eq!(text(Value::Null, 18), "null");
}

#[test]
fn arrays_are_taken_apart() {
    let doc = br#" [1, "a,]", [2, 3], {"k": [4]}, true, null ] "#;
    let elems = array_elements(doc).unwrap().unwrap();
    let texts: Vec<&[u8]> = elems.iter().map(|e| &doc[e.start..e.end]).collect();
    assert_eq!(texts, vec![&b"1"[..], b"\"a,]\"", b"[2, 3]", b"{\"k\": [4]}", b"true", b"null"]);
    assert!(matches!(elems[0].kind, Kind::Num));
    assert!(matches!(elems[1].kind, Kind::Str));
    assert!(matches!(elems[2].kind, Kind::Arr));
    assert!(matches!(elems[3].kind, Kind::Obj));
    assert!(matches!(elems[4].kind, Kind::Bool));
    assert!(matches!(elems[5].kind, Kind::Null));
    assert!(array_elements(b"{}").unwrap().is_none());
    assert!(array_elements(b"[1,").is_err());
}

#[test]
fn numbers_and_strings_are_read() {
    assert_eq!(parse_i64(b"-9223372036854775808"), Some(i64::MIN));
    assert_eq!(parse_i64(b"9223372036854775808"), None);
    assert_eq!(parse_i64(b"1.5"), None);
    for t in ["0", "-1", "2.5", "1e10", "-3.25e-2", "123456789012345678", "0.1"] {
        let expected: f64 = t.parse().unwrap();
        let got = f64::from_bits(parse_f64(t.as_bytes()).unwrap());
        assert!((got - expected).abs() <= expected.abs() * 1e-15, "{t}");
    }
    assert_eq!(decode_string(b"a\\n\\u0041\\ud83e\\udd86").unwrap(), "a\nA\u{1f986}".as_bytes());
    assert!(decode_string(b"\\x").is_err());
}
