//! What the elements of JSON lists become.

use crate::error::Code;
use crate::exec::rowkey::f_pow10;
use crate::exec::text::{digits, escaped, escaped_text, int_text, json_string, padded};
use crate::exec::unnest::{elem_value, unquoted};
use crate::float::{f_finite, f_negated, f_negative, f_of_int, f_product, f_quotient, f_scaled, f_units, rounded};
use crate::json::{
    after_digits, all_digits, at, decoded_from, digits_value, exponent_from, is_digit, kind_of, number_end,
    number_value, take_digits, unit_at, utf8, DecimalV, Kind,
};
use crate::laws::rounding::{
    gap, lemma_not_infinite, lemma_signed, lemma_ten_bound, no_double_is_nearer, powers_of_ten_are_exact,
    short_numbers_are_exact, ten_to, unit,
};
use crate::vector::{Ty, Val};
use vstd::arithmetic::power2::{lemma_pow2_adds, lemma_pow2_pos, pow2};
use vstd::prelude::*;

verus! {

// --- Numbers as they are written ---------------------------------------------------------------

/// The number that digits spell, by their places.
pub open spec fn spelled(s: Seq<u8>) -> int
    decreases s.len(),
{
    if s.len() == 0 {
        0
    } else {
        (s[0] - 48) * ten_to((s.len() - 1) as nat) + spelled(s.drop_first())
    }
}

/// The power of ten at the end of a number.
pub struct PowerV {
    /// `e` or `E`.
    pub upper: bool,
    /// Whether a plus sign is written where there is no minus sign.
    pub plus: bool,
    pub minus: bool,
    pub digits: Seq<u8>,
}

/// The text of a number: a minus sign, digits, a point and more digits, a power of ten.
pub open spec fn number_text(neg: bool, whole: Seq<u8>, frac: Seq<u8>, power: Option<PowerV>) -> Seq<u8> {
    sign_text(neg) + whole + frac_text(frac) + power_text(power)
}

pub open spec fn sign_text(neg: bool) -> Seq<u8> {
    if neg {
        seq![45u8]
    } else {
        Seq::empty()
    }
}

pub open spec fn frac_text(frac: Seq<u8>) -> Seq<u8> {
    if frac.len() > 0 {
        seq![46u8] + frac
    } else {
        Seq::empty()
    }
}

pub open spec fn power_text(power: Option<PowerV>) -> Seq<u8> {
    match power {
        None => Seq::empty(),
        Some(p) => seq![
            if p.upper {
                69u8
            } else {
                101u8
            },
        ] + (if p.minus {
            seq![45u8]
        } else if p.plus {
            seq![43u8]
        } else {
            Seq::empty()
        }) + p.digits,
    }
}

/// The power of ten that the text asks for.
pub open spec fn exponent(power: Option<PowerV>) -> int {
    match power {
        None => 0,
        Some(p) => if p.minus {
            -spelled(p.digits)
        } else {
            spelled(p.digits)
        },
    }
}

/// Whether the parts make a number of JSON that is not too long.
pub open spec fn well_written(whole: Seq<u8>, frac: Seq<u8>, power: Option<PowerV>) -> bool {
    &&& all_digits(whole)
    &&& all_digits(frac)
    &&& 0 < whole.len()
    &&& whole.len() > 1 ==> whole[0] != 48
    &&& whole.len() + frac.len() <= 36
    &&& power matches Some(p) ==> all_digits(p.digits) && 0 < p.digits.len() <= 5
}

pub(crate) proof fn lemma_run(s: Seq<u8>, i: int, j: int)
    requires
        0 <= i <= j <= s.len(),
        forall|k: int| i <= k < j ==> is_digit(#[trigger] s[k]),
        !is_digit(at(s, j)),
    ensures
        after_digits(s, i) == j,
    decreases j - i,
{
    if i < j {
        assert(is_digit(s[i]));
        lemma_run(s, i + 1, j);
    }
}

proof fn lemma_ten_pos(n: nat)
    ensures
        ten_to(n) > 0,
    decreases n,
{
    if n > 0 {
        lemma_ten_pos((n - 1) as nat);
    }
}

proof fn lemma_spelled_bound(s: Seq<u8>)
    requires
        all_digits(s),
    ensures
        0 <= spelled(s) < ten_to(s.len()),
    decreases s.len(),
{
    if s.len() > 0 {
        let r = s.drop_first();
        assert forall|i: int| 0 <= i < r.len() implies is_digit(#[trigger] r[i]) by {
            assert(r[i] == s[i + 1]);
        }
        lemma_spelled_bound(r);
        assert(is_digit(s[0]));
        let d = s[0] - 48;
        let t = ten_to(r.len());
        assert(0 <= d * t <= 9 * t) by (nonlinear_arith)
            requires
                0 <= d <= 9,
                t > 0,
        ;
        assert(s.len() - 1 == r.len());
    }
}

proof fn lemma_take(s: Seq<u8>, i: int, j: int, frac: bool, x: DecimalV)
    requires
        0 <= i <= j <= s.len(),
        forall|k: int| i <= k < j ==> is_digit(#[trigger] s[k]),
        !is_digit(at(s, j)),
        0 <= x.taken,
        x.taken + (j - i) <= 36,
    ensures
        ({
            let y = take_digits(s, i, frac, x);
            &&& y.digits == x.digits * ten_to((j - i) as nat) + spelled(s.subrange(i, j))
            &&& y.taken == x.taken + (j - i)
            &&& y.power == x.power - if frac {
                j - i
            } else {
                0
            }
        }),
    decreases j - i,
{
    let t = s.subrange(i, j);
    if i < j {
        assert(is_digit(s[i]));
        let next = DecimalV {
            digits: x.digits * 10 + (s[i] - 48) as nat,
            taken: x.taken + 1,
            power: if frac {
                x.power - 1
            } else {
                x.power
            },
        };
        lemma_take(s, i + 1, j, frac, next);
        assert(t.drop_first() =~= s.subrange(i + 1, j));
        assert(t[0] == s[i]);
        let p = ten_to((j - i - 1) as nat);
        let d = s[i] - 48;
        let xd = x.digits as int;
        assert((xd * 10 + d) * p == xd * (10 * p) + d * p) by (nonlinear_arith);
        assert(ten_to((j - i) as nat) == 10 * p);
    } else {
        assert(t =~= Seq::empty());
        assert(ten_to(0) == 1);
        let xd = x.digits as int;
        assert(xd * 1 == xd);
    }
}

proof fn lemma_exponent(s: Seq<u8>, i: int, j: int, v: int)
    requires
        0 <= i <= j <= s.len(),
        forall|k: int| i <= k < j ==> is_digit(#[trigger] s[k]),
        !is_digit(at(s, j)),
        0 <= v,
        v * ten_to((j - i) as nat) + ten_to((j - i) as nat) <= 100_000,
    ensures
        exponent_from(s, i, v) == v * ten_to((j - i) as nat) + spelled(s.subrange(i, j)),
    decreases j - i,
{
    let t = s.subrange(i, j);
    if i < j {
        assert(is_digit(s[i]));
        let d = s[i] - 48;
        let p = ten_to((j - i - 1) as nat);
        lemma_ten_pos((j - i - 1) as nat);
        assert(ten_to((j - i) as nat) == 10 * p);
        let v2 = v * 10 + d;
        assert(v2 * p + p <= v * (10 * p) + 10 * p && v2 * p == v * (10 * p) + d * p) by (nonlinear_arith)
            requires
                v2 == v * 10 + d,
                0 <= d <= 9,
                p > 0,
        ;
        assert(v <= 100_000) by (nonlinear_arith)
            requires
                v * (10 * p) + 10 * p <= 100_000,
                p > 0,
                v >= 0,
        ;
        lemma_exponent(s, i + 1, j, v2);
        assert(t.drop_first() =~= s.subrange(i + 1, j));
        assert(t[0] == s[i]);
    } else {
        assert(t =~= Seq::empty());
        assert(ten_to(0) == 1);
        assert(v * 1 == v);
    }
}

pub(crate) proof fn lemma_spelled_adds(a: Seq<u8>, b: Seq<u8>)
    ensures
        spelled(a + b) == spelled(a) * ten_to(b.len()) + spelled(b),
        ten_to(a.len() + b.len()) == ten_to(a.len()) * ten_to(b.len()),
    decreases a.len(),
{
    let tb = ten_to(b.len());
    if a.len() == 0 {
        assert(a + b =~= b);
        assert(0 * tb == 0 && 1 * tb == tb) by (nonlinear_arith);
    } else {
        let r = a.drop_first();
        lemma_spelled_adds(r, b);
        assert((a + b).drop_first() =~= r + b);
        assert((a + b)[0] == a[0]);
        assert((a + b).len() - 1 == r.len() + b.len());
        let d = a[0] - 48;
        let ta = ten_to(r.len());
        let x = spelled(r);
        assert(d * (ta * tb) + (x * tb + spelled(b)) == (d * ta + x) * tb + spelled(b)) by (nonlinear_arith);
        assert((10 * ta) * tb == 10 * (ta * tb)) by (nonlinear_arith);
        assert(a.len() - 1 == r.len());
    }
}

/// The double that a number's text stands for: all its digits as a whole number, times the power
/// of ten that the point and the exponent ask for.
pub open spec fn meant(neg: bool, m: int, p: int) -> u64 {
    let v = if p >= 0 {
        f_product(f_of_int(m), f_pow10(p as nat))
    } else {
        f_quotient(f_of_int(m), f_pow10((-p) as nat))
    };
    if neg {
        f_negated(v)
    } else {
        v
    }
}

/// A number is read by all its digits and its power of ten, and the whole of its text is taken
/// for a number.
#[verifier::rlimit(60)]
pub proof fn numbers_are_read_as_written(neg: bool, whole: Seq<u8>, frac: Seq<u8>, power: Option<PowerV>)
    requires
        well_written(whole, frac, power),
        -400 <= exponent(power) - frac.len() <= 400,
    ensures
        ({
            let s = number_text(neg, whole, frac, power);
            &&& number_value(s) == meant(neg, spelled(whole + frac), exponent(power) - frac.len())
            &&& number_end(s, 0) == Ok::<int, Code>(s.len() as int)
            &&& kind_of(at(s, 0)) == Kind::Num
        }),
{
    let s = number_text(neg, whole, frac, power);
    let a: int = if neg {
        1
    } else {
        0
    };
    let b = a + whole.len();
    let c = b + frac_text(frac).len();
    assert(s.len() == c + power_text(power).len());
    assert(s.subrange(a, b) =~= whole);
    assert forall|k: int| a <= k < b implies is_digit(#[trigger] s[k]) by {
        assert(s[k] == whole[k - a]);
    }
    assert(neg ==> s[0] == 45);
    assert(s[a] == whole[0]);
    assert(is_digit(whole[0]));
    assert(!is_digit(at(s, c))) by {
        match power {
            None => {},
            Some(p) => {
                assert(s[c] == power_text(power)[0]);
            },
        }
    }
    assert(at(s, c) == 101 || at(s, c) == 69 <==> power is Some) by {
        match power {
            None => {},
            Some(p) => {
                assert(s[c] == power_text(power)[0]);
            },
        }
    }
    if frac.len() > 0 {
        assert(s[b] == frac_text(frac)[0]);
        assert(at(s, b) == 46);
        assert forall|k: int| b + 1 <= k < c implies is_digit(#[trigger] s[k]) by {
            assert(s[k] == frac[k - b - 1]);
        }
        assert(s.subrange(b + 1, c) =~= frac);
        assert(is_digit(s[b + 1]));
        lemma_run(s, b + 1, c);
    } else {
        assert(b == c);
        assert(at(s, b) != 46) by {
            match power {
                None => {},
                Some(p) => {
                    assert(s[c] == power_text(power)[0]);
                },
            }
        }
    }
    lemma_run(s, a, b);
    let zero = DecimalV { digits: 0, taken: 0, power: 0 };
    lemma_take(s, a, b, false, zero);
    let w = take_digits(s, a, false, zero);
    assert(0 * ten_to(whole.len()) == 0) by (nonlinear_arith);
    lemma_spelled_adds(whole, frac);
    if frac.len() > 0 {
        lemma_take(s, b + 1, c, true, w);
    } else {
        assert(whole + frac =~= whole);
    }
    match power {
        None => {},
        Some(p) => {
            let signs: int = if p.minus || p.plus {
                1
            } else {
                0
            };
            let d = c + 1 + signs;
            let e = s.len() as int;
            assert(power_text(power).len() == 1 + signs + p.digits.len());
            assert(s.subrange(d, e) =~= p.digits);
            assert forall|k: int| d <= k < e implies is_digit(#[trigger] s[k]) by {
                assert(s[k] == p.digits[k - d]);
            }
            assert(is_digit(s[d]));
            assert(s[c + 1] == power_text(power)[1]);
            lemma_run(s, d, e);
            reveal_with_fuel(ten_to, 6);
            lemma_exponent(s, d, e, 0);
            assert(0 * ten_to(p.digits.len()) == 0) by (nonlinear_arith);
        },
    }
}

/// How far a double is from `m * 10^p`, in units times `10^-p` where `p` is negative.
pub open spec fn distance(v: u64, neg: bool, m: int, p: int) -> int {
    let x = if neg {
        -m
    } else {
        m
    };
    if p >= 0 {
        gap(f_scaled(v), x * ten_to(p as nat) * unit())
    } else {
        gap(ten_to((-p) as nat) * f_scaled(v), x * unit())
    }
}

proof fn lemma_turned(v: u64)
    requires
        f_finite(v),
    ensures
        f_finite(f_negated(v)),
        f_scaled(f_negated(v)) == -f_scaled(v),
{
    assert(f_units(f_negated(v)) == f_units(v));
}

proof fn lemma_meant_up(m: int, p: nat, c: u64)
    requires
        0 <= m < 0x20_0000_0000_0000,
        p <= 22,
        f_finite(c),
    ensures
        ({
            let v = f_product(f_of_int(m), f_pow10(p));
            &&& f_finite(v)
            &&& !f_negative(v)
            &&& gap(f_scaled(v), m * ten_to(p) * unit()) <= gap(f_scaled(c), m * ten_to(p) * unit())
        }),
{
    reveal(f_product);
    short_numbers_are_exact(m);
    powers_of_ten_are_exact(p);
    lemma_ten_bound(p);
    let u = pow2(1074) as int;
    lemma_pow2_pos(1074);
    let t = ten_to(p);
    let k = m * t;
    assert(0 <= k && 0 <= m * u && 0 <= t * u && 0 <= k * u) by (nonlinear_arith)
        requires
            k == m * t,
            m >= 0,
            t > 0,
            u > 0,
    ;
    let n = (m * u) * (t * u);
    assert(n == u * (k * u)) by (nonlinear_arith)
        requires
            n == (m * u) * (t * u),
            k == m * t,
    ;
    assert(n >= 0) by (nonlinear_arith)
        requires
            n == u * (k * u),
            u > 0,
            k * u >= 0,
    ;
    vstd::arithmetic::power2::lemma2_to64();
    vstd::arithmetic::power2::lemma2_to64_rest();
    lemma_pow2_adds(64, 64);
    assert(k < pow2(128)) by (nonlinear_arith)
        requires
            k == m * t,
            0 <= m < 0x20_0000_0000_0000,
            0 < t <= 10000000000000000000000,
            pow2(128) == 0x1_0000_0000_0000_0000 * 0x1_0000_0000_0000_0000,
    ;
    lemma_pow2_adds(128, 1074);
    vstd::arithmetic::power2::lemma_pow2_strictly_increases(1202, 2000);
    assert(n < u * pow2(2000)) by (nonlinear_arith)
        requires
            n == u * (k * u),
            k < pow2(128),
            pow2(128) * u < pow2(2000),
            u > 0,
    ;
    lemma_not_infinite(n as nat, u as nat);
    no_double_is_nearer(n as nat, u as nat, c);
    let r = rounded(n as nat, u as nat);
    lemma_signed(false, r);
    let w = f_units(r as u64) as int;
    let z = f_units(c) as int;
    lemma_shrink(u, w, k * u);
    lemma_shrink(u, z, k * u);
    assert(gap(w, k * u) <= gap(z, k * u)) by (nonlinear_arith)
        requires
            u * gap(w, k * u) <= u * gap(z, k * u),
            u > 0,
    ;
}

pub(crate) proof fn lemma_shrink(u: int, a: int, b: int)
    requires
        u > 0,
    ensures
        gap(u * a, u * b) == u * gap(a, b),
{
    assert(u * (a - b) == u * a - u * b && u * (b - a) == u * b - u * a) by (nonlinear_arith);
    assert((u * a < u * b) == (a < b)) by (nonlinear_arith)
        requires
            u > 0,
    ;
}

proof fn lemma_meant_down(m: int, p: nat, c: u64)
    requires
        0 <= m < 0x20_0000_0000_0000,
        p <= 22,
        f_finite(c),
    ensures
        ({
            let v = f_quotient(f_of_int(m), f_pow10(p));
            &&& f_finite(v)
            &&& !f_negative(v)
            &&& gap(ten_to(p) * f_scaled(v), m * unit()) <= gap(ten_to(p) * f_scaled(c), m * unit())
        }),
{
    reveal(f_quotient);
    short_numbers_are_exact(m);
    powers_of_ten_are_exact(p);
    lemma_ten_bound(p);
    let u = pow2(1074) as int;
    lemma_pow2_pos(1074);
    let t = ten_to(p);
    crate::laws::aggregates::lemma_zero_over(f_pow10(p), t);
    let d = t * u;
    let n = (m * u) * u;
    assert(0 <= m * u && 0 < d && n >= 0) by (nonlinear_arith)
        requires
            d == t * u,
            n == (m * u) * u,
            m >= 0,
            t > 0,
            u > 0,
    ;
    vstd::arithmetic::power2::lemma2_to64_rest();
    lemma_pow2_adds(53, 1074);
    vstd::arithmetic::power2::lemma_pow2_strictly_increases(1127, 2000);
    assert(n < d * pow2(2000)) by (nonlinear_arith)
        requires
            n == (m * u) * u,
            d == t * u,
            t >= 1,
            m < 0x20_0000_0000_0000,
            0x20_0000_0000_0000 * u < pow2(2000),
            u > 0,
    ;
    lemma_not_infinite(n as nat, d as nat);
    no_double_is_nearer(n as nat, d as nat, c);
    let r = rounded(n as nat, d as nat);
    lemma_signed(false, r);
    let w = f_units(r as u64) as int;
    let z = f_units(c) as int;
    assert(d * w == u * (t * w) && d * z == u * (t * z) && n == u * (m * u)) by (nonlinear_arith)
        requires
            d == t * u,
            n == (m * u) * u,
    ;
    lemma_shrink(u, t * w, m * u);
    lemma_shrink(u, t * z, m * u);
    assert(gap(t * w, m * u) <= gap(t * z, m * u)) by (nonlinear_arith)
        requires
            u * gap(t * w, m * u) <= u * gap(t * z, m * u),
            u > 0,
    ;
    assert(t * (-z) == -(t * z) && t * z >= 0) by (nonlinear_arith)
        requires
            t > 0,
            z >= 0,
    ;
}

/// The double of up to fifteen digits, or any below `2^53`, and a power of ten of up to 22 either
/// way is the nearest one there is.
pub proof fn short_decimals_are_nearest(neg: bool, m: int, p: int, c: u64)
    requires
        0 <= m < 0x20_0000_0000_0000,
        -22 <= p <= 22,
        f_finite(c),
    ensures
        f_finite(meant(neg, m, p)),
        distance(meant(neg, m, p), neg, m, p) <= distance(c, neg, m, p),
{
    let v = meant(false, m, p);
    let d: u64 = if neg {
        f_negated(c)
    } else {
        c
    };
    lemma_turned(c);
    if p >= 0 {
        lemma_meant_up(m, p as nat, d);
        let k = m * ten_to(p as nat);
        assert((-m) * ten_to(p as nat) == -k && (-k) * unit() == -(k * unit())) by (nonlinear_arith)
            requires
                k == m * ten_to(p as nat),
        ;
    } else {
        lemma_meant_down(m, (-p) as nat, d);
        let t = ten_to((-p) as nat);
        let x = f_scaled(v);
        let y = f_scaled(c);
        assert(t * (-x) == -(t * x) && t * (-y) == -(t * y) && (-m) * unit() == -(m * unit())) by (nonlinear_arith);
    }
    lemma_turned(v);
}

// --- Elements -------------------------------------------------------------------------------------

/// An element as it comes: its text, the kind of which its first byte tells.
pub open spec fn element(ty: Ty, span: Seq<u8>) -> Result<Val, Code> {
    elem_value(ty, span, kind_of(at(span, 0)))
}

/// An element whose text is a number becomes, as `DOUBLE`, the double of all its digits and its
/// power of ten.
pub proof fn number_elements_become_doubles(neg: bool, whole: Seq<u8>, frac: Seq<u8>, power: Option<PowerV>)
    requires
        well_written(whole, frac, power),
        -400 <= exponent(power) - frac.len() <= 400,
    ensures
        element(Ty::Double, number_text(neg, whole, frac, power)) == Ok::<Val, Code>(
            Val::F64(meant(neg, spelled(whole + frac), exponent(power) - frac.len())),
        ),
{
    numbers_are_read_as_written(neg, whole, frac, power);
}

/// An element whose text is a number of up to fifteen digits, or of any that spell less than
/// `2^53`, and up to 22 places either way becomes, as `DOUBLE`, the double nearest to it.
pub proof fn number_elements_become_the_nearest_doubles(
    neg: bool,
    whole: Seq<u8>,
    frac: Seq<u8>,
    power: Option<PowerV>,
    c: u64,
)
    requires
        well_written(whole, frac, power),
        spelled(whole + frac) < 0x20_0000_0000_0000,
        -22 <= exponent(power) - frac.len() <= 22,
        f_finite(c),
    ensures
        ({
            let m = spelled(whole + frac);
            let p = exponent(power) - frac.len();
            &&& element(Ty::Double, number_text(neg, whole, frac, power)) matches Ok(Val::F64(v)) && f_finite(v) && distance(
                v,
                neg,
                m,
                p,
            ) <= distance(c, neg, m, p)
        }),
{
    number_elements_become_doubles(neg, whole, frac, power);
    let all = whole + frac;
    assert(all_digits(all)) by {
        assert forall|i: int| 0 <= i < all.len() implies is_digit(#[trigger] all[i]) by {
            if i < whole.len() {
                assert(all[i] == whole[i]);
            } else {
                assert(all[i] == frac[i - whole.len()]);
            }
        }
    }
    lemma_spelled_bound(all);
    short_decimals_are_nearest(neg, spelled(all), exponent(power) - frac.len(), c);
}

/// Only numbers become numbers, only strings text, only `true` and `false` truth values; every
/// other element is NULL of those types, and `null` is NULL of any. As `JSON`, an element is its
/// text.
pub proof fn elements_of_another_kind_are_null(span: Seq<u8>)
    requires
        span.len() > 0,
    ensures
        ({
            let b = span[0];
            let string = b == 34;
            let word = b == 116 || b == 102;
            let number = b != 34 && b != 91 && b != 123 && b != 116 && b != 102 && b != 110;
            let null = Ok::<Val, Code>(Val::Null);
            &&& !number ==> element(Ty::Double, span) == null && element(Ty::BigInt, span) == null
            &&& !string ==> element(Ty::Varchar, span) == null
            &&& !word ==> element(Ty::Boolean, span) == null
            &&& b == 110 ==> element(Ty::Json, span) == null
            &&& b != 110 ==> element(Ty::Json, span) == Ok::<Val, Code>(Val::Bytes(span))
            &&& number && span.len() <= 0x1000_0000_0000_0000 ==> element(Ty::Double, span) matches Ok(Val::F64(v))
        }),
{
    assert(at(span, 0) == span[0]);
}

/// `true` and `false` become what they say.
pub proof fn words_become_truth_values()
    ensures
        element(Ty::Boolean, seq![116u8, 114u8, 117u8, 101u8]) == Ok::<Val, Code>(Val::Bool(true)),
        element(Ty::Boolean, seq![102u8, 97u8, 108u8, 115u8, 101u8]) == Ok::<Val, Code>(Val::Bool(false)),
{
}

proof fn lemma_one_digit(b: u8)
    ensures
        spelled(seq![b]) == b - 48,
        ten_to(1) == 10,
{
    let l = seq![b];
    assert(l.drop_first() =~= Seq::empty());
    assert(spelled(l.drop_first()) == 0);
    assert(ten_to(0) == 1);
    assert(ten_to(1) == 10 * ten_to(0));
    let d = b - 48;
    assert(d * 1 == d);
    assert(l[0] == b);
}

proof fn lemma_digits_value(s: Seq<u8>)
    requires
        all_digits(s),
    ensures
        digits_value(s) == spelled(s),
    decreases s.len(),
{
    if s.len() > 0 {
        let f = s.drop_last();
        assert forall|i: int| 0 <= i < f.len() implies is_digit(#[trigger] f[i]) by {
            assert(f[i] == s[i]);
        }
        lemma_digits_value(f);
        let l = seq![s.last()];
        assert(f + l =~= s);
        lemma_spelled_adds(f, l);
        lemma_one_digit(s.last());
        assert(is_digit(s[s.len() - 1]));
        assert(spelled(l) == s.last() - 48);
    }
}

/// An element whose text is a whole number becomes, as `BIGINT`, the number that its digits
/// spell, where it can be held; a number with a fraction or an exponent is NULL.
pub proof fn whole_elements_become_whole_numbers(neg: bool, whole: Seq<u8>, frac: Seq<u8>, power: Option<PowerV>)
    requires
        well_written(whole, frac, power),
    ensures
        ({
            let v = if neg {
                -spelled(whole)
            } else {
                spelled(whole)
            };
            element(Ty::BigInt, number_text(neg, whole, frac, power)) == Ok::<Val, Code>(
                if frac.len() == 0 && power is None && i64::MIN <= v <= i64::MAX {
                    Val::I64(v as i64)
                } else {
                    Val::Null
                },
            )
        }),
{
    let s = number_text(neg, whole, frac, power);
    assert(is_digit(whole[0]));
    let a: int = if neg {
        1
    } else {
        0
    };
    assert(s[a] == whole[0]);
    assert(neg ==> s[0] == 45);
    let d = if neg {
        s.skip(1)
    } else {
        s
    };
    if frac.len() == 0 && power is None {
        assert(d =~= whole);
        lemma_digits_value(whole);
    } else {
        let k = whole.len() as int;
        assert(d[k] == s[a + k]);
        if frac.len() > 0 {
            assert(s[a + k] == frac_text(frac)[0]);
        } else {
            assert(s[a + k] == power_text(power)[0]);
        }
        assert(!is_digit(d[k]));
    }
}

pub(crate) proof fn lemma_digits(n: nat)
    ensures
        all_digits(digits(n)),
        spelled(digits(n)) == n,
        digits(n).len() > 0,
        digits(n).len() > 1 ==> digits(n)[0] != 48,
        n > 0 ==> digits(n)[0] != 48,
    decreases n,
{
    let d = digits(n);
    if n < 10 {
        lemma_one_digit((48 + n) as u8);
    } else {
        let f = digits(n / 10);
        lemma_digits(n / 10);
        let l = seq![(48 + n % 10) as u8];
        assert(d =~= f + l);
        lemma_spelled_adds(f, l);
        lemma_one_digit((48 + n % 10) as u8);
        assert forall|i: int| 0 <= i < d.len() implies is_digit(#[trigger] d[i]) by {
            if i < f.len() {
                assert(d[i] == f[i]);
            }
        }
        assert(d[0] == f[0]);
    }
}

/// A whole number written out is read back.
pub proof fn whole_numbers_are_read_back(v: i64)
    ensures
        element(Ty::BigInt, int_text(v as int, 0)) == Ok::<Val, Code>(Val::I64(v)),
{
    let n: nat = (if v < 0 {
        -(v as int)
    } else {
        v as int
    }) as nat;
    let d = digits(n);
    lemma_digits(n);
    lemma_digits_value(d);
    let s = int_text(v as int, 0);
    assert(padded(d, 1) == d);
    assert(is_digit(d[0]));
    if v < 0 {
        assert(s =~= seq![45u8] + d);
        assert(s.skip(1) =~= d);
    } else {
        assert(s =~= d);
    }
}

// --- Strings ----------------------------------------------------------------------------------------

pub(crate) proof fn lemma_escaped_front(s: Seq<u8>)
    requires
        s.len() > 0,
    ensures
        escaped_text(s) == escaped(s[0]) + escaped_text(s.drop_first()),
    decreases s.len(),
{
    if s.len() == 1 {
        assert(s.drop_last() =~= Seq::empty());
        assert(s.drop_first() =~= Seq::empty());
        assert(escaped_text(s.drop_last()) =~= Seq::empty());
        assert(escaped_text(s.drop_first()) =~= Seq::empty());
        assert(escaped_text(s) =~= escaped(s[0]) + escaped_text(s.drop_first()));
    } else {
        let f = s.drop_last();
        lemma_escaped_front(f);
        assert(s.drop_first().drop_last() =~= f.drop_first());
        assert(s.drop_first().last() == s.last());
        assert(escaped_text(s) =~= escaped(s[0]) + escaped_text(s.drop_first()));
    }
}

proof fn lemma_decoded(t: Seq<u8>, i: int, out: Seq<u8>, s: Seq<u8>)
    requires
        0 <= i <= t.len(),
        t.skip(i) == escaped_text(s),
    ensures
        decoded_from(t, i, out) == Ok::<Seq<u8>, Code>(out + s),
    decreases s.len(),
{
    if s.len() == 0 {
        assert(t.skip(i).len() == 0);
        assert(out + s =~= out);
    } else {
        lemma_escaped_front(s);
        let b = s[0];
        let e = escaped(b);
        let r = s.drop_first();
        let u = t.skip(i);
        assert(e.len() <= u.len());
        assert forall|k: int| 0 <= k < e.len() implies t[i + k] == #[trigger] e[k] by {
            assert(u[k] == e[k]);
        }
        assert(t.skip(i + e.len()) =~= escaped_text(r)) by {
            assert(u.skip(e.len() as int) =~= escaped_text(r));
            assert(u.skip(e.len() as int) =~= t.skip(i + e.len()));
        }
        assert(t[i + 0] == e[0]);
        lemma_decoded(t, i + e.len(), out.push(b), r);
        assert(out.push(b) + r =~= out + s);
        if e.len() > 1 {
            assert(t[i + 1] == e[1]);
        }
        if e.len() == 6 {
            assert(t[i + 2] == e[2] && t[i + 3] == e[3] && t[i + 4] == e[4] && t[i + 5] == e[5]);
            assert(unit_at(t, i + 2) == b);
            assert(utf8(b as nat) =~= seq![b]);
            assert(out + utf8(b as nat) =~= out.push(b));
        }
    }
}

/// A text written as a JSON string is read back, whatever bytes it holds.
pub proof fn strings_are_read_back(s: Seq<u8>)
    ensures
        element(Ty::Varchar, json_string(s)) == Ok::<Val, Code>(Val::Bytes(s)),
{
    let t = json_string(s);
    assert(t[0] == 34);
    let u = unquoted(t);
    assert(u =~= escaped_text(s));
    assert(u.skip(0) =~= u);
    lemma_decoded(u, 0, Seq::empty(), s);
    assert(Seq::<u8>::empty() + s =~= s);
}

} // verus!
