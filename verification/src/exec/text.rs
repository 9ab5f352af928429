//! Values as JSON-like text, for `ARRAY_AGG`.

use crate::float::{
    f_infinite, f_less, f_negated, f_product, f_quotient, f_sum, f_whole, is_infinite, is_nan, less, negate, over, plus, times,
    whole, F_HALF, F_TEN, F_ZERO,
};
use crate::hash::put_bytes;
use crate::order::{f64_is_nan, f64_magnitude};
use crate::vector::{Ty, Val, Value};
use vstd::prelude::*;

verus! {

// --- Whole numbers ----------------------------------------------------------------------

/// The decimal digits of a number.
pub open spec fn digits(n: nat) -> Seq<u8>
    decreases n,
{
    if n < 10 {
        seq![(48 + n) as u8]
    } else {
        digits(n / 10).push((48 + n % 10) as u8)
    }
}

pub open spec fn zeros(n: nat) -> Seq<u8> {
    Seq::new(n, |i: int| 48u8)
}

/// At least `width` digits, with zeros in front.
pub open spec fn padded(d: Seq<u8>, width: nat) -> Seq<u8> {
    if d.len() < width {
        zeros((width - d.len()) as nat) + d
    } else {
        d
    }
}

/// A number of `scale` decimals as text. There is a digit before the point.
pub open spec fn int_text(v: int, scale: nat) -> Seq<u8> {
    let d = padded(
        digits(
            (if v < 0 {
                -v
            } else {
                v
            }) as nat,
        ),
        scale + 1,
    );
    let sign = if v < 0 {
        seq![45u8]
    } else {
        Seq::<u8>::empty()
    };
    if scale == 0 {
        sign + d
    } else {
        sign + d.take(d.len() - scale) + seq![46u8] + d.skip(d.len() - scale)
    }
}

/// Writes the digits of a number, the last one first.
fn reversed_digits(n: u128) -> (r: Vec<u8>)
    ensures
        r@.reverse() == digits(n as nat),
        r@.len() >= 1,
{
    let mut r: Vec<u8> = Vec::new();
    let mut u: u128 = n;
    proof {
        assert(r@.reverse() =~= Seq::<u8>::empty());
        assert(digits(u as nat) + r@.reverse() =~= digits(n as nat));
    }
    while u >= 10
        invariant
            digits(u as nat) + r@.reverse() == digits(n as nat),
        decreases u,
    {
        let d: u8 = (u % 10) as u8;
        let ghost before = r@;
        r.push(48 + d);
        proof {
            assert(r@.reverse() =~= seq![(48 + d) as u8] + before.reverse());
            assert(digits(u as nat) == digits(u as nat / 10).push((48 + u as nat % 10) as u8));
            assert(digits((u / 10) as nat) + r@.reverse() =~= digits(u as nat) + before.reverse());
        }
        u = u / 10;
    }
    let ghost before = r@;
    r.push(48 + u as u8);
    proof {
        assert(r@.reverse() =~= digits(u as nat) + before.reverse());
    }
    r
}

fn magnitude(v: i128) -> (r: u128)
    ensures
        r == if v < 0 {
            -(v as int)
        } else {
            v as int
        },
{
    if v < 0 {
        (-(v + 1)) as u128 + 1
    } else {
        v as u128
    }
}

/// Writes a number of `scale` decimals.
pub fn push_int_text(out: &mut Vec<u8>, v: i128, scale: u8)
    ensures
        final(out)@ == old(out)@ + int_text(v as int, scale as nat),
{
    let ghost start = out@;
    let mut d = reversed_digits(magnitude(v));
    let ghost plain = digits(
        (if v < 0 {
            -(v as int)
        } else {
            v as int
        }) as nat,
    );
    let ghost d0 = d@;
    while d.len() <= scale as usize
        invariant
            d0.reverse() == plain,
            d0.len() <= d@.len(),
            d@.len() <= scale + 1 || d@ == d0,
            d@.reverse() == zeros((d@.len() - d0.len()) as nat) + plain,
        decreases scale + 1 - d@.len(),
    {
        let ghost before = d@;
        d.push(48);
        assert(d@.reverse() =~= seq![48u8] + before.reverse());
        assert(d@.reverse() =~= zeros((d@.len() - d0.len()) as nat) + plain);
    }
    let ghost all = d@.reverse();
    proof {
        assert(all =~= padded(plain, scale as nat + 1));
    }
    let neg: bool = v < 0;
    if neg {
        out.push(45);
    }
    let ghost sign = if v < 0 {
        seq![45u8]
    } else {
        Seq::<u8>::empty()
    };
    assert(out@ =~= start + sign);
    let n: usize = d.len();
    let point: usize = scale as usize;
    let mut i: usize = n;
    assert(all.take(0) =~= Seq::empty());
    while i > 0
        invariant
            n == d@.len(),
            all == d@.reverse(),
            point == scale,
            point < n,
            i <= n,
            out@ == if point == 0 || i >= point + 1 {
                start + sign + all.take(n - i)
            } else {
                start + sign + all.take(n - point) + seq![46u8] + all.subrange(n - point, n - i)
            },
        decreases i,
    {
        i = i - 1;
        out.push(d[i]);
        proof {
            assert(d@[i as int] == all[n - 1 - i]);
            assert(all.take(n - i) =~= all.take(n - i - 1).push(all[n - i - 1]));
            if point > 0 && i < point {
                assert(all.subrange(n - point, n - i) =~= all.subrange(n - point, n - i - 1).push(all[n - i - 1]));
            }
        }
        if point > 0 && i == point {
            out.push(46);
            assert(all.subrange(n - point, n - i) =~= Seq::empty());
        }
    }
    proof {
        assert(all.take(n as int) =~= all);
        if point > 0 {
            assert(all.subrange(n - point, n as int) =~= all.skip(n - point));
        }
        assert(out@ =~= start + int_text(v as int, scale as nat));
    }
}

// --- Strings --------------------------------------------------------------------------

/// The digit of a number below 16.
pub open spec fn hex(n: int) -> u8 {
    if n < 10 {
        (48 + n) as u8
    } else {
        (97 + (n - 10)) as u8
    }
}

/// A byte inside a string literal. The quote, the backslash and control characters are
/// escaped.
pub open spec fn escaped(b: u8) -> Seq<u8> {
    if b == 34 {
        seq![92u8, 34u8]
    } else if b == 92 {
        seq![92u8, 92u8]
    } else if b == 10 {
        seq![92u8, 110u8]
    } else if b == 13 {
        seq![92u8, 114u8]
    } else if b == 9 {
        seq![92u8, 116u8]
    } else if b < 32 {
        seq![92u8, 117u8, 48u8, 48u8, hex(b as int / 16), hex(b as int % 16)]
    } else {
        seq![b]
    }
}

/// The inside of a string literal.
pub open spec fn escaped_text(s: Seq<u8>) -> Seq<u8>
    decreases s.len(),
{
    if s.len() == 0 {
        Seq::empty()
    } else {
        escaped_text(s.drop_last()) + escaped(s.last())
    }
}

pub open spec fn json_string(s: Seq<u8>) -> Seq<u8> {
    seq![34u8] + escaped_text(s) + seq![34u8]
}

fn hex_digit(n: u8) -> (r: u8)
    requires
        n < 16,
    ensures
        r == hex(n as int),
{
    if n < 10 {
        48 + n
    } else {
        97 + (n - 10)
    }
}

/// Writes a string literal.
pub fn push_json_string(out: &mut Vec<u8>, s: &[u8])
    ensures
        final(out)@ == old(out)@ + json_string(s@),
{
    let ghost start = out@;
    out.push(34);
    let mut i: usize = 0;
    assert(s@.take(0) =~= Seq::empty());
    while i < s.len()
        invariant
            i <= s@.len(),
            out@ == start + seq![34u8] + escaped_text(s@.take(i as int)),
        decreases s@.len() - i,
    {
        let b: u8 = s[i];
        let ghost before = out@;
        if b == 34 || b == 92 {
            out.push(92);
            out.push(b);
        } else if b == 10 {
            out.push(92);
            out.push(110);
        } else if b == 13 {
            out.push(92);
            out.push(114);
        } else if b == 9 {
            out.push(92);
            out.push(116);
        } else if b < 32 {
            out.push(92);
            out.push(117);
            out.push(48);
            out.push(48);
            out.push(hex_digit(b / 16));
            out.push(hex_digit(b % 16));
        } else {
            out.push(b);
        }
        proof {
            assert(out@ =~= before + escaped(b));
            assert(s@.take(i + 1).drop_last() =~= s@.take(i as int));
        }
        i = i + 1;
    }
    assert(s@.take(i as int) =~= s@);
    out.push(34);
    assert(out@ =~= start + json_string(s@));
}

// --- Doubles --------------------------------------------------------------------------

/// 1e15
pub const F_1E15: u64 = 0x430c_6bf5_2634_0000;

/// 1e14
pub const F_1E14: u64 = 0x42d6_bcc4_1e90_0000;

/// More steps than any double needs to be brought to 15 digits before the point.
pub const MAX_SCALINGS: u32 = 400;

/// Divides by ten until there are at most 15 digits before the point.
pub open spec fn scaled_down(m: u64, e: int, k: nat) -> (u64, int)
    decreases k,
{
    if k == 0 || f_less(m, F_1E15) {
        (m, e)
    } else {
        scaled_down(f_quotient(m, F_TEN), e + 1, (k - 1) as nat)
    }
}

/// Multiplies by ten until there are at least 15 digits before the point.
pub open spec fn scaled_up(m: u64, e: int, k: nat) -> (u64, int)
    decreases k,
{
    if k == 0 || !f_less(m, F_1E14) {
        (m, e)
    } else {
        scaled_up(f_product(m, F_TEN), e - 1, (k - 1) as nat)
    }
}

/// The last `k` digits of a number.
pub open spec fn low_digits(n: nat, k: nat) -> Seq<u8>
    decreases k,
{
    if k == 0 {
        Seq::empty()
    } else {
        low_digits(n / 10, (k - 1) as nat).push((48 + n % 10) as u8)
    }
}

/// Digits without the zeros at the end; one digit always stays.
pub open spec fn trimmed(d: Seq<u8>) -> Seq<u8>
    decreases d.len(),
{
    if d.len() > 1 && d.last() == 48 {
        trimmed(d.drop_last())
    } else {
        d
    }
}

/// A number `0.d1d2... * 10^p`. Very large and very small ones get an exponent.
pub open spec fn placed(d: Seq<u8>, p: int) -> Seq<u8> {
    if p < 1 || p > 17 {
        d.take(1) + (if d.len() > 1 {
            seq![46u8] + d.skip(1)
        } else {
            Seq::empty()
        }) + seq![101u8] + int_text(p - 1, 0)
    } else if p >= d.len() {
        d + zeros((p - d.len()) as nat)
    } else {
        d.take(p) + seq![46u8] + d.skip(p)
    }
}

/// A positive finite double with 15 significant digits.
pub open spec fn magnitude_text(v: u64) -> Seq<u8> {
    let down = scaled_down(v, 0, MAX_SCALINGS as nat);
    let up = scaled_up(down.0, down.1, MAX_SCALINGS as nat);
    let mant = f_whole(f_sum(up.0, F_HALF)) as int;
    if mant >= 1_000_000_000_000_000 {
        placed(trimmed(low_digits((mant / 10) as nat, 15)), up.1 + 1 + 15)
    } else {
        placed(trimmed(low_digits(mant as nat, 15)), up.1 + 15)
    }
}

/// A double as text.
pub open spec fn f64_text(x: u64) -> Seq<u8> {
    if f64_is_nan(x) {
        seq![78u8, 97u8, 78u8]
    } else if f_infinite(x) {
        let name = seq![73u8, 110u8, 102u8, 105u8, 110u8, 105u8, 116u8, 121u8];
        if f_less(x, F_ZERO) {
            seq![45u8] + name
        } else {
            name
        }
    } else if f64_magnitude(x) == 0 {
        if crate::float::f_negative(x) {
            seq![45u8, 48u8]
        } else {
            seq![48u8]
        }
    } else if f_less(x, F_ZERO) {
        seq![45u8] + magnitude_text(f_negated(x))
    } else {
        magnitude_text(x)
    }
}

/// The last 15 digits of a number, without the zeros at the end.
fn trimmed_digits(mant: u64) -> (d: Vec<u8>)
    ensures
        d@ == trimmed(low_digits(mant as nat, 15)),
        1 <= d@.len() <= 15,
{
    let mut back: Vec<u8> = Vec::new();
    let mut t: u64 = mant;
    let mut k: usize = 0;
    assert(low_digits(t as nat, 15) + back@.reverse() =~= low_digits(mant as nat, 15));
    while k < 15
        invariant
            k <= 15,
            back@.len() == k,
            low_digits(t as nat, (15 - k) as nat) + back@.reverse() == low_digits(mant as nat, 15),
        decreases 15 - k,
    {
        let ghost before = back@;
        let ghost t0 = t;
        back.push(48 + (t % 10) as u8);
        t = t / 10;
        k = k + 1;
        proof {
            assert(back@.reverse() =~= seq![(48 + t0 as nat % 10) as u8] + before.reverse());
            assert(low_digits(t as nat, (15 - k) as nat) + back@.reverse() =~= low_digits(t0 as nat, (15 - k + 1) as nat)
                + before.reverse());
        }
    }
    let ghost all = low_digits(mant as nat, 15);
    assert(low_digits(t as nat, 0) + back@.reverse() =~= back@.reverse());
    assert(all == back@.reverse());
    let mut d: Vec<u8> = Vec::new();
    let mut j: usize = 15;
    while j > 0
        invariant
            j <= 15,
            back@.len() == 15,
            all == back@.reverse(),
            d@ == all.take(15 - j),
        decreases j,
    {
        j = j - 1;
        d.push(back[j]);
        assert(d@ =~= all.take(15 - j));
    }
    assert(d@ =~= all);
    while d.len() > 1 && d[d.len() - 1] == 48
        invariant
            1 <= d@.len() <= 15,
            trimmed(d@) == trimmed(all),
        decreases d@.len(),
    {
        let ghost before = d@;
        let _last = d.pop();
        assert(d@ =~= before.drop_last());
    }
    d
}

/// Writes digits `0.d1d2... * 10^p`.
fn push_placed(out: &mut Vec<u8>, d: &Vec<u8>, p: i32)
    requires
        1 <= d@.len() <= 15,
        p > i32::MIN,
    ensures
        final(out)@ == old(out)@ + placed(d@, p as int),
{
    let ghost start = out@;
    let n: usize = d.len();
    if p < 1 || p > 17 {
        out.push(d[0]);
        if n > 1 {
            out.push(46);
            put_bytes(out, vstd::slice::slice_subrange(d.as_slice(), 1, n));
        }
        out.push(101);
        proof {
            assert(out@ =~= start + d@.take(1) + (if d@.len() > 1 {
                seq![46u8] + d@.skip(1)
            } else {
                Seq::empty()
            }) + seq![101u8]);
        }
        push_int_text(out, p as i128 - 1, 0);
        assert(out@ =~= start + placed(d@, p as int));
    } else if p as usize >= n {
        put_bytes(out, d.as_slice());
        let fill: usize = p as usize - n;
        let mut i: usize = 0;
        assert(out@ =~= start + d@ + zeros(0));
        while i < fill
            invariant
                i <= fill,
                out@ == start + d@ + zeros(i as nat),
            decreases fill - i,
        {
            out.push(48);
            i = i + 1;
            assert(out@ =~= start + d@ + zeros(i as nat));
        }
        assert(out@ =~= start + placed(d@, p as int));
    } else {
        put_bytes(out, vstd::slice::slice_subrange(d.as_slice(), 0, p as usize));
        out.push(46);
        put_bytes(out, vstd::slice::slice_subrange(d.as_slice(), p as usize, n));
        assert(out@ =~= start + placed(d@, p as int));
    }
}

fn push_magnitude(out: &mut Vec<u8>, v: u64)
    ensures
        final(out)@ == old(out)@ + magnitude_text(v),
{
    let mut m: u64 = v;
    let mut e: i32 = 0;
    let mut k: u32 = MAX_SCALINGS;
    while k > 0 && !less(m, F_1E15)
        invariant
            k <= MAX_SCALINGS,
            e == MAX_SCALINGS - k,
            scaled_down(m, e as int, k as nat) == scaled_down(v, 0, MAX_SCALINGS as nat),
        decreases k,
    {
        m = over(m, F_TEN);
        e = e + 1;
        k = k - 1;
    }
    assert(scaled_down(v, 0, MAX_SCALINGS as nat) == (m, e as int));
    let ghost m1 = m;
    let ghost e1 = e;
    let mut k: u32 = MAX_SCALINGS;
    while k > 0 && less(m, F_1E14)
        invariant
            k <= MAX_SCALINGS,
            0 <= e1 <= MAX_SCALINGS,
            e == e1 - (MAX_SCALINGS - k),
            scaled_up(m, e as int, k as nat) == scaled_up(m1, e1 as int, MAX_SCALINGS as nat),
        decreases k,
    {
        m = times(m, F_TEN);
        e = e - 1;
        k = k - 1;
    }
    assert(scaled_up(m1, e1 as int, MAX_SCALINGS as nat) == (m, e as int));
    let mant: u64 = whole(plus(m, F_HALF));
    if mant >= 1_000_000_000_000_000 {
        let d = trimmed_digits(mant / 10);
        push_placed(out, &d, e + 1 + 15);
    } else {
        let d = trimmed_digits(mant);
        push_placed(out, &d, e + 15);
    }
}

/// Writes a double.
pub fn push_f64_text(out: &mut Vec<u8>, x: u64)
    ensures
        final(out)@ == old(out)@ + f64_text(x),
{
    let ghost start = out@;
    if is_nan(x) {
        out.push(78);
        out.push(97);
        out.push(78);
        assert(out@ =~= start + f64_text(x));
        return;
    }
    if is_infinite(x) {
        if less(x, F_ZERO) {
            out.push(45);
        }
        out.push(73);
        out.push(110);
        out.push(102);
        out.push(105);
        out.push(110);
        out.push(105);
        out.push(116);
        out.push(121);
        assert(out@ =~= start + f64_text(x));
        return;
    }
    if crate::float::magnitude_of(x) == 0 {
        if crate::float::is_negative(x) {
            out.push(45);
        }
        out.push(48);
        assert(out@ =~= start + f64_text(x));
        return;
    }
    if less(x, F_ZERO) {
        out.push(45);
        push_magnitude(out, negate(x));
        assert(out@ =~= start + f64_text(x));
    } else {
        push_magnitude(out, x);
    }
}

// --- Values ---------------------------------------------------------------------------

/// The digits behind the point of a column's integers; they have a point only if they are decimals.
pub open spec fn decimals(ty: Ty) -> u8 {
    match ty {
        Ty::Decimal { precision, scale } => scale,
        _ => 0,
    }
}

/// A value of a column as an element of a list.
pub open spec fn scalar_text(v: Val, ty: Ty) -> Seq<u8> {
    match v {
        Val::Null => seq![110u8, 117u8, 108u8, 108u8],
        Val::Bool(b) => if b {
            seq![116u8, 114u8, 117u8, 101u8]
        } else {
            seq![102u8, 97u8, 108u8, 115u8, 101u8]
        },
        Val::I32(x) => int_text(x as int, decimals(ty) as nat),
        Val::I64(x) => int_text(x as int, decimals(ty) as nat),
        Val::I128(x) => int_text(x as int, decimals(ty) as nat),
        Val::F64(x) => f64_text(x),
        Val::Bytes(s) => json_string(s),
    }
}

/// Writes a value as an element of a list.
pub fn push_json_scalar(out: &mut Vec<u8>, v: &Value, ty: Ty)
    ensures
        final(out)@ == old(out)@ + scalar_text(v@, ty),
{
    let ghost start = out@;
    let scale: u8 = match ty {
        Ty::Decimal { precision: _, scale } => scale,
        _ => 0,
    };
    match v {
        Value::Null => {
            out.push(110);
            out.push(117);
            out.push(108);
            out.push(108);
        },
        Value::Bool(b) => {
            if *b {
                out.push(116);
                out.push(114);
                out.push(117);
                out.push(101);
            } else {
                out.push(102);
                out.push(97);
                out.push(108);
                out.push(115);
                out.push(101);
            }
        },
        Value::I32(x) => {
            push_int_text(out, *x as i128, scale);
        },
        Value::I64(x) => {
            push_int_text(out, *x as i128, scale);
        },
        Value::I128(x) => {
            push_int_text(out, *x, scale);
        },
        Value::F64(x) => {
            push_f64_text(out, *x);
        },
        Value::Bytes(s) => {
            push_json_string(out, s.as_slice());
        },
    }
    assert(out@ =~= start + scalar_text(v@, ty));
}

} // verus!
