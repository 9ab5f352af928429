//! JSON lists that are written are read back, element by element.

use crate::error::Code;
use crate::exec::text::{digits, escaped, escaped_text, hex, int_text, json_string, padded, scalar_text, zeros};
use crate::json::{
    after_space, all_digits, at, decoded_from, elements_from, elements_of, hex4, hex_value, is_digit, is_hex, is_space,
    kind_of, low_half, number_end, string_end, unit_at, utf8, value_end, word_false, Elem, Kind, MAX_DEPTH,
};
use crate::exec::unnest::{elem_value, pairs_from};
use crate::laws::aggregates::{element_texts, joined};
use crate::laws::elements::{
    element, frac_text, lemma_digits, lemma_escaped_front, lemma_run, lemma_spelled_adds, number_text, power_text,
    sign_text, spelled, strings_are_read_back, well_written, whole_numbers_are_read_back, words_become_truth_values,
    PowerV,
};
use crate::laws::rounding::ten_to;
use crate::vector::{Ty, Val};
use vstd::prelude::*;

verus! {

// --- Texts of values ----------------------------------------------------------------------------

/// Whether a text stands in a longer one at a position.
pub open spec fn stands(s: Seq<u8>, i: int, t: Seq<u8>) -> bool {
    0 <= i && i + t.len() <= s.len() && s.subrange(i, i + t.len()) == t
}

/// Whether a byte ends a value: a comma or a closing bracket.
pub open spec fn ends(b: u8) -> bool {
    b == 44 || b == 93
}

/// Whether a text is that of a JSON value that holds no others.
pub open spec fn value_text(t: Seq<u8>) -> bool {
    ||| exists|neg: bool, whole: Seq<u8>, frac: Seq<u8>, power: Option<PowerV>|
        #![trigger number_text(neg, whole, frac, power)]
        well_written(whole, frac, power) && t == number_text(neg, whole, frac, power)
    ||| exists|x: Seq<u8>| t == #[trigger] json_string(x)
    ||| t == seq![116u8, 114u8, 117u8, 101u8]
    ||| t == seq![102u8, 97u8, 108u8, 115u8, 101u8]
    ||| t == seq![110u8, 117u8, 108u8, 108u8]
}

proof fn lemma_stands_at(s: Seq<u8>, i: int, t: Seq<u8>, k: int)
    requires
        stands(s, i, t),
        0 <= k < t.len(),
    ensures
        s[i + k] == t[k],
        at(s, i + k) == t[k],
{
    assert(s.subrange(i, i + t.len())[k] == t[k]);
}

/// A number is taken to its end wherever it stands.
#[verifier::rlimit(60)]
proof fn lemma_number_end(s: Seq<u8>, i: int, neg: bool, whole: Seq<u8>, frac: Seq<u8>, power: Option<PowerV>)
    requires
        well_written(whole, frac, power),
        stands(s, i, number_text(neg, whole, frac, power)),
        ends(at(s, i + number_text(neg, whole, frac, power).len())),
    ensures
        number_end(s, i) == Ok::<int, Code>(i + number_text(neg, whole, frac, power).len()),
        at(s, i) == 45 || is_digit(at(s, i)),
{
    let t = number_text(neg, whole, frac, power);
    let a: int = if neg {
        1
    } else {
        0
    };
    let b = a + whole.len();
    let c = b + frac_text(frac).len();
    let e = t.len() as int;
    assert(e == c + power_text(power).len());
    assert forall|k: int| 0 <= k < e implies #[trigger] t[k] == s[i + k] by {
        lemma_stands_at(s, i, t, k);
    }
    assert forall|k: int| i + a <= k < i + b implies is_digit(#[trigger] s[k]) by {
        assert(t[k - i] == whole[k - i - a]);
    }
    assert(t[a] == whole[0]);
    assert(is_digit(whole[0]));
    if neg {
        assert(t[0] == 45);
    }
    assert(at(s, i + a) == whole[0]);
    let next = at(s, i + c);
    assert(power is None ==> next == at(s, i + e));
    assert(power is Some ==> next == 101 || next == 69) by {
        if power is Some {
            assert(t[c] == power_text(power)[0]);
        }
    }
    if frac.len() > 0 {
        assert(t[b] == frac_text(frac)[0]);
        assert(at(s, i + b) == 46);
        assert forall|k: int| i + b + 1 <= k < i + c implies is_digit(#[trigger] s[k]) by {
            assert(t[k - i] == frac[k - i - b - 1]);
        }
        assert(t[b + 1] == frac[0]);
        assert(is_digit(s[i + (b + 1)]));
        lemma_run(s, i + b + 1, i + c);
    } else {
        assert(b == c);
    }
    assert(!is_digit(at(s, i + b)));
    if whole.len() > 1 {
        lemma_run(s, i + a, i + b);
    } else if whole[0] != 48 {
        lemma_run(s, i + a, i + b);
    }
    match power {
        None => {},
        Some(p) => {
            let signs: int = if p.minus || p.plus {
                1
            } else {
                0
            };
            let d = c + 1 + signs;
            assert(power_text(power).len() == 1 + signs + p.digits.len());
            assert forall|k: int| i + d <= k < i + e implies is_digit(#[trigger] s[k]) by {
                assert(t[k - i] == p.digits[k - i - d]);
            }
            assert(t[d] == p.digits[0]);
            assert(is_digit(s[i + d]));
            assert(t[c + 1] == power_text(power)[1]);
            lemma_run(s, i + d, i + e);
        },
    }
}

/// A string is taken to its closing quote wherever it stands.
proof fn lemma_string_end(s: Seq<u8>, i: int, x: Seq<u8>)
    requires
        stands(s, i, escaped_text(x) + seq![34u8]),
    ensures
        string_end(s, i) == Ok::<int, Code>(i + escaped_text(x).len() + 1),
    decreases x.len(),
{
    let t = escaped_text(x) + seq![34u8];
    if x.len() == 0 {
        lemma_stands_at(s, i, t, 0);
        assert(t[0] == 34);
    } else {
        lemma_escaped_front(x);
        let b = x[0];
        let e = escaped(b);
        let r = x.drop_first();
        let rest = escaped_text(r) + seq![34u8];
        assert(t =~= e + rest);
        assert forall|k: int| 0 <= k < e.len() implies #[trigger] e[k] == s[i + k] by {
            lemma_stands_at(s, i, t, k);
        }
        assert(stands(s, i + e.len(), rest)) by {
            assert(s.subrange(i + e.len(), i + e.len() + rest.len()) =~= s.subrange(i, i + t.len()).skip(e.len() as int));
            assert(t.skip(e.len() as int) =~= rest);
        }
        lemma_string_end(s, i + e.len(), r);
        assert(e[0] == s[i + 0]);
        if e.len() > 1 {
            assert(e[1] == s[i + 1]);
        }
        if e.len() == 6 {
            assert(e[2] == s[i + 2] && e[3] == s[i + 3] && e[4] == s[i + 4] && e[5] == s[i + 5]);
        }
    }
}

/// Where a value ends, wherever it stands.
proof fn lemma_value_end(s: Seq<u8>, i: int, t: Seq<u8>, d: nat)
    requires
        value_text(t),
        stands(s, i, t),
        ends(at(s, i + t.len())),
    ensures
        value_end(s, i, d) == Ok::<int, Code>(i + t.len()),
        t.len() > 0,
        at(s, i) == t[0],
        !is_space(t[0]),
        t[0] != 93,
{
    if exists|x: Seq<u8>| t == #[trigger] json_string(x) {
        let x = choose|x: Seq<u8>| t == #[trigger] json_string(x);
        lemma_stands_at(s, i, t, 0);
        let rest = escaped_text(x) + seq![34u8];
        assert(t =~= seq![34u8] + rest);
        assert(stands(s, i + 1, rest)) by {
            assert(s.subrange(i + 1, i + 1 + rest.len()) =~= s.subrange(i, i + t.len()).skip(1));
            assert(t.skip(1) =~= rest);
        }
        lemma_string_end(s, i + 1, x);
    } else if exists|neg: bool, whole: Seq<u8>, frac: Seq<u8>, power: Option<PowerV>|
        #![trigger number_text(neg, whole, frac, power)]
        well_written(whole, frac, power) && t == number_text(neg, whole, frac, power) {
        let (neg, whole, frac, power) = choose|neg: bool, whole: Seq<u8>, frac: Seq<u8>, power: Option<PowerV>|
            #![trigger number_text(neg, whole, frac, power)]
            well_written(whole, frac, power) && t == number_text(neg, whole, frac, power);
        lemma_number_end(s, i, neg, whole, frac, power);
        assert(t.len() >= whole.len());
        lemma_stands_at(s, i, t, 0);
    } else {
        assert forall|k: int| 0 <= k < t.len() implies #[trigger] t[k] == s[i + k] by {
            lemma_stands_at(s, i, t, k);
        }
        assert(t[0] == s[i + 0] && t[1] == s[i + 1] && t[2] == s[i + 2] && t[3] == s[i + 3]);
        if t.len() == 5 {
            assert(t[4] == s[i + 4]);
            assert(s.subrange(i, i + 5) =~= word_false());
        } else {
            assert(s.subrange(i, i + 4) =~= t);
        }
    }
}

/// The text of a list: its elements in brackets, with a comma and a space between each two.
pub open spec fn list_text(ts: Seq<Seq<u8>>) -> Seq<u8> {
    seq![91u8] + joined(ts, seq![44u8, 32u8]) + seq![93u8]
}

/// What stands behind the beginning of a list: the elements that are left.
proof fn lemma_elements(s: Seq<u8>, i: int, ts: Seq<Seq<u8>>, found: Seq<Elem>, n: int)
    requires
        0 <= n < ts.len(),
        forall|k: int| 0 <= k < ts.len() ==> value_text(#[trigger] ts[k]),
        stands(s, i, joined(ts.skip(n), seq![44u8, 32u8]) + seq![93u8]),
        i + (joined(ts.skip(n), seq![44u8, 32u8]) + seq![93u8]).len() == s.len(),
        s.len() <= usize::MAX,
        found.len() == n,
        forall|k: int|
            0 <= k < n ==> s.subrange((#[trigger] found[k]).start as int, found[k].end as int) == ts[k] && found[k].kind
                == kind_of(at(ts[k], 0)),
    ensures
        elements_from(s, i, found) matches Ok(es) && es.len() == ts.len() && forall|k: int|
            0 <= k < ts.len() ==> s.subrange((#[trigger] es[k]).start as int, es[k].end as int) == ts[k] && es[k].kind
                == kind_of(at(ts[k], 0)),
    decreases ts.len() - n,
{
    let sep = seq![44u8, 32u8];
    let us = ts.skip(n);
    let t = ts[n];
    let all = joined(us, sep) + seq![93u8];
    assert(us[0] == t);
    assert(value_text(t));
    let rest = if us.len() == 1 {
        seq![93u8]
    } else {
        sep + joined(us.drop_first(), sep) + seq![93u8]
    };
    assert(all =~= t + rest);
    assert(stands(s, i, t)) by {
        assert(s.subrange(i, i + t.len()) =~= s.subrange(i, i + all.len()).take(t.len() as int));
        assert(all.take(t.len() as int) =~= t);
    }
    let j = i + t.len();
    lemma_stands_at(s, i, all, t.len() as int);
    assert(all[t.len() as int] == rest[0]);
    assert(at(s, j) == rest[0]);
    lemma_value_end(s, i, t, (MAX_DEPTH - 1) as nat);
    let e = Elem { start: i as usize, end: j as usize, kind: kind_of(at(s, i)) };
    let more = found.push(e);
    assert(at(t, 0) == t[0]);
    assert forall|k: int| 0 <= k < n + 1 implies s.subrange((#[trigger] more[k]).start as int, more[k].end as int) == ts[k]
        && more[k].kind == kind_of(at(ts[k], 0)) by {
        if k < n {
            assert(more[k] == found[k]);
        }
    }
    assert(after_space(s, j) == j);
    if us.len() == 1 {
        assert(n + 1 == ts.len());
        assert(j + 1 == s.len());
        assert(after_space(s, j + 1) == j + 1);
    } else {
        lemma_stands_at(s, i, all, t.len() as int + 1);
        assert(all[t.len() as int + 1] == rest[1]);
        assert(rest[1] == 32);
        let m = j + 2;
        let vs = ts.skip(n + 1);
        assert(vs =~= us.drop_first());
        let tail = joined(vs, sep) + seq![93u8];
        assert(rest =~= sep + tail);
        assert(stands(s, m, tail)) by {
            assert(s.subrange(m, m + tail.len()) =~= s.subrange(i, i + all.len()).skip(t.len() as int + 2));
            assert(all.skip(t.len() as int + 2) =~= tail);
        }
        let t2 = ts[n + 1];
        assert(value_text(t2));
        assert(vs[0] == t2);
        lemma_first_byte(t2);
        lemma_stands_at(s, m, tail, 0);
        assert(tail[0] == t2[0]);
        assert(after_space(s, m) == m);
        assert(after_space(s, j + 1) == after_space(s, j + 2)) by {
            assert(s[j + 1] == 32);
        }
        lemma_elements(s, m, ts, more, n + 1);
    }
}

proof fn lemma_first_byte(t: Seq<u8>)
    requires
        value_text(t),
    ensures
        t.len() > 0,
        !is_space(t[0]),
        t[0] != 93,
{
    let s = t.push(44);
    assert(s.subrange(0, 0 + t.len() as int) =~= t);
    assert(at(s, t.len() as int) == 44);
    lemma_value_end(s, 0, t, 0);
}

/// A list that is written is split into the texts of its elements, in their order, and the kind
/// of each is told by its first byte.
pub proof fn lists_are_split_into_their_elements(ts: Seq<Seq<u8>>)
    requires
        forall|k: int| 0 <= k < ts.len() ==> value_text(#[trigger] ts[k]),
        list_text(ts).len() <= usize::MAX,
    ensures
        elements_of(list_text(ts)) matches Ok(Some(es)) && es.len() == ts.len() && forall|k: int|
            0 <= k < ts.len() ==> list_text(ts).subrange((#[trigger] es[k]).start as int, es[k].end as int) == ts[k]
                && es[k].kind == kind_of(at(ts[k], 0)),
{
    let sep = seq![44u8, 32u8];
    let s = list_text(ts);
    assert(s[0] == 91);
    assert(after_space(s, 0) == 0);
    if ts.len() == 0 {
        assert(s =~= seq![91u8, 93u8]);
        assert(after_space(s, 1) == 1);
        assert(after_space(s, 2) == 2);
    } else {
        let all = joined(ts, sep) + seq![93u8];
        assert(ts.skip(0) =~= ts);
        assert(stands(s, 1, all)) by {
            assert(s.subrange(1, 1 + all.len() as int) =~= all);
        }
        assert(value_text(ts[0]));
        lemma_first_byte(ts[0]);
        assert(all[0] == ts[0][0]) by {
            assert(joined(ts, sep).len() >= ts[0].len());
            assert(joined(ts, sep)[0] == ts[0][0]);
        }
        assert(s[1] == all[0]);
        assert(after_space(s, 1) == 1);
        lemma_elements(s, 1, ts, Seq::empty(), 0);
    }
}

// --- Decimals ---------------------------------------------------------------------------------------

proof fn lemma_zeros(n: nat)
    ensures
        spelled(zeros(n)) == 0,
        all_digits(zeros(n)),
    decreases n,
{
    if n > 0 {
        let z = zeros(n);
        assert(z.drop_first() =~= zeros((n - 1) as nat));
        lemma_zeros((n - 1) as nat);
        assert(0 * ten_to((n - 1) as nat) == 0) by (nonlinear_arith);
    }
}

/// A decimal is written with its digits behind the point: the digits spell the stored number, and
/// as many of them stand behind the point as the scale says.
pub proof fn decimals_are_written_by_their_digits(v: int, scale: nat) -> (parts: (Seq<u8>, Seq<u8>))
    ensures
        int_text(v, scale) == number_text(v < 0, parts.0, parts.1, None),
        all_digits(parts.0),
        all_digits(parts.1),
        parts.0.len() > 0,
        parts.0.len() > 1 ==> parts.0[0] != 48,
        parts.1.len() == scale,
        spelled(parts.0 + parts.1) == if v < 0 {
            -v
        } else {
            v
        },
{
    let n: nat = (if v < 0 {
        -v
    } else {
        v
    }) as nat;
    let ds = digits(n);
    lemma_digits(n);
    let d = padded(ds, scale + 1);
    let pad = zeros((scale + 1 - ds.len()) as nat);
    if ds.len() < scale + 1 {
        lemma_zeros((scale + 1 - ds.len()) as nat);
        lemma_spelled_adds(pad, ds);
        assert(0 * ten_to(ds.len()) == 0) by (nonlinear_arith);
        assert(d == pad + ds);
        assert forall|i: int| 0 <= i < d.len() implies is_digit(#[trigger] d[i]) by {
            if i < pad.len() {
                assert(d[i] == pad[i]);
            } else {
                assert(d[i] == ds[i - pad.len()]);
            }
        }
    }
    let k = d.len() - scale;
    let whole = d.take(k);
    let frac = d.skip(k);
    assert(whole + frac =~= d);
    assert(all_digits(whole)) by {
        assert forall|i: int| 0 <= i < whole.len() implies is_digit(#[trigger] whole[i]) by {
            assert(whole[i] == d[i]);
        }
    }
    assert(all_digits(frac)) by {
        assert forall|i: int| 0 <= i < frac.len() implies is_digit(#[trigger] frac[i]) by {
            assert(frac[i] == d[k + i]);
        }
    }
    let sign = sign_text(v < 0);
    if scale == 0 {
        assert(int_text(v, scale) =~= number_text(v < 0, whole, frac, None));
    } else {
        assert(int_text(v, scale) =~= number_text(v < 0, whole, frac, None));
    }
    (whole, frac)
}

// --- Characters -----------------------------------------------------------------------------------------

/// The character number of a UTF-8 sequence, by its first byte.
pub open spec fn character(b: Seq<u8>) -> int {
    if b.len() == 1 {
        b[0] as int
    } else if b.len() == 2 {
        (b[0] - 0xc0) * 64 + (b[1] - 0x80)
    } else if b.len() == 3 {
        ((b[0] - 0xe0) * 64 + (b[1] - 0x80)) * 64 + (b[2] - 0x80)
    } else {
        (((b[0] - 0xf0) * 64 + (b[1] - 0x80)) * 64 + (b[2] - 0x80)) * 64 + (b[3] - 0x80)
    }
}

/// A character is written in UTF-8: in as few bytes as hold it, the first of which tells how many
/// there are, the others from 0x80 to 0xbf.
pub proof fn characters_are_written_in_utf8(c: nat)
    requires
        c < 0x11_0000,
    ensures
        ({
            let b = utf8(c);
            &&& character(b) == c
            &&& b.len() == if c < 0x80 {
                1nat
            } else if c < 0x800 {
                2
            } else if c < 0x1_0000 {
                3
            } else {
                4
            }
            &&& b.len() == 1 ==> b[0] < 0x80
            &&& b.len() == 2 ==> 0xc0 <= b[0] < 0xe0
            &&& b.len() == 3 ==> 0xe0 <= b[0] < 0xf0
            &&& b.len() == 4 ==> 0xf0 <= b[0] < 0xf8
            &&& forall|i: int| 1 <= i < b.len() ==> 0x80 <= #[trigger] b[i] < 0xc0
        }),
{
}

/// A number below `2^16` as an escape: a backslash, `u` and four hexadecimal digits.
pub open spec fn escape(n: int) -> Seq<u8> {
    seq![92u8, 117u8, hex(n / 4096), hex(n / 256 % 16), hex(n / 16 % 16), hex(n % 16)]
}

/// A character as an escape, or as two halves where it is beyond `2^16`.
pub open spec fn character_escape(c: int) -> Seq<u8> {
    if c < 0x1_0000 {
        escape(c)
    } else {
        escape(0xd800 + (c - 0x1_0000) / 1024) + escape(0xdc00 + (c - 0x1_0000) % 1024)
    }
}

proof fn lemma_escape(s: Seq<u8>, i: int, n: int)
    requires
        stands(s, i, escape(n)),
        0 <= n < 0x1_0000,
    ensures
        s[i] == 92,
        at(s, i + 1) == 117,
        hex4(s, i + 2),
        unit_at(s, i + 2) == n,
{
    let e = escape(n);
    let a = n / 4096;
    let b = n / 256 % 16;
    let c = n / 16 % 16;
    let d = n % 16;
    lemma_hex(a);
    lemma_hex(b);
    lemma_hex(c);
    lemma_hex(d);
    assert(a * 4096 + b * 256 + c * 16 + d == n);
    lemma_stands_at(s, i, e, 0);
    lemma_stands_at(s, i, e, 1);
    lemma_stands_at(s, i, e, 2);
    lemma_stands_at(s, i, e, 3);
    lemma_stands_at(s, i, e, 4);
    lemma_stands_at(s, i, e, 5);
    assert(e[2] == hex(a) && e[3] == hex(b) && e[4] == hex(c) && e[5] == hex(d));
    assert(at(s, i + 2) == hex(a) && at(s, i + 2 + 1) == hex(b) && at(s, i + 2 + 2) == hex(c) && at(s, i + 2 + 3) == hex(
        d,
    ));
}

proof fn lemma_hex(n: int)
    requires
        0 <= n < 16,
    ensures
        is_hex(hex(n)),
        hex_value(hex(n)) == n,
{
}

proof fn lemma_escape_alone(c: int)
    requires
        0 <= c < 0x1_0000,
    ensures
        decoded_from(escape(c), 0, Seq::empty()) == Ok::<Seq<u8>, Code>(
            utf8(
                if 0xd800 <= c < 0xe000 {
                    0xfffd
                } else {
                    c as nat
                },
            ),
        ),
{
    let s = escape(c);
    let empty = Seq::<u8>::empty();
    assert(s.len() == 6);
    assert(s.subrange(0, 6) =~= escape(c));
    lemma_escape(s, 0, c);
    assert(at(s, 6) == 0);
    let out = utf8(
        if 0xd800 <= c < 0xe000 {
            0xfffd
        } else {
            c as nat
        },
    );
    assert(empty + out =~= out);
    assert(decoded_from(s, 6, out) == Ok::<Seq<u8>, Code>(out));
}

proof fn lemma_escape_pair(h: int, l: int)
    requires
        0xd800 <= h < 0xdc00,
        0xdc00 <= l < 0xe000,
    ensures
        decoded_from(escape(h) + escape(l), 0, Seq::empty()) == Ok::<Seq<u8>, Code>(
            utf8((0x1_0000 + (h - 0xd800) * 1024 + (l - 0xdc00)) as nat),
        ),
{
    let s = escape(h) + escape(l);
    let empty = Seq::<u8>::empty();
    assert(s.len() == 12);
    assert(s.subrange(0, 6) =~= escape(h));
    assert(s.subrange(6, 12) =~= escape(l));
    lemma_escape(s, 0, h);
    lemma_escape(s, 6, l);
    assert(low_half(s, 6));
    let out = utf8((0x1_0000 + (h - 0xd800) * 1024 + (l - 0xdc00)) as nat);
    assert(empty + out =~= out);
    assert(decoded_from(s, 12, out) == Ok::<Seq<u8>, Code>(out));
}

/// An escaped character is read as its UTF-8 sequence; half of one by itself is read as the
/// replacement character.
pub proof fn escaped_characters_are_read(c: int)
    requires
        0 <= c < 0x11_0000,
    ensures
        decoded_from(character_escape(c), 0, Seq::empty()) == Ok::<Seq<u8>, Code>(
            utf8(
                if 0xd800 <= c < 0xe000 {
                    0xfffd
                } else {
                    c as nat
                },
            ),
        ),
{
    if c < 0x1_0000 {
        lemma_escape_alone(c);
    } else {
        let h = 0xd800 + (c - 0x1_0000) / 1024;
        let l = 0xdc00 + (c - 0x1_0000) % 1024;
        lemma_escape_pair(h, l);
        assert(0x1_0000 + (h - 0xd800) * 1024 + (l - 0xdc00) == c);
    }
}

// --- Collecting and taking apart ------------------------------------------------------------------------

proof fn lemma_digits_len(n: nat, k: nat)
    requires
        k > 0,
        n < ten_to(k),
    ensures
        digits(n).len() <= k,
    decreases n,
{
    if n >= 10 {
        assert(ten_to(k) == 10 * ten_to((k - 1) as nat));
        if k == 1 {
            assert(ten_to(0) == 1);
        }
        lemma_digits_len(n / 10, (k - 1) as nat);
    }
}

proof fn lemma_whole_number_text(v: i64)
    ensures
        value_text(int_text(v as int, 0)),
{
    let n: nat = (if v < 0 {
        -(v as int)
    } else {
        v as int
    }) as nat;
    let d = digits(n);
    lemma_digits(n);
    reveal_with_fuel(ten_to, 21);
    assert(ten_to(20) == 100000000000000000000);
    lemma_digits_len(n, 20);
    let none = Seq::<u8>::empty();
    assert(padded(d, 1) == d);
    assert(int_text(v as int, 0) =~= number_text(v < 0, d, none, None));
    assert(well_written(d, none, None));
}

/// Whether a value is one that a list can hold of a type and give back: of `BIGINT`, `VARCHAR` or
/// `BOOLEAN`, or NULL.
pub open spec fn listable(v: Val, ty: Ty) -> bool {
    match ty {
        Ty::BigInt => v is Null || v is I64,
        Ty::Varchar => v is Null || v is Bytes,
        Ty::Boolean => v is Null || v is Bool,
        _ => false,
    }
}

proof fn lemma_listable(v: Val, ty: Ty)
    requires
        listable(v, ty),
    ensures
        value_text(scalar_text(v, ty)),
        element(ty, scalar_text(v, ty)) == Ok::<Val, Code>(v),
{
    let t = scalar_text(v, ty);
    match v {
        Val::I64(x) => {
            lemma_whole_number_text(x);
            whole_numbers_are_read_back(x);
        },
        Val::Bytes(x) => {
            assert(t == json_string(x));
            strings_are_read_back(x);
        },
        Val::Bool(b) => {
            words_become_truth_values();
        },
        _ => {
            assert(t[0] == 110);
            assert(kind_of(at(t, 0)) == Kind::Null);
        },
    }
}

/// Taking apart a list that was collected gives back the values, NULLs among them: `UNNEST` of an
/// `ARRAY_AGG` of whole numbers, texts or truth values.
pub proof fn unnesting_undoes_collecting(vals: Seq<Val>, ty: Ty, k: int)
    requires
        forall|i: int| 0 <= i < vals.len() ==> listable(#[trigger] vals[i], ty),
        list_text(element_texts(vals, ty)).len() <= usize::MAX,
    ensures
        ({
            let s = list_text(element_texts(vals, ty));
            &&& elements_of(s) matches Ok(Some(es)) && es.len() == vals.len() && (0 <= k < vals.len() ==> elem_value(
                ty,
                s.subrange(es[k].start as int, es[k].end as int),
                es[k].kind,
            ) == Ok::<Val, Code>(vals[k]))
        }),
{
    let ts = element_texts(vals, ty);
    assert forall|i: int| 0 <= i < ts.len() implies value_text(#[trigger] ts[i]) by {
        assert(listable(vals[i], ty));
        lemma_listable(vals[i], ty);
        assert(ts[i] == scalar_text(vals[i], ty));
    }
    lists_are_split_into_their_elements(ts);
    if 0 <= k < vals.len() {
        assert(listable(vals[k], ty));
        lemma_listable(vals[k], ty);
        assert(ts[k] == scalar_text(vals[k], ty));
    }
}

/// The elements of a row's list from one on, and then what the rows behind it give.
proof fn lemma_pairs(ty: Ty, arr: Seq<Val>, r: int, vals: Seq<Val>, p: int)
    requires
        0 <= r < arr.len(),
        arr[r] == Val::Bytes(list_text(element_texts(vals, ty))),
        forall|i: int| 0 <= i < vals.len() ==> listable(#[trigger] vals[i], ty),
        list_text(element_texts(vals, ty)).len() <= usize::MAX,
        0 <= p <= vals.len(),
    ensures
        pairs_from(ty, arr, r, p) == vals.skip(p).map_values(|v: Val| (r, v)) + pairs_from(ty, arr, r + 1, 0),
    decreases vals.len() - p,
{
    unnesting_undoes_collecting(vals, ty, p);
    let own = vals.skip(p).map_values(|v: Val| (r, v));
    let rest = pairs_from(ty, arr, r + 1, 0);
    if p == vals.len() {
        assert(own + rest =~= rest);
    } else {
        lemma_pairs(ty, arr, r, vals, p + 1);
        let next = vals.skip(p + 1).map_values(|v: Val| (r, v));
        assert(own =~= seq![(r, vals[p])] + next);
        assert(seq![(r, vals[p])] + (next + rest) =~= own + rest);
    }
}

/// `UNNEST` repeats a row once for each value of its list, in the order of the list, and goes on
/// with the next row; a row whose list is empty, or which has NULL in its place, is not repeated.
pub proof fn rows_are_repeated_for_each_value(ty: Ty, arr: Seq<Val>, r: int, vals: Seq<Val>)
    requires
        0 <= r < arr.len(),
        arr[r] is Null && vals.len() == 0 || arr[r] == Val::Bytes(list_text(element_texts(vals, ty))),
        forall|i: int| 0 <= i < vals.len() ==> listable(#[trigger] vals[i], ty),
        list_text(element_texts(vals, ty)).len() <= usize::MAX,
    ensures
        pairs_from(ty, arr, r, 0) == vals.map_values(|v: Val| (r, v)) + pairs_from(ty, arr, r + 1, 0),
{
    if arr[r] is Null {
        assert(vals.map_values(|v: Val| (r, v)) + pairs_from(ty, arr, r + 1, 0) =~= pairs_from(ty, arr, r + 1, 0));
    } else {
        lemma_pairs(ty, arr, r, vals, 0);
        assert(vals.skip(0) =~= vals);
    }
}

} // verus!
