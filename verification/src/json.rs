//! JSON text: the elements of an array, numbers and strings.
//!
//! Values are found in the text and read where they are needed; nothing is kept of a document.

use crate::error::{Code, Error};
use crate::exec::rowkey::f_pow10;
use crate::float::{f_negated, f_of_int, f_product, f_quotient, from_int, negate, over, times, F_ONE, F_TEN};
use vstd::prelude::*;

verus! {

/// The longest text of a number.
pub const MAX_NUMBER: u64 = 0x1000_0000_0000_0000;

/// How deep values may be nested.
pub const MAX_DEPTH: u32 = 128;

/// What a value is.
#[derive(Clone, Copy, PartialEq, Eq, Structural, Debug)]
pub enum Kind {
    Null,
    Bool,
    Num,
    Str,
    Arr,
    Obj,
}

// --- Where values end ---------------------------------------------------------------------

pub open spec fn is_space(b: u8) -> bool {
    b == 32 || b == 9 || b == 10 || b == 13
}

pub open spec fn is_digit(b: u8) -> bool {
    48 <= b <= 57
}

pub open spec fn is_hex(b: u8) -> bool {
    is_digit(b) || 97 <= b <= 102 || 65 <= b <= 70
}

/// The byte at a position, 0 after the end.
pub open spec fn at(s: Seq<u8>, i: int) -> u8 {
    if 0 <= i < s.len() {
        s[i]
    } else {
        0
    }
}

/// The first position that is not white space.
pub open spec fn after_space(s: Seq<u8>, i: int) -> int
    decreases s.len() - i,
{
    if 0 <= i < s.len() && is_space(s[i]) {
        after_space(s, i + 1)
    } else {
        i
    }
}

/// The first position that is not a digit.
pub open spec fn after_digits(s: Seq<u8>, i: int) -> int
    decreases s.len() - i,
{
    if 0 <= i < s.len() && is_digit(s[i]) {
        after_digits(s, i + 1)
    } else {
        i
    }
}

/// The position after a string whose opening quote is before `i`.
pub open spec fn string_end(s: Seq<u8>, i: int) -> Result<int, Code>
    decreases s.len() - i,
{
    if i < 0 || i >= s.len() {
        Err(Code::UnterminatedString)
    } else if s[i] == 34 {
        Ok(i + 1)
    } else if s[i] < 32 {
        Err(Code::SyntaxError)
    } else if s[i] == 92 {
        let c = at(s, i + 1);
        if c == 117 {
            if is_hex(at(s, i + 2)) && is_hex(at(s, i + 3)) && is_hex(at(s, i + 4)) && is_hex(at(s, i + 5)) {
                string_end(s, i + 6)
            } else {
                Err(Code::SyntaxError)
            }
        } else if c == 34 || c == 92 || c == 47 || c == 98 || c == 102 || c == 110 || c == 114 || c == 116 {
            string_end(s, i + 2)
        } else {
            Err(Code::SyntaxError)
        }
    } else {
        string_end(s, i + 1)
    }
}

/// The position after a number: a sign, digits, a fraction and an exponent.
pub open spec fn number_end(s: Seq<u8>, i: int) -> Result<int, Code> {
    let a = if at(s, i) == 45 {
        i + 1
    } else {
        i
    };
    if !is_digit(at(s, a)) {
        Err(Code::SyntaxError)
    } else {
        let b = if at(s, a) == 48 {
            a + 1
        } else {
            after_digits(s, a)
        };
        if at(s, b) == 46 && !is_digit(at(s, b + 1)) {
            Err(Code::SyntaxError)
        } else {
            let c = if at(s, b) == 46 {
                after_digits(s, b + 1)
            } else {
                b
            };
            if at(s, c) == 101 || at(s, c) == 69 {
                let d = if at(s, c + 1) == 43 || at(s, c + 1) == 45 {
                    c + 2
                } else {
                    c + 1
                };
                if !is_digit(at(s, d)) {
                    Err(Code::SyntaxError)
                } else {
                    Ok(after_digits(s, d))
                }
            } else {
                Ok(c)
            }
        }
    }
}

/// Whether a word stands at a position.
pub open spec fn word_at(s: Seq<u8>, i: int, w: Seq<u8>) -> bool {
    i + w.len() <= s.len() && s.subrange(i, i + w.len() as int) == w
}

pub open spec fn word_true() -> Seq<u8> {
    seq![116u8, 114u8, 117u8, 101u8]
}

pub open spec fn word_false() -> Seq<u8> {
    seq![102u8, 97u8, 108u8, 115u8, 101u8]
}

pub open spec fn word_null() -> Seq<u8> {
    seq![110u8, 117u8, 108u8, 108u8]
}

/// The position after a value that starts at `i`, nested at most `d` deep.
pub open spec fn value_end(s: Seq<u8>, i: int, d: nat) -> Result<int, Code>
    decreases d, s.len() - i, 0int,
{
    let b = at(s, i);
    if i < 0 || i >= s.len() {
        Err(Code::UnexpectedEof)
    } else if b == 34 {
        string_end(s, i + 1)
    } else if b == 91 {
        if d == 0 {
            Err(Code::NestingTooDeep)
        } else {
            let j = after_space(s, i + 1);
            if at(s, j) == 93 {
                Ok(j + 1)
            } else {
                items_end(s, j, (d - 1) as nat)
            }
        }
    } else if b == 123 {
        if d == 0 {
            Err(Code::NestingTooDeep)
        } else {
            let j = after_space(s, i + 1);
            if at(s, j) == 125 {
                Ok(j + 1)
            } else {
                members_end(s, j, (d - 1) as nat)
            }
        }
    } else if b == 116 {
        if word_at(s, i, word_true()) {
            Ok(i + 4)
        } else {
            Err(Code::SyntaxError)
        }
    } else if b == 102 {
        if word_at(s, i, word_false()) {
            Ok(i + 5)
        } else {
            Err(Code::SyntaxError)
        }
    } else if b == 110 {
        if word_at(s, i, word_null()) {
            Ok(i + 4)
        } else {
            Err(Code::SyntaxError)
        }
    } else {
        number_end(s, i)
    }
}

/// The position after an array whose next element starts at `i`.
pub open spec fn items_end(s: Seq<u8>, i: int, d: nat) -> Result<int, Code>
    decreases d, s.len() - i, 1int,
{
    match value_end(s, i, d) {
        Err(e) => Err(e),
        Ok(j) => {
            let k = after_space(s, j);
            if at(s, k) == 93 {
                Ok(k + 1)
            } else if at(s, k) != 44 {
                Err(Code::SyntaxError)
            } else {
                let n = after_space(s, k + 1);
                if n <= i || n > s.len() {
                    Err(Code::SyntaxError)
                } else {
                    items_end(s, n, d)
                }
            }
        },
    }
}

/// The position after an object whose next member starts at `i`.
pub open spec fn members_end(s: Seq<u8>, i: int, d: nat) -> Result<int, Code>
    decreases d, s.len() - i, 1int,
{
    if at(s, i) != 34 {
        Err(Code::SyntaxError)
    } else {
        match string_end(s, i + 1) {
            Err(e) => Err(e),
            Ok(q) => {
                let c = after_space(s, q);
                let v = after_space(s, c + 1);
                if at(s, c) != 58 || v <= i || v > s.len() {
                    Err(Code::SyntaxError)
                } else {
                    match value_end(s, v, d) {
                        Err(e) => Err(e),
                        Ok(j) => {
                            let k = after_space(s, j);
                            if at(s, k) == 125 {
                                Ok(k + 1)
                            } else if at(s, k) != 44 {
                                Err(Code::SyntaxError)
                            } else {
                                let n = after_space(s, k + 1);
                                if n <= i || n > s.len() {
                                    Err(Code::SyntaxError)
                                } else {
                                    members_end(s, n, d)
                                }
                            }
                        },
                    }
                }
            },
        }
    }
}

/// What the value that starts with a byte is.
pub open spec fn kind_of(b: u8) -> Kind {
    if b == 34 {
        Kind::Str
    } else if b == 91 {
        Kind::Arr
    } else if b == 123 {
        Kind::Obj
    } else if b == 116 || b == 102 {
        Kind::Bool
    } else if b == 110 {
        Kind::Null
    } else {
        Kind::Num
    }
}

/// An element of an array: where it is, and what it is.
#[derive(Clone, Copy, PartialEq, Eq, Structural, Debug)]
pub struct Elem {
    pub start: usize,
    pub end: usize,
    pub kind: Kind,
}

/// The elements of an array from the one that starts at `i`, behind those found before. The
/// text ends with the array.
pub open spec fn elements_from(s: Seq<u8>, i: int, found: Seq<Elem>) -> Result<Seq<Elem>, Code>
    decreases s.len() - i,
{
    match value_end(s, i, (MAX_DEPTH - 1) as nat) {
        Err(e) => Err(e),
        Ok(j) => {
            let more = found.push(Elem { start: i as usize, end: j as usize, kind: kind_of(at(s, i)) });
            let k = after_space(s, j);
            if at(s, k) == 93 {
                if after_space(s, k + 1) == s.len() {
                    Ok(more)
                } else {
                    Err(Code::SyntaxError)
                }
            } else if at(s, k) != 44 {
                Err(Code::SyntaxError)
            } else {
                let n = after_space(s, k + 1);
                if n <= i || n > s.len() {
                    Err(Code::SyntaxError)
                } else {
                    elements_from(s, n, more)
                }
            }
        },
    }
}

/// The elements of a document that is an array; `None` if it is another value.
pub open spec fn elements_of(s: Seq<u8>) -> Result<Option<Seq<Elem>>, Code> {
    let i = after_space(s, 0);
    if at(s, i) != 91 {
        Ok(None)
    } else {
        let j = after_space(s, i + 1);
        if at(s, j) == 93 {
            if after_space(s, j + 1) == s.len() {
                Ok(Some(Seq::empty()))
            } else {
                Err(Code::SyntaxError)
            }
        } else {
            match elements_from(s, j, Seq::empty()) {
                Err(e) => Err(e),
                Ok(v) => Ok(Some(v)),
            }
        }
    }
}

proof fn lemma_digits(s: Seq<u8>, i: int)
    requires
        0 <= i <= s.len(),
    ensures
        i <= after_digits(s, i) <= s.len(),
    decreases s.len() - i,
{
    if i < s.len() && is_digit(s[i]) {
        lemma_digits(s, i + 1);
    }
}

fn byte_at(s: &[u8], i: usize) -> (b: u8)
    ensures
        b == at(s@, i as int),
        b != 0 ==> i < s@.len() <= usize::MAX,
{
    if i < s.len() {
        s[i]
    } else {
        0
    }
}

fn skip_space(s: &[u8], i: usize) -> (r: usize)
    requires
        i <= s@.len(),
    ensures
        r == after_space(s@, i as int),
        i <= r <= s@.len(),
{
    let mut k: usize = i;
    while k < s.len() && (s[k] == 32 || s[k] == 9 || s[k] == 10 || s[k] == 13)
        invariant
            i <= k <= s@.len(),
            after_space(s@, k as int) == after_space(s@, i as int),
        decreases s@.len() - k,
    {
        k = k + 1;
    }
    k
}

fn digit(b: u8) -> (r: bool)
    ensures
        r == is_digit(b),
{
    b >= 48 && b <= 57
}

fn hex(b: u8) -> (r: bool)
    ensures
        r == is_hex(b),
{
    digit(b) || (b >= 97 && b <= 102) || (b >= 65 && b <= 70)
}

fn skip_digits(s: &[u8], i: usize) -> (r: usize)
    requires
        i <= s@.len(),
    ensures
        r == after_digits(s@, i as int),
        i <= r <= s@.len(),
{
    let mut k: usize = i;
    while k < s.len() && digit(s[k])
        invariant
            i <= k <= s@.len(),
            after_digits(s@, k as int) == after_digits(s@, i as int),
        decreases s@.len() - k,
    {
        k = k + 1;
    }
    k
}

fn skip_string(s: &[u8], i: usize) -> (r: Result<usize, Error>)
    requires
        i <= s@.len(),
    ensures
        match r {
            Ok(j) => string_end(s@, i as int) == Ok::<int, Code>(j as int) && i < j <= s@.len(),
            Err(e) => string_end(s@, i as int) == Err::<int, Code>(e.code),
        },
{
    let n: usize = s.len();
    let mut k: usize = i;
    while k < n
        invariant
            n == s@.len(),
            i <= k <= n,
            string_end(s@, k as int) == string_end(s@, i as int),
        decreases n - k,
    {
        let b: u8 = s[k];
        if b == 34 {
            return Ok(k + 1);
        }
        if b < 32 {
            return Err(Error::new(Code::SyntaxError));
        }
        if b == 92 {
            let c: u8 = byte_at(s, k + 1);
            if c == 117 {
                if n - k > 5 && hex(s[k + 2]) && hex(s[k + 3]) && hex(s[k + 4]) && hex(s[k + 5]) {
                    k = k + 6;
                } else {
                    return Err(Error::new(Code::SyntaxError));
                }
            } else if c == 34 || c == 92 || c == 47 || c == 98 || c == 102 || c == 110 || c == 114 || c == 116 {
                k = k + 2;
            } else {
                return Err(Error::new(Code::SyntaxError));
            }
        } else {
            k = k + 1;
        }
    }
    Err(Error::new(Code::UnterminatedString))
}

fn skip_number(s: &[u8], i: usize) -> (r: Result<usize, Error>)
    requires
        i < s@.len(),
    ensures
        match r {
            Ok(j) => number_end(s@, i as int) == Ok::<int, Code>(j as int) && i < j <= s@.len(),
            Err(e) => number_end(s@, i as int) == Err::<int, Code>(e.code),
        },
{
    let n: usize = s.len();
    let a: usize = if s[i] == 45 {
        i + 1
    } else {
        i
    };
    if a >= n || !digit(s[a]) {
        return Err(Error::new(Code::SyntaxError));
    }
    proof {
        lemma_digits(s@, a as int + 1);
    }
    let b: usize = if s[a] == 48 {
        a + 1
    } else {
        skip_digits(s, a)
    };
    assert(b > a);
    let mut c: usize = b;
    if b < n && s[b] == 46 {
        if b + 1 >= n || !digit(s[b + 1]) {
            return Err(Error::new(Code::SyntaxError));
        }
        c = skip_digits(s, b + 1);
    }
    if c < n && (s[c] == 101 || s[c] == 69) {
        let sign: u8 = byte_at(s, c + 1);
        if n - c <= 1 {
            return Err(Error::new(Code::SyntaxError));
        }
        let d: usize = if sign == 43 || sign == 45 {
            c + 2
        } else {
            c + 1
        };
        if d >= n || !digit(s[d]) {
            return Err(Error::new(Code::SyntaxError));
        }
        return Ok(skip_digits(s, d));
    }
    Ok(c)
}

fn is_word(s: &[u8], i: usize, w: &[u8]) -> (r: bool)
    requires
        i <= s@.len(),
    ensures
        r == word_at(s@, i as int, w@),
{
    let len: usize = s.len();
    if len - i < w.len() {
        return false;
    }
    let n: usize = w.len();
    let mut k: usize = 0;
    while k < n
        invariant
            k <= n,
            n == w@.len(),
            len == s@.len(),
            i + n <= len,
            forall|j: int| 0 <= j < k ==> s@[i + j] == w@[j],
        decreases n - k,
    {
        if s[i + k] != w[k] {
            assert(s@.subrange(i as int, i + n)[k as int] != w@[k as int]);
            return false;
        }
        k = k + 1;
    }
    assert(s@.subrange(i as int, i + n) =~= w@);
    true
}

/// Skips a value.
fn skip_value(s: &[u8], i: usize, d: u32) -> (r: Result<usize, Error>)
    requires
        i <= s@.len(),
    ensures
        match r {
            Ok(j) => value_end(s@, i as int, d as nat) == Ok::<int, Code>(j as int) && i < j <= s@.len(),
            Err(e) => value_end(s@, i as int, d as nat) == Err::<int, Code>(e.code),
        },
    decreases d, s@.len() - i, 0int,
{
    if i >= s.len() {
        return Err(Error::new(Code::UnexpectedEof));
    }
    let b: u8 = s[i];
    if b == 34 {
        return skip_string(s, i + 1);
    }
    if b == 91 || b == 123 {
        if d == 0 {
            return Err(Error::new(Code::NestingTooDeep));
        }
        let j: usize = skip_space(s, i + 1);
        let close: u8 = byte_at(s, j);
        if b == 91 {
            if close == 93 {
                return Ok(j + 1);
            }
            return skip_items(s, j, d - 1);
        }
        if close == 125 {
            return Ok(j + 1);
        }
        return skip_members(s, j, d - 1);
    }
    if b == 116 {
        let w: [u8; 4] = [116, 114, 117, 101];
        assert(w@ =~= word_true());
        return if is_word(s, i, w.as_slice()) {
            Ok(i + 4)
        } else {
            Err(Error::new(Code::SyntaxError))
        };
    }
    if b == 102 {
        let w: [u8; 5] = [102, 97, 108, 115, 101];
        assert(w@ =~= word_false());
        return if is_word(s, i, w.as_slice()) {
            Ok(i + 5)
        } else {
            Err(Error::new(Code::SyntaxError))
        };
    }
    if b == 110 {
        let w: [u8; 4] = [110, 117, 108, 108];
        assert(w@ =~= word_null());
        return if is_word(s, i, w.as_slice()) {
            Ok(i + 4)
        } else {
            Err(Error::new(Code::SyntaxError))
        };
    }
    skip_number(s, i)
}

fn skip_items(s: &[u8], i: usize, d: u32) -> (r: Result<usize, Error>)
    requires
        i <= s@.len(),
    ensures
        match r {
            Ok(j) => items_end(s@, i as int, d as nat) == Ok::<int, Code>(j as int) && i < j <= s@.len(),
            Err(e) => items_end(s@, i as int, d as nat) == Err::<int, Code>(e.code),
        },
    decreases d, s@.len() - i, 1int,
{
    let j: usize = match skip_value(s, i, d) {
        Ok(j) => j,
        Err(e) => {
            return Err(e);
        },
    };
    let k: usize = skip_space(s, j);
    let b: u8 = byte_at(s, k);
    if b == 93 {
        return Ok(k + 1);
    }
    if b != 44 {
        return Err(Error::new(Code::SyntaxError));
    }
    let n: usize = skip_space(s, k + 1);
    skip_items(s, n, d)
}

fn skip_members(s: &[u8], i: usize, d: u32) -> (r: Result<usize, Error>)
    requires
        i <= s@.len(),
    ensures
        match r {
            Ok(j) => members_end(s@, i as int, d as nat) == Ok::<int, Code>(j as int) && i < j <= s@.len(),
            Err(e) => members_end(s@, i as int, d as nat) == Err::<int, Code>(e.code),
        },
    decreases d, s@.len() - i, 1int,
{
    if byte_at(s, i) != 34 {
        return Err(Error::new(Code::SyntaxError));
    }
    let q: usize = match skip_string(s, i + 1) {
        Ok(q) => q,
        Err(e) => {
            return Err(e);
        },
    };
    let c: usize = skip_space(s, q);
    if byte_at(s, c) != 58 {
        return Err(Error::new(Code::SyntaxError));
    }
    let v: usize = skip_space(s, c + 1);
    let j: usize = match skip_value(s, v, d) {
        Ok(j) => j,
        Err(e) => {
            return Err(e);
        },
    };
    let k: usize = skip_space(s, j);
    let b: u8 = byte_at(s, k);
    if b == 125 {
        return Ok(k + 1);
    }
    if b != 44 {
        return Err(Error::new(Code::SyntaxError));
    }
    let n: usize = skip_space(s, k + 1);
    skip_members(s, n, d)
}

fn kind(b: u8) -> (k: Kind)
    ensures
        k == kind_of(b),
{
    if b == 34 {
        Kind::Str
    } else if b == 91 {
        Kind::Arr
    } else if b == 123 {
        Kind::Obj
    } else if b == 116 || b == 102 {
        Kind::Bool
    } else if b == 110 {
        Kind::Null
    } else {
        Kind::Num
    }
}

/// The elements of a document that is an array; `None` if it is another value.
pub fn array_elements(s: &[u8]) -> (r: Result<Option<Vec<Elem>>, Error>)
    ensures
        match r {
            Ok(Some(v)) => {
                &&& elements_of(s@) == Ok::<Option<Seq<Elem>>, Code>(Some(v@))
                &&& forall|k: int| 0 <= k < v@.len() ==> (#[trigger] v@[k]).start < v@[k].end <= s@.len()
            },
            Ok(None) => elements_of(s@) == Ok::<Option<Seq<Elem>>, Code>(None),
            Err(e) => elements_of(s@) == Err::<Option<Seq<Elem>>, Code>(e.code),
        },
{
    let i: usize = skip_space(s, 0);
    if byte_at(s, i) != 91 {
        return Ok(None);
    }
    let j: usize = skip_space(s, i + 1);
    let mut found: Vec<Elem> = Vec::new();
    if byte_at(s, j) == 93 {
        let end: usize = skip_space(s, j + 1);
        if end == s.len() {
            assert(found@ =~= Seq::empty());
            return Ok(Some(found));
        }
        return Err(Error::new(Code::SyntaxError));
    }
    let mut here: usize = j;
    assert(found@ =~= Seq::empty());
    loop
        invariant
            here <= s@.len(),
            elements_from(s@, here as int, found@) == elements_from(s@, j as int, Seq::empty()),
            elements_of(s@) == match elements_from(s@, j as int, Seq::empty()) {
                Err(e) => Err(e),
                Ok(v) => Ok(Some(v)),
            },
            forall|k: int| 0 <= k < found@.len() ==> (#[trigger] found@[k]).start < found@[k].end <= s@.len(),
        decreases s@.len() - here,
    {
        let e: usize = match skip_value(s, here, MAX_DEPTH - 1) {
            Ok(e) => e,
            Err(x) => {
                return Err(x);
            },
        };
        found.push(Elem { start: here, end: e, kind: kind(byte_at(s, here)) });
        let k: usize = skip_space(s, e);
        let b: u8 = byte_at(s, k);
        if b == 93 {
            let end: usize = skip_space(s, k + 1);
            if end == s.len() {
                return Ok(Some(found));
            }
            return Err(Error::new(Code::SyntaxError));
        }
        if b != 44 {
            return Err(Error::new(Code::SyntaxError));
        }
        here = skip_space(s, k + 1);
    }
}

// --- Numbers ------------------------------------------------------------------------------

/// The number that digits stand for.
pub open spec fn digits_value(s: Seq<u8>) -> nat
    decreases s.len(),
{
    if s.len() == 0 {
        0
    } else {
        digits_value(s.drop_last()) * 10 + (s.last() - 48) as nat
    }
}

pub open spec fn all_digits(s: Seq<u8>) -> bool {
    forall|i: int| 0 <= i < s.len() ==> is_digit(#[trigger] s[i])
}

/// A whole number: digits, with a minus sign or without.
pub open spec fn whole_value(s: Seq<u8>) -> Option<int> {
    let neg = s.len() > 0 && s[0] == 45;
    let d = if neg {
        s.skip(1)
    } else {
        s
    };
    if d.len() == 0 || !all_digits(d) {
        None
    } else if neg {
        Some(-(digits_value(d) as int))
    } else {
        Some(digits_value(d) as int)
    }
}

/// The whole number that a text stands for, if it is one and an `i64`.
pub fn parse_i64(s: &[u8]) -> (r: Option<i64>)
    ensures
        r == match whole_value(s@) {
            None => None,
            Some(v) => if i64::MIN <= v <= i64::MAX {
                Some(v as i64)
            } else {
                None
            },
        },
{
    let n: usize = s.len();
    let neg: bool = n > 0 && s[0] == 45;
    let start: usize = if neg {
        1
    } else {
        0
    };
    let ghost d = if neg {
        s@.skip(1)
    } else {
        s@
    };
    if start >= n {
        return None;
    }
    assert(d.len() == n - start);
    let mut v: u128 = 0;
    let mut big: bool = false;
    let mut i: usize = start;
    assert(d.take(0) =~= Seq::empty());
    while i < n
        invariant
            start <= i <= n,
            n == s@.len(),
            neg == (n > 0 && s@[0] == 45),
            start == if neg {
                1int
            } else {
                0int
            },
            d == if neg {
                s@.skip(1)
            } else {
                s@
            },
            d.len() == n - start,
            forall|j: int| 0 <= j < i - start ==> is_digit(#[trigger] d[j]),
            !big ==> v == digits_value(d.take(i - start)) && v <= 0x1_0000_0000_0000_0000,
            big ==> digits_value(d.take(i - start)) > 0x1_0000_0000_0000_0000,
        decreases n - i,
    {
        let b: u8 = s[i];
        let ghost k = i - start;
        assert(b == d[k]);
        if !digit(b) {
            assert(!all_digits(d));
            return None;
        }
        proof {
            assert(d.take(k + 1).drop_last() =~= d.take(k));
        }
        if !big {
            v = v * 10 + (b - 48) as u128;
            if v > 0x1_0000_0000_0000_0000 {
                big = true;
            }
        }
        i = i + 1;
    }
    assert(d.take(n - start) =~= d);
    assert(all_digits(d));
    if big {
        return None;
    }
    if neg {
        if v > 0x8000_0000_0000_0000 {
            return None;
        }
        let w: i128 = -(v as i128);
        Some(w as i64)
    } else {
        if v > 0x7fff_ffff_ffff_ffff {
            return None;
        }
        Some(v as i64)
    }
}

/// How many digits of a number count.
pub const MAX_DIGITS: usize = 36;

/// The largest power of ten that matters to a double.
pub const MAX_POWER: u32 = 400;

/// A number taken apart: the first digits as a whole number, and the power of ten to
/// multiply it by.
#[verifier::ext_equal]
pub struct DecimalV {
    pub digits: nat,
    /// How many digits have been taken.
    pub taken: nat,
    pub power: int,
}

/// The digits from `i` on, up to the first other byte. Those behind the point lower the power
/// of ten; those that do not count raise it.
pub open spec fn take_digits(s: Seq<u8>, i: int, frac: bool, x: DecimalV) -> DecimalV
    decreases s.len() - i,
{
    if 0 <= i < s.len() && is_digit(s[i]) {
        let next = if x.taken < MAX_DIGITS {
            DecimalV {
                digits: x.digits * 10 + (s[i] - 48) as nat,
                taken: x.taken + 1,
                power: if frac {
                    x.power - 1
                } else {
                    x.power
                },
            }
        } else {
            DecimalV {
                power: if frac {
                    x.power
                } else {
                    x.power + 1
                },
                ..x
            }
        };
        take_digits(s, i + 1, frac, next)
    } else {
        x
    }
}

/// An exponent; it stops counting where it no longer matters.
pub open spec fn exponent_from(s: Seq<u8>, i: int, v: int) -> int
    decreases s.len() - i,
{
    if 0 <= i < s.len() && is_digit(s[i]) {
        exponent_from(
            s,
            i + 1,
            if v > 100_000 {
                v
            } else {
                v * 10 + (s[i] - 48)
            },
        )
    } else {
        v
    }
}

/// A power of ten, no larger than matters.
pub open spec fn power_of(p: int) -> nat {
    if p > MAX_POWER {
        MAX_POWER as nat
    } else {
        p as nat
    }
}

/// The double that a number stands for: its digits, multiplied or divided by a power of ten.
pub open spec fn number_value(s: Seq<u8>) -> u64 {
    let neg = at(s, 0) == 45;
    let a = if neg {
        1int
    } else {
        0int
    };
    let b = after_digits(s, a);
    let whole = take_digits(s, a, false, DecimalV { digits: 0, taken: 0, power: 0 });
    let c = if at(s, b) == 46 {
        after_digits(s, b + 1)
    } else {
        b
    };
    let all = if at(s, b) == 46 {
        take_digits(s, b + 1, true, whole)
    } else {
        whole
    };
    let down = at(s, c + 1) == 45;
    let d = if down || at(s, c + 1) == 43 {
        c + 2
    } else {
        c + 1
    };
    let e = if at(s, c) == 101 || at(s, c) == 69 {
        if down {
            -exponent_from(s, d, 0)
        } else {
            exponent_from(s, d, 0)
        }
    } else {
        0
    };
    let p = all.power + e;
    let m = f_of_int(all.digits as int);
    let v = if p >= 0 {
        f_product(m, f_pow10(power_of(p)))
    } else {
        f_quotient(m, f_pow10(power_of(-p)))
    };
    if neg {
        f_negated(v)
    } else {
        v
    }
}

struct Decimal {
    digits: u128,
    taken: usize,
    power: i64,
}

fn more_digits(s: &[u8], i: usize, frac: bool, x: Decimal, Ghost(start): Ghost<DecimalV>) -> (r: Decimal)
    requires
        i <= s@.len(),
        x.digits == start.digits && x.taken == start.taken && x.power == start.power,
        x.taken <= MAX_DIGITS,
        x.digits < pow10_int(x.taken as nat),
        -0x1_0000_0000_0000 <= x.power <= 0x1_0000_0000_0000_0000,
        -0x4000_0000_0000_0000 <= x.power - 36 && x.power + s@.len() - i <= 0x4000_0000_0000_0000,
    ensures
        ({
            let v = take_digits(s@, i as int, frac, start);
            r.digits == v.digits && r.taken == v.taken && r.power == v.power
        }),
        r.taken <= MAX_DIGITS,
        r.digits < pow10_int(r.taken as nat),
        x.power - (r.taken - x.taken) <= r.power <= x.power + after_digits(s@, i as int) - i,
{
    let n: usize = s.len();
    let mut k: usize = i;
    let mut y: Decimal = x;
    let ghost mut g = start;
    while k < n && digit(s[k])
        invariant
            n == s@.len(),
            i <= k <= n,
            y.digits == g.digits && y.taken == g.taken && y.power == g.power,
            take_digits(s@, k as int, frac, g) == take_digits(s@, i as int, frac, start),
            after_digits(s@, k as int) == after_digits(s@, i as int),
            x.taken <= y.taken <= MAX_DIGITS,
            y.digits < pow10_int(y.taken as nat),
            x.power - (y.taken - x.taken) <= y.power <= x.power + k - i,
            -0x4000_0000_0000_0000 <= x.power - 36 && x.power + s@.len() - i <= 0x4000_0000_0000_0000,
        decreases n - k,
    {
        let b: u8 = s[k];
        if y.taken < MAX_DIGITS {
            proof {
                lemma_pow10_int(y.taken as nat);
            }
            let digits: u128 = y.digits * 10 + (b - 48) as u128;
            let power: i64 = if frac {
                y.power - 1
            } else {
                y.power
            };
            y = Decimal { digits, taken: y.taken + 1, power };
        } else {
            let power: i64 = if frac {
                y.power
            } else {
                y.power + 1
            };
            y = Decimal { digits: y.digits, taken: y.taken, power };
        }
        proof {
            g = DecimalV { digits: y.digits as nat, taken: y.taken as nat, power: y.power as int };
        }
        k = k + 1;
    }
    y
}

spec fn pow10_int(n: nat) -> nat
    decreases n,
{
    if n == 0 {
        1
    } else {
        pow10_int((n - 1) as nat) * 10
    }
}

proof fn lemma_pow10_int(n: nat)
    requires
        n < 36,
    ensures
        pow10_int(n + 1) == pow10_int(n) * 10,
        pow10_int(n) <= 100_000_000_000_000_000_000_000_000_000_000_000,
{
    lemma_pow10_grows(n, 35);
    assert(pow10_int(35) == 100_000_000_000_000_000_000_000_000_000_000_000) by {
        reveal_with_fuel(pow10_int, 36);
    }
}

proof fn lemma_pow10_grows(a: nat, b: nat)
    requires
        a <= b,
    ensures
        pow10_int(a) <= pow10_int(b),
    decreases b,
{
    if a < b {
        lemma_pow10_grows(a, (b - 1) as nat);
    }
}

fn power_of_ten(k: u32) -> (r: u64)
    ensures
        r == f_pow10(k as nat),
{
    let mut r: u64 = F_ONE;
    let mut i: u32 = 0;
    while i < k
        invariant
            i <= k,
            r == f_pow10(i as nat),
        decreases k - i,
    {
        r = times(r, F_TEN);
        i = i + 1;
    }
    r
}

fn exponent(s: &[u8], i: usize) -> (r: i64)
    requires
        i <= s@.len(),
    ensures
        r == exponent_from(s@, i as int, 0),
        0 <= r <= 1_000_010,
{
    let n: usize = s.len();
    let mut k: usize = i;
    let mut v: i64 = 0;
    while k < n && digit(s[k])
        invariant
            n == s@.len(),
            i <= k <= n,
            0 <= v <= 1_000_010,
            exponent_from(s@, k as int, v as int) == exponent_from(s@, i as int, 0),
        decreases n - k,
    {
        if v <= 100_000 {
            v = v * 10 + (s[k] - 48) as i64;
        }
        k = k + 1;
    }
    v
}

/// The double that a number stands for; `None` if the text is too long to be one.
pub fn parse_f64(s: &[u8]) -> (r: Option<u64>)
    ensures
        r == if s@.len() <= MAX_NUMBER {
            Some(number_value(s@))
        } else {
            None
        },
{
    let n: usize = s.len();
    if n as u64 > MAX_NUMBER {
        return None;
    }
    let neg: bool = byte_at(s, 0) == 45;
    let a: usize = if neg {
        1
    } else {
        0
    };
    let start = Decimal { digits: 0, taken: 0, power: 0 };
    proof {
        lemma_digits(s@, a as int);
    }
    let b: usize = skip_digits(s, a);
    let ghost x0 = DecimalV { digits: 0, taken: 0, power: 0 };
    let whole = more_digits(s, a, false, start, Ghost(x0));
    let ghost x1 = take_digits(s@, a as int, false, x0);
    let mut c: usize = b;
    let mut all = Decimal { digits: whole.digits, taken: whole.taken, power: whole.power };
    if byte_at(s, b) == 46 {
        c = skip_digits(s, b + 1);
        all = more_digits(s, b + 1, true, whole, Ghost(x1));
    }
    let mut e: i64 = 0;
    let mark: u8 = byte_at(s, c);
    if mark == 101 || mark == 69 {
        let sign: u8 = byte_at(s, c + 1);
        let down: bool = sign == 45;
        let d: usize = if down || sign == 43 {
            c + 2
        } else {
            c + 1
        };
        let x: i64 = exponent(s, d);
        e = if down {
            -x
        } else {
            x
        };
    }
    let p: i64 = all.power + e;
    proof {
        lemma_pow10_grows(all.taken as nat, 36);
        lemma_pow10_int(35);
    }
    let m: u64 = from_int(all.digits as i128);
    let v: u64 = if p >= 0 {
        let k: u32 = if p > MAX_POWER as i64 {
            MAX_POWER
        } else {
            p as u32
        };
        times(m, power_of_ten(k))
    } else {
        let k: u32 = if -p > MAX_POWER as i64 {
            MAX_POWER
        } else {
            (-p) as u32
        };
        over(m, power_of_ten(k))
    };
    if neg {
        Some(negate(v))
    } else {
        Some(v)
    }
}

// --- Strings ------------------------------------------------------------------------------

/// The value of a hexadecimal digit.
pub open spec fn hex_value(b: u8) -> nat {
    if is_digit(b) {
        (b - 48) as nat
    } else if 97 <= b <= 102 {
        (b - 87) as nat
    } else {
        (b - 55) as nat
    }
}

/// The four digits of a `\u` escape.
pub open spec fn unit_at(s: Seq<u8>, i: int) -> nat {
    hex_value(at(s, i)) * 4096 + hex_value(at(s, i + 1)) * 256 + hex_value(at(s, i + 2)) * 16 + hex_value(at(s, i + 3))
}

pub open spec fn hex4(s: Seq<u8>, i: int) -> bool {
    is_hex(at(s, i)) && is_hex(at(s, i + 1)) && is_hex(at(s, i + 2)) && is_hex(at(s, i + 3))
}

/// A character in UTF-8.
pub open spec fn utf8(c: nat) -> Seq<u8> {
    if c < 0x80 {
        seq![c as u8]
    } else if c < 0x800 {
        seq![(0xc0 + c / 64) as u8, (0x80 + c % 64) as u8]
    } else if c < 0x10000 {
        seq![(0xe0 + c / 4096) as u8, (0x80 + c / 64 % 64) as u8, (0x80 + c % 64) as u8]
    } else {
        seq![
            (0xf0 + c / 262144) as u8,
            (0x80 + c / 4096 % 64) as u8,
            (0x80 + c / 64 % 64) as u8,
            (0x80 + c % 64) as u8,
        ]
    }
}

/// Whether a second half of a surrogate pair is escaped at a position.
pub open spec fn low_half(s: Seq<u8>, i: int) -> bool {
    at(s, i) == 92 && at(s, i + 1) == 117 && hex4(s, i + 2) && 0xdc00 <= unit_at(s, i + 2) < 0xe000
}

/// What one escape letter stands for.
pub open spec fn unescaped(c: u8) -> Option<u8> {
    if c == 34 || c == 92 || c == 47 {
        Some(c)
    } else if c == 98 {
        Some(8)
    } else if c == 102 {
        Some(12)
    } else if c == 110 {
        Some(10)
    } else if c == 114 {
        Some(13)
    } else if c == 116 {
        Some(9)
    } else {
        None
    }
}

/// The inside of a string from `i` on, decoded, behind what was decoded before. Half a
/// surrogate pair stands for the replacement character.
pub open spec fn decoded_from(s: Seq<u8>, i: int, out: Seq<u8>) -> Result<Seq<u8>, Code>
    decreases s.len() - i,
{
    if i < 0 || i >= s.len() {
        Ok(out)
    } else if s[i] != 92 {
        decoded_from(s, i + 1, out.push(s[i]))
    } else if at(s, i + 1) == 117 {
        if !hex4(s, i + 2) {
            Err(Code::SyntaxError)
        } else {
            let u = unit_at(s, i + 2);
            if 0xd800 <= u < 0xdc00 && low_half(s, i + 6) {
                decoded_from(s, i + 12, out + utf8((0x10000 + (u - 0xd800) * 1024 + (unit_at(s, i + 8) - 0xdc00)) as nat))
            } else if 0xd800 <= u < 0xe000 {
                decoded_from(s, i + 6, out + utf8(0xfffd))
            } else {
                decoded_from(s, i + 6, out + utf8(u))
            }
        }
    } else {
        match unescaped(at(s, i + 1)) {
            Some(c) => decoded_from(s, i + 2, out.push(c)),
            None => Err(Code::SyntaxError),
        }
    }
}

fn hex_digit(b: u8) -> (r: u32)
    requires
        is_hex(b),
    ensures
        r == hex_value(b),
        r < 16,
{
    if digit(b) {
        (b - 48) as u32
    } else if b >= 97 {
        (b - 87) as u32
    } else {
        (b - 55) as u32
    }
}

fn unit(s: &[u8], i: usize) -> (r: Option<u32>)
    requires
        i <= s@.len(),
    ensures
        match r {
            Some(u) => hex4(s@, i as int) && u == unit_at(s@, i as int) && u < 0x10000 && i + 4 <= s@.len(),
            None => !hex4(s@, i as int),
        },
{
    let n: usize = s.len();
    if n - i < 4 {
        assert(at(s@, i + 3) == 0);
        return None;
    }
    if !hex(s[i]) || !hex(s[i + 1]) || !hex(s[i + 2]) || !hex(s[i + 3]) {
        return None;
    }
    Some(hex_digit(s[i]) * 4096 + hex_digit(s[i + 1]) * 256 + hex_digit(s[i + 2]) * 16 + hex_digit(s[i + 3]))
}

fn push_utf8(out: &mut Vec<u8>, c: u32)
    requires
        c < 0x110000,
    ensures
        final(out)@ == old(out)@ + utf8(c as nat),
{
    let ghost start = out@;
    if c < 0x80 {
        out.push(c as u8);
    } else if c < 0x800 {
        out.push((0xc0 + c / 64) as u8);
        out.push((0x80 + c % 64) as u8);
    } else if c < 0x10000 {
        out.push((0xe0 + c / 4096) as u8);
        out.push((0x80 + c / 64 % 64) as u8);
        out.push((0x80 + c % 64) as u8);
    } else {
        out.push((0xf0 + c / 262144) as u8);
        out.push((0x80 + c / 4096 % 64) as u8);
        out.push((0x80 + c / 64 % 64) as u8);
        out.push((0x80 + c % 64) as u8);
    }
    assert(out@ =~= start + utf8(c as nat));
}

/// Decodes the inside of a string.
pub fn decode_string(s: &[u8]) -> (r: Result<Vec<u8>, Error>)
    ensures
        match r {
            Ok(v) => decoded_from(s@, 0, Seq::empty()) == Ok::<Seq<u8>, Code>(v@),
            Err(e) => decoded_from(s@, 0, Seq::empty()) == Err::<Seq<u8>, Code>(e.code),
        },
{
    let n: usize = s.len();
    let mut out: Vec<u8> = Vec::new();
    let mut i: usize = 0;
    assert(out@ =~= Seq::empty());
    while i < n
        invariant
            n == s@.len(),
            i <= n,
            decoded_from(s@, i as int, out@) == decoded_from(s@, 0, Seq::empty()),
        decreases n - i,
    {
        let b: u8 = s[i];
        if b != 92 {
            out.push(b);
            i = i + 1;
            continue;
        }
        let c: u8 = byte_at(s, i + 1);
        if c == 117 {
            let u: u32 = match unit(s, i + 2) {
                Some(u) => u,
                None => {
                    return Err(Error::new(Code::SyntaxError));
                },
            };
            let mut low: Option<u32> = None;
            if u >= 0xd800 && u < 0xdc00 && n - i > 7 && s[i + 6] == 92 && s[i + 7] == 117 {
                low = match unit(s, i + 8) {
                    Some(v) => if v >= 0xdc00 && v < 0xe000 {
                        Some(v)
                    } else {
                        None
                    },
                    None => None,
                };
            }
            assert(low is Some <==> 0xd800 <= u < 0xdc00 && low_half(s@, i + 6));
            match low {
                Some(v) => {
                    push_utf8(&mut out, 0x10000 + (u - 0xd800) * 1024 + (v - 0xdc00));
                    i = i + 12;
                },
                None => {
                    if u >= 0xd800 && u < 0xe000 {
                        push_utf8(&mut out, 0xfffd);
                    } else {
                        push_utf8(&mut out, u);
                    }
                    i = i + 6;
                },
            }
        } else {
            let x: u8 = if c == 34 || c == 92 || c == 47 {
                c
            } else if c == 98 {
                8
            } else if c == 102 {
                12
            } else if c == 110 {
                10
            } else if c == 114 {
                13
            } else if c == 116 {
                9
            } else {
                return Err(Error::new(Code::SyntaxError));
            };
            out.push(x);
            i = i + 2;
        }
    }
    Ok(out)
}

} // verus!
