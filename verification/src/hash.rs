//! Byte-string helpers: ASCII case folding and hashing.

use vstd::prelude::*;

verus! {

/// An ASCII letter in lower case; any other byte is left alone.
pub open spec fn fold_ascii(b: u8) -> u8 {
    if 65 <= b <= 90 {
        (b + 32) as u8
    } else {
        b
    }
}

/// Equality of names: ASCII letters compare without regard to case.
pub open spec fn same_name(a: Seq<u8>, b: Seq<u8>) -> bool {
    &&& a.len() == b.len()
    &&& forall|i: int| 0 <= i < a.len() ==> fold_ascii(#[trigger] a[i]) == fold_ascii(b[i])
}

fn fold_byte(b: u8) -> (r: u8)
    ensures
        r == fold_ascii(b),
{
    if b >= 65 && b <= 90 {
        b + 32
    } else {
        b
    }
}

/// Compares two names ignoring ASCII case.
pub fn eq_ascii_ci(a: &[u8], b: &[u8]) -> (r: bool)
    ensures
        r == same_name(a@, b@),
{
    if a.len() != b.len() {
        return false;
    }
    let mut i: usize = 0;
    while i < a.len()
        invariant
            i <= a@.len(),
            a@.len() == b@.len(),
            forall|j: int| 0 <= j < i ==> fold_ascii(#[trigger] a@[j]) == fold_ascii(b@[j]),
        decreases a@.len() - i,
    {
        if fold_byte(a[i]) != fold_byte(b[i]) {
            assert(fold_ascii(a@[i as int]) != fold_ascii(b@[i as int]));
            return false;
        }
        i = i + 1;
    }
    true
}

/// Whether two byte strings are the same.
pub fn eq_bytes(a: &[u8], b: &[u8]) -> (r: bool)
    ensures
        r == (a@ == b@),
{
    if a.len() != b.len() {
        return false;
    }
    let mut i: usize = 0;
    while i < a.len()
        invariant
            i <= a@.len(),
            a@.len() == b@.len(),
            forall|j: int| 0 <= j < i ==> a@[j] == b@[j],
        decreases a@.len() - i,
    {
        if a[i] != b[i] {
            return false;
        }
        i = i + 1;
    }
    assert(a@ =~= b@);
    true
}

/// The hash of a byte string: a multiplicative fold over its bytes.
pub open spec fn hash_of(s: Seq<u8>) -> u64
    decreases s.len(),
{
    if s.len() == 0 {
        0xcbf2_9ce4_8422_2325
    } else {
        let mixed: u64 = hash_of(s.drop_last()) ^ (s.last() as u64);
        vstd::wrapping::u64_specs::wrapping_mul(mixed, 0x0000_0100_0000_01b3)
    }
}

pub fn hash_bytes(key: &[u8]) -> (h: u64)
    ensures
        h == hash_of(key@),
{
    let mut h: u64 = 0xcbf2_9ce4_8422_2325;
    let mut i: usize = 0;
    assert(key@.take(0).len() == 0);
    while i < key.len()
        invariant
            i <= key@.len(),
            h == hash_of(key@.take(i as int)),
        decreases key@.len() - i,
    {
        let mixed: u64 = h ^ (key[i] as u64);
        h = mixed.wrapping_mul(0x0000_0100_0000_01b3);
        i = i + 1;
        assert(key@.take(i as int).drop_last() =~= key@.take(i as int - 1));
    }
    assert(key@.take(i as int) =~= key@);
    h
}

/// Spreads a hash over its low bits, which choose the bucket.
pub open spec fn spread_of(h: u64) -> u64 {
    h ^ (h >> 32)
}

pub fn hash_u64(h: u64) -> (r: u64)
    ensures
        r == spread_of(h),
{
    h ^ (h >> 32)
}

/// Two names that differ only in case are the same name, in either order, and
/// being the same name carries over.
pub proof fn same_name_is_an_equivalence(a: Seq<u8>, b: Seq<u8>, c: Seq<u8>)
    ensures
        same_name(a, a),
        same_name(a, b) ==> same_name(b, a),
        same_name(a, b) && same_name(b, c) ==> same_name(a, c),
{
    if same_name(a, b) {
        assert forall|i: int| 0 <= i < b.len() implies fold_ascii(#[trigger] b[i]) == fold_ascii(a[i]) by {
            assert(fold_ascii(a[i]) == fold_ascii(b[i]));
        }
        if same_name(b, c) {
            assert forall|i: int| 0 <= i < a.len() implies fold_ascii(#[trigger] a[i]) == fold_ascii(c[i]) by {
                assert(fold_ascii(b[i]) == fold_ascii(c[i]));
            }
        }
    }
}

/// Appends a byte string.
pub fn put_bytes(out: &mut Vec<u8>, s: &[u8])
    ensures
        final(out)@ == old(out)@ + s@,
{
    out.extend_from_slice(s);
    assert(out@ =~= old(out)@ + s@);
}

/// A copy of a byte string.
pub fn copy_bytes(s: &[u8]) -> (r: Vec<u8>)
    ensures
        r@ == s@,
{
    let mut r: Vec<u8> = Vec::new();
    put_bytes(&mut r, s);
    assert(r@ =~= s@);
    r
}

} // verus!
