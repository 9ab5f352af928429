//! Three-way comparison.
//!
//! [`Order`] is the outcome of a comparison. The comparisons below are over
//! plain values: integers, byte strings (lexicographic, a prefix is smaller)
//! and floating-point numbers given by their IEEE-754 bit pattern.

use vstd::prelude::*;

verus! {

/// The outcome of comparing two values.
#[derive(Clone, Copy, PartialEq, Eq, Structural, Debug)]
pub enum Order {
    Less,
    Equal,
    Greater,
}

impl Order {
    pub open spec fn flipped(self) -> Order {
        match self {
            Order::Less => Order::Greater,
            Order::Equal => Order::Equal,
            Order::Greater => Order::Less,
        }
    }

    pub fn reverse(self) -> (r: Order)
        ensures
            r == self.flipped(),
    {
        match self {
            Order::Less => Order::Greater,
            Order::Equal => Order::Equal,
            Order::Greater => Order::Less,
        }
    }
}

pub open spec fn int_order(a: int, b: int) -> Order {
    if a < b {
        Order::Less
    } else if a > b {
        Order::Greater
    } else {
        Order::Equal
    }
}

pub open spec fn bool_rank(b: bool) -> int {
    if b { 1 } else { 0 }
}

/// Lexicographic order; on a common prefix the shorter string is smaller.
pub open spec fn bytes_order(a: Seq<u8>, b: Seq<u8>) -> Order
    decreases a.len(),
{
    if a.len() == 0 {
        if b.len() == 0 {
            Order::Equal
        } else {
            Order::Less
        }
    } else if b.len() == 0 {
        Order::Greater
    } else if a[0] != b[0] {
        int_order(a[0] as int, b[0] as int)
    } else {
        bytes_order(a.drop_first(), b.drop_first())
    }
}

pub fn order_i128(a: i128, b: i128) -> (r: Order)
    ensures
        r == int_order(a as int, b as int),
{
    if a < b {
        Order::Less
    } else if a > b {
        Order::Greater
    } else {
        Order::Equal
    }
}

pub fn order_u64(a: u64, b: u64) -> (r: Order)
    ensures
        r == int_order(a as int, b as int),
{
    if a < b {
        Order::Less
    } else if a > b {
        Order::Greater
    } else {
        Order::Equal
    }
}

pub fn order_bool(a: bool, b: bool) -> (r: Order)
    ensures
        r == int_order(bool_rank(a), bool_rank(b)),
{
    if a == b {
        Order::Equal
    } else if b {
        Order::Less
    } else {
        Order::Greater
    }
}

proof fn lemma_bytes_order_skip(a: Seq<u8>, b: Seq<u8>, k: int)
    requires
        0 <= k <= a.len(),
        k <= b.len(),
        forall|i: int| 0 <= i < k ==> a[i] == b[i],
    ensures
        bytes_order(a, b) == bytes_order(a.skip(k), b.skip(k)),
    decreases k,
{
    if k > 0 {
        lemma_bytes_order_skip(a.drop_first(), b.drop_first(), k - 1);
        assert(a.drop_first().skip(k - 1) =~= a.skip(k));
        assert(b.drop_first().skip(k - 1) =~= b.skip(k));
    } else {
        assert(a.skip(0) =~= a);
        assert(b.skip(0) =~= b);
    }
}

pub fn order_bytes(a: &[u8], b: &[u8]) -> (r: Order)
    ensures
        r == bytes_order(a@, b@),
{
    let mut i: usize = 0;
    while i < a.len() && i < b.len()
        invariant
            i <= a@.len(),
            i <= b@.len(),
            forall|j: int| 0 <= j < i ==> a@[j] == b@[j],
        decreases a@.len() - i,
    {
        if a[i] != b[i] {
            proof {
                lemma_bytes_order_skip(a@, b@, i as int);
            }
            return if a[i] < b[i] { Order::Less } else { Order::Greater };
        }
        i = i + 1;
    }
    proof {
        lemma_bytes_order_skip(a@, b@, i as int);
    }
    if i < b.len() {
        Order::Less
    } else if i < a.len() {
        Order::Greater
    } else {
        Order::Equal
    }
}

/// Comparing the other way round gives the flipped outcome, and only equal
/// byte strings compare equal.
pub proof fn bytes_order_flips(a: Seq<u8>, b: Seq<u8>)
    ensures
        bytes_order(b, a) == bytes_order(a, b).flipped(),
        bytes_order(a, b) == Order::Equal <==> a == b,
    decreases a.len(),
{
    if a.len() > 0 && b.len() > 0 && a[0] == b[0] {
        bytes_order_flips(a.drop_first(), b.drop_first());
        assert(a =~= seq![a[0]] + a.drop_first());
        assert(b =~= seq![b[0]] + b.drop_first());
    } else if a.len() == 0 && b.len() == 0 {
        assert(a =~= b);
    }
}

/// "Not greater" carries over three byte strings.
pub proof fn bytes_order_is_transitive(a: Seq<u8>, b: Seq<u8>, c: Seq<u8>)
    requires
        bytes_order(a, b) != Order::Greater,
        bytes_order(b, c) != Order::Greater,
    ensures
        bytes_order(a, c) != Order::Greater,
        bytes_order(a, b) == Order::Less || bytes_order(b, c) == Order::Less ==> bytes_order(a, c)
            == Order::Less,
    decreases a.len(),
{
    if a.len() > 0 && b.len() > 0 && c.len() > 0 && a[0] == b[0] && b[0] == c[0] {
        bytes_order_is_transitive(a.drop_first(), b.drop_first(), c.drop_first());
    }
}

// --- Floating-point bit patterns ----------------------------------------------

/// The bit pattern without its sign bit.
pub open spec fn f64_magnitude(bits: u64) -> int {
    if bits >= 0x8000_0000_0000_0000 {
        bits - 0x8000_0000_0000_0000
    } else {
        bits as int
    }
}

/// Whether a bit pattern is a NaN (of either sign).
pub open spec fn f64_is_nan(bits: u64) -> bool {
    f64_magnitude(bits) > 0x7ff0_0000_0000_0000
}

/// Where a bit pattern stands in the order
/// `-inf < ... < -0.0 = 0.0 < ... < +inf < NaN`; all NaNs stand together.
pub open spec fn f64_rank(bits: u64) -> u64 {
    if f64_is_nan(bits) {
        u64::MAX
    } else if f64_magnitude(bits) == 0 {
        0x8000_0000_0000_0000
    } else if bits >= 0x8000_0000_0000_0000 {
        (u64::MAX - bits) as u64
    } else {
        (bits + 0x8000_0000_0000_0000) as u64
    }
}

/// The representative of a bit pattern's equality class: one NaN, one zero.
pub open spec fn f64_canonical(bits: u64) -> u64 {
    if f64_is_nan(bits) {
        0x7ff8_0000_0000_0000
    } else if f64_magnitude(bits) == 0 {
        0
    } else {
        bits
    }
}

fn magnitude(bits: u64) -> (r: u64)
    ensures
        r == f64_magnitude(bits),
{
    if bits >= 0x8000_0000_0000_0000 {
        bits - 0x8000_0000_0000_0000
    } else {
        bits
    }
}

/// Maps a bit pattern to an integer that orders as the numbers do.
pub fn f64_key(bits: u64) -> (r: u64)
    ensures
        r == f64_rank(bits),
{
    let m: u64 = magnitude(bits);
    if m > 0x7ff0_0000_0000_0000 {
        u64::MAX
    } else if m == 0 {
        0x8000_0000_0000_0000
    } else if bits >= 0x8000_0000_0000_0000 {
        u64::MAX - bits
    } else {
        bits + 0x8000_0000_0000_0000
    }
}

/// Normalizes a bit pattern for use as a key: `-0.0` becomes `0.0`, and every
/// NaN becomes the same NaN.
pub fn canonical_f64(bits: u64) -> (r: u64)
    ensures
        r == f64_canonical(bits),
{
    let m: u64 = magnitude(bits);
    if m > 0x7ff0_0000_0000_0000 {
        0x7ff8_0000_0000_0000
    } else if m == 0 {
        0
    } else {
        bits
    }
}

/// The total order on numbers in which NaN is greater than everything else.
pub fn ord_f64(a: u64, b: u64) -> (r: Order)
    ensures
        r == int_order(f64_rank(a) as int, f64_rank(b) as int),
{
    order_u64(f64_key(a), f64_key(b))
}

/// Two numbers compare equal exactly when they normalize to the same key, so
/// grouping and comparing never disagree about zeros and NaNs.
pub proof fn f64_order_agrees_with_keys(a: u64, b: u64)
    ensures
        f64_rank(a) == f64_rank(b) <==> f64_canonical(a) == f64_canonical(b),
{
}

} // verus!
