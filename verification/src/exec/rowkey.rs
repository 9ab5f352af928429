//! Row keys and the hash index.
//!
//! Aggregation, set operations and joins all look rows up by a key made of
//! several columns' values. The key encoding decides when two rows belong to the
//! same group, so there is one of it: [`encode_key`]. Keys carry equality only;
//! they do not order.

use crate::expr::ColV;
use crate::float::{f_product, times, F_ONE, F_TEN};
use crate::hash::{eq_bytes, hash_bytes, hash_of, hash_u64, put_bytes, spread_of};
use crate::order::{canonical_f64, f64_canonical, Order};
use crate::vector::{
    cols_wf, interval_key, interval_span, row_at, val_order, Ty, Val, Value, Vector,
};
use vstd::bytes::{
    spec_u128_to_le_bytes, spec_u32_to_le_bytes, spec_u64_to_le_bytes, u128_to_le_bytes,
    u32_to_le_bytes, u64_to_le_bytes,
};
use vstd::prelude::*;

verus! {

// --- Key encoding ----------------------------------------------------------------

/// The key of one cell: a presence flag, then the value. NULL is the flag alone.
/// Numbers are normalized first, so that equal numbers and equal intervals have
/// equal keys; a byte string is preceded by its length.
pub open spec fn cell_key(v: Val, ty: Ty) -> Seq<u8> {
    match v {
        Val::Null => seq![0u8],
        Val::Bool(b) => seq![1u8, if b { 1u8 } else { 0u8 }],
        Val::I32(x) => seq![1u8] + spec_u32_to_le_bytes(x as u32),
        Val::I64(x) => seq![1u8] + spec_u64_to_le_bytes(x as u64),
        Val::I128(x) => seq![1u8] + spec_u128_to_le_bytes(
            (if ty == Ty::Interval { interval_span(x) as i128 } else { x }) as u128,
        ),
        Val::F64(x) => seq![1u8] + spec_u64_to_le_bytes(f64_canonical(x)),
        Val::Bytes(s) => seq![1u8] + spec_u32_to_le_bytes(s.len() as u32) + s,
    }
}

/// The key of a row: the keys of its cells, one after another.
pub open spec fn key_of(tys: Seq<Ty>, row: Seq<Val>) -> Seq<u8>
    decreases row.len(),
{
    if row.len() == 0 {
        Seq::empty()
    } else {
        key_of(tys, row.drop_last()) + cell_key(row.last(), tys[row.len() - 1])
    }
}

/// The types of a list of columns.
pub open spec fn col_types(cols: Seq<Vector>) -> Seq<Ty> {
    Seq::new(cols.len(), |c: int| cols[c].ty())
}

/// The key that the columns have at a row.
pub open spec fn key_at(cols: Seq<Vector>, r: int) -> Seq<u8> {
    key_of(col_types(cols), row_at(cols, r))
}

/// Whether two cells of one column fall into the same group. Unlike under SQL's
/// `=`, NULL goes with NULL.
pub open spec fn same_group(a: Val, b: Val, ty: Ty) -> bool {
    if a is Null || b is Null {
        a is Null && b is Null
    } else {
        val_order(a, b, ty) == Order::Equal
    }
}

/// Whether every cell fits its column, and every byte string is short enough for
/// its length to be written in 32 bits.
pub open spec fn encodable(tys: Seq<Ty>, row: Seq<Val>) -> bool {
    &&& tys.len() == row.len()
    &&& forall|c: int|
        0 <= c < row.len() ==> (#[trigger] row[c]).fits(tys[c].phys()) && (row[c] matches Val::Bytes(
            s,
        ) ==> s.len() <= u32::MAX)
}

/// Writes the key of one cell.
pub fn encode_cell(v: &Value, ty: Ty, out: &mut Vec<u8>)
    ensures
        final(out)@ == old(out)@ + cell_key(v@, ty),
{
    match v {
        Value::Null => {
            out.push(0);
        },
        Value::Bool(b) => {
            out.push(1);
            out.push(if *b { 1 } else { 0 });
        },
        Value::I32(x) => {
            out.push(1);
            put_bytes(out, u32_to_le_bytes(#[verifier::truncate] (*x as u32)).as_slice());
        },
        Value::I64(x) => {
            out.push(1);
            put_bytes(out, u64_to_le_bytes(#[verifier::truncate] (*x as u64)).as_slice());
        },
        Value::I128(x) => {
            out.push(1);
            let k: i128 = if ty == Ty::Interval { interval_key(*x) } else { *x };
            put_bytes(out, u128_to_le_bytes(#[verifier::truncate] (k as u128)).as_slice());
        },
        Value::F64(x) => {
            out.push(1);
            put_bytes(out, u64_to_le_bytes(canonical_f64(*x)).as_slice());
        },
        Value::Bytes(s) => {
            out.push(1);
            put_bytes(out, u32_to_le_bytes(#[verifier::truncate] (s.len() as u32)).as_slice());
            put_bytes(out, s.as_slice());
        },
    }
    assert(out@ =~= old(out)@ + cell_key(v@, ty));
}

/// Writes one row's key into `out`.
pub fn encode_key(cols: &[&Vector], row: usize, out: &mut Vec<u8>)
    requires
        forall|c: int| 0 <= c < cols@.len() ==> row < (#[trigger] cols@[c])@.len(),
    ensures
        final(out)@ == key_at(cols@.unref(), row as int),
{
    out.clear();
    let ghost tys = col_types(cols@.unref());
    let ghost cells = row_at(cols@.unref(), row as int);
    let mut c: usize = 0;
    assert(cells.take(0) =~= Seq::<Val>::empty());
    while c < cols.len()
        invariant
            forall|c: int| 0 <= c < cols@.len() ==> row < (#[trigger] cols@[c])@.len(),
            c <= cols@.len(),
            tys == col_types(cols@.unref()),
            cells == row_at(cols@.unref(), row as int),
            out@ == key_of(tys, cells.take(c as int)),
        decreases cols@.len() - c,
    {
        let col = cols[c];
        encode_cell(col.cell(row), col.ty(), out);
        c = c + 1;
        assert(cells.take(c as int).drop_last() =~= cells.take(c as int - 1));
        assert(cells.take(c as int).last() == col@[row as int]);
    }
    assert(cells.take(c as int) =~= cells);
}

/// Borrows every column.
pub fn column_refs(cols: &Vec<Vector>) -> (r: Vec<&Vector>)
    ensures
        r@.len() == cols@.len(),
        r@.unref() == cols@,
        forall|c: int| 0 <= c < r@.len() ==> *(#[trigger] r@[c]) == cols@[c],
{
    let mut r: Vec<&Vector> = Vec::new();
    let mut c: usize = 0;
    while c < cols.len()
        invariant
            c <= cols@.len(),
            r@.len() == c,
            forall|d: int| 0 <= d < c ==> *(#[trigger] r@[d]) == cols@[d],
        decreases cols@.len() - c,
    {
        r.push(&cols[c]);
        c = c + 1;
    }
    assert(r@.unref() =~= cols@);
    r
}

/// Whether a key has a NULL among its cells.
pub open spec fn null_among(cols: Seq<Vector>, r: int) -> bool {
    exists|c: int| 0 <= c < cols.len() && #[trigger] cols[c]@[r] is Null
}

/// Whether the key contains even one NULL.
pub fn key_has_null(cols: &[&Vector], row: usize) -> (r: bool)
    requires
        forall|c: int| 0 <= c < cols@.len() ==> row < (#[trigger] cols@[c])@.len(),
    ensures
        r == null_among(cols@.unref(), row as int),
{
    let mut c: usize = 0;
    while c < cols.len()
        invariant
            forall|c: int| 0 <= c < cols@.len() ==> row < (#[trigger] cols@[c])@.len(),
            c <= cols@.len(),
            forall|d: int|
                0 <= d < c ==> !(#[trigger] cols@.unref()[d]@[row as int] is Null),
        decreases cols@.len() - c,
    {
        if !cols[c].is_valid(row) {
            assert(cols@.unref()[c as int]@[row as int] is Null);
            return true;
        }
        c = c + 1;
    }
    false
}

proof fn lemma_le_injective()
    ensures
        forall|a: u32, b: u32|
            #[trigger] spec_u32_to_le_bytes(a) == #[trigger] spec_u32_to_le_bytes(b) ==> a == b,
        forall|a: u64, b: u64|
            #[trigger] spec_u64_to_le_bytes(a) == #[trigger] spec_u64_to_le_bytes(b) ==> a == b,
        forall|a: u128, b: u128|
            #[trigger] spec_u128_to_le_bytes(a) == #[trigger] spec_u128_to_le_bytes(b) ==> a == b,
        forall|a: u32| (#[trigger] spec_u32_to_le_bytes(a)).len() == 4,
        forall|a: u64| (#[trigger] spec_u64_to_le_bytes(a)).len() == 8,
        forall|a: u128| (#[trigger] spec_u128_to_le_bytes(a)).len() == 16,
{
    vstd::bytes::lemma_auto_spec_u32_to_from_le_bytes();
    vstd::bytes::lemma_auto_spec_u64_to_from_le_bytes();
    vstd::bytes::lemma_auto_spec_u128_to_from_le_bytes();
    assert forall|a: u32, b: u32|
        #[trigger] spec_u32_to_le_bytes(a) == #[trigger] spec_u32_to_le_bytes(b) implies a == b by {
        assert(spec_u32_to_le_bytes(a).len() == 4 && spec_u32_to_le_bytes(b).len() == 4);
    }
    assert forall|a: u64, b: u64|
        #[trigger] spec_u64_to_le_bytes(a) == #[trigger] spec_u64_to_le_bytes(b) implies a == b by {
        assert(spec_u64_to_le_bytes(a).len() == 8 && spec_u64_to_le_bytes(b).len() == 8);
    }
    assert forall|a: u128, b: u128|
        #[trigger] spec_u128_to_le_bytes(a) == #[trigger] spec_u128_to_le_bytes(b) implies a == b by {
        assert(spec_u128_to_le_bytes(a).len() == 16 && spec_u128_to_le_bytes(b).len() == 16);
    }
}

proof fn lemma_unsigned_images()
    ensures
        forall|a: i32, b: i32| #![trigger a as u32, b as u32] a as u32 == b as u32 ==> a == b,
        forall|a: i64, b: i64| #![trigger a as u64, b as u64] a as u64 == b as u64 ==> a == b,
        forall|a: i128, b: i128| #![trigger a as u128, b as u128] a as u128 == b as u128 ==> a == b,
{
    assert forall|a: i32, b: i32| #![trigger a as u32, b as u32] a as u32 == b as u32 implies a == b by {
        assert(a as u32 == b as u32 ==> a == b) by (bit_vector);
    }
    assert forall|a: i64, b: i64| #![trigger a as u64, b as u64] a as u64 == b as u64 implies a == b by {
        assert(a as u64 == b as u64 ==> a == b) by (bit_vector);
    }
    assert forall|a: i128, b: i128| #![trigger a as u128, b as u128] a as u128 == b as u128 implies a == b by {
        assert(a as u128 == b as u128 ==> a == b) by (bit_vector);
    }
}

/// Two byte strings that start with equally long parts and are equal agree on
/// the parts and on the rest.
proof fn lemma_split_equal(a: Seq<u8>, s: Seq<u8>, b: Seq<u8>, t: Seq<u8>)
    requires
        a + s == b + t,
        a.len() == b.len(),
    ensures
        a == b,
        s == t,
{
    assert(a =~= (a + s).take(a.len() as int));
    assert(b =~= (b + t).take(a.len() as int));
    assert(s =~= (a + s).skip(a.len() as int));
    assert(t =~= (b + t).skip(a.len() as int));
}

proof fn lemma_cell_key_delimits(v: Val, w: Val, ty: Ty, s: Seq<u8>, t: Seq<u8>)
    requires
        v.fits(ty.phys()),
        w.fits(ty.phys()),
        v matches Val::Bytes(x) ==> x.len() <= u32::MAX,
        w matches Val::Bytes(x) ==> x.len() <= u32::MAX,
        cell_key(v, ty) + s == cell_key(w, ty) + t,
    ensures
        same_group(v, w, ty),
        s == t,
{
    lemma_le_injective();
    lemma_unsigned_images();
    let a = cell_key(v, ty);
    let b = cell_key(w, ty);
    assert(a[0] == (a + s)[0]);
    assert(b[0] == (b + t)[0]);
    assert(v is Null <==> w is Null);
    if let (Val::Bytes(x), Val::Bytes(y)) = (v, w) {
        let hx = seq![1u8] + spec_u32_to_le_bytes(x.len() as u32);
        let hy = seq![1u8] + spec_u32_to_le_bytes(y.len() as u32);
        assert(a + s =~= hx + (x + s));
        assert(b + t =~= hy + (y + t));
        lemma_split_equal(hx, x + s, hy, y + t);
        assert(spec_u32_to_le_bytes(x.len() as u32) =~= hx.skip(1));
        assert(spec_u32_to_le_bytes(y.len() as u32) =~= hy.skip(1));
        lemma_split_equal(x, s, y, t);
        crate::order::bytes_order_flips(x, y);
    } else {
        lemma_split_equal(a, s, b, t);
        assert(a.skip(1) == b.skip(1));
        match (v, w) {
            (Val::Bool(x), Val::Bool(y)) => {
                assert(a[1] == b[1]);
            },
            (Val::I32(x), Val::I32(y)) => {
                assert(a.skip(1) =~= spec_u32_to_le_bytes(x as u32));
                assert(b.skip(1) =~= spec_u32_to_le_bytes(y as u32));
            },
            (Val::I64(x), Val::I64(y)) => {
                assert(a.skip(1) =~= spec_u64_to_le_bytes(x as u64));
                assert(b.skip(1) =~= spec_u64_to_le_bytes(y as u64));
            },
            (Val::I128(x), Val::I128(y)) => {
                let kx = if ty == Ty::Interval { interval_span(x) as i128 } else { x };
                let ky = if ty == Ty::Interval { interval_span(y) as i128 } else { y };
                assert(a.skip(1) =~= spec_u128_to_le_bytes(kx as u128));
                assert(b.skip(1) =~= spec_u128_to_le_bytes(ky as u128));
                assert(kx == ky);
            },
            (Val::F64(x), Val::F64(y)) => {
                assert(a.skip(1) =~= spec_u64_to_le_bytes(f64_canonical(x)));
                assert(b.skip(1) =~= spec_u64_to_le_bytes(f64_canonical(y)));
                crate::order::f64_order_agrees_with_keys(x, y);
            },
            _ => {},
        }
    }
}

proof fn lemma_cell_key_of_group(v: Val, w: Val, ty: Ty)
    requires
        v.fits(ty.phys()),
        w.fits(ty.phys()),
        same_group(v, w, ty),
    ensures
        cell_key(v, ty) == cell_key(w, ty),
{
    match (v, w) {
        (Val::F64(x), Val::F64(y)) => {
            crate::order::f64_order_agrees_with_keys(x, y);
        },
        (Val::Bytes(x), Val::Bytes(y)) => {
            crate::order::bytes_order_flips(x, y);
        },
        _ => {},
    }
}

proof fn lemma_key_from_front(tys: Seq<Ty>, row: Seq<Val>)
    requires
        row.len() > 0,
        tys.len() == row.len(),
    ensures
        key_of(tys, row) == cell_key(row[0], tys[0]) + key_of(tys.drop_first(), row.drop_first()),
    decreases row.len(),
{
    let head = cell_key(row[0], tys[0]);
    if row.len() == 1 {
        assert(row.drop_last() =~= Seq::<Val>::empty());
        assert(row.drop_first() =~= Seq::<Val>::empty());
        assert(key_of(tys, row.drop_last()) =~= Seq::<u8>::empty());
        assert(row.last() == row[0]);
        assert(key_of(tys, row) =~= head);
        assert(key_of(tys.drop_first(), row.drop_first()) =~= Seq::<u8>::empty());
        assert(head + Seq::<u8>::empty() =~= head);
    } else {
        let tail = cell_key(row.last(), tys[row.len() - 1]);
        let short = row.drop_last();
        lemma_key_prefix_types(tys, tys.drop_last(), short);
        lemma_key_from_front(tys.drop_last(), short);
        assert(tys.drop_last().drop_first() =~= tys.drop_first().drop_last());
        assert(short.drop_first() =~= row.drop_first().drop_last());
        lemma_key_prefix_types(tys.drop_first(), tys.drop_first().drop_last(), short.drop_first());
        let mid = key_of(tys.drop_first(), short.drop_first());
        assert(key_of(tys, row) == (head + mid) + tail);
        assert(key_of(tys.drop_first(), row.drop_first()) == mid + tail);
        assert((head + mid) + tail =~= head + (mid + tail));
    }
}

proof fn lemma_key_prefix_types(a: Seq<Ty>, b: Seq<Ty>, row: Seq<Val>)
    requires
        a.len() >= row.len(),
        b.len() >= row.len(),
        forall|c: int| 0 <= c < row.len() ==> a[c] == b[c],
    ensures
        key_of(a, row) == key_of(b, row),
    decreases row.len(),
{
    if row.len() > 0 {
        lemma_key_prefix_types(a, b, row.drop_last());
    }
}

/// Two rows of the same columns have the same key exactly when they agree, cell
/// by cell, on the group. In particular neighbouring byte strings cannot run
/// into each other, and NULL is a group of its own.
pub proof fn keys_agree_exactly_on_groups(tys: Seq<Ty>, a: Seq<Val>, b: Seq<Val>)
    requires
        encodable(tys, a),
        encodable(tys, b),
    ensures
        key_of(tys, a) == key_of(tys, b) <==> forall|c: int|
            0 <= c < a.len() ==> same_group(#[trigger] a[c], b[c], tys[c]),
    decreases a.len(),
{
    if a.len() == 0 {
        assert(key_of(tys, a) =~= key_of(tys, b));
    } else {
        lemma_key_from_front(tys, a);
        lemma_key_from_front(tys, b);
        let t1 = tys.drop_first();
        let a1 = a.drop_first();
        let b1 = b.drop_first();
        assert forall|c: int| 0 <= c < a1.len() implies (#[trigger] a1[c]).fits(t1[c].phys()) && (
        a1[c] matches Val::Bytes(s) ==> s.len() <= u32::MAX) by {
            assert(a[c + 1].fits(tys[c + 1].phys()));
        }
        assert forall|c: int| 0 <= c < b1.len() implies (#[trigger] b1[c]).fits(t1[c].phys()) && (
        b1[c] matches Val::Bytes(s) ==> s.len() <= u32::MAX) by {
            assert(b[c + 1].fits(tys[c + 1].phys()));
        }
        keys_agree_exactly_on_groups(t1, a1, b1);
        assert(a[0].fits(tys[0].phys()));
        assert(b[0].fits(tys[0].phys()));
        if key_of(tys, a) == key_of(tys, b) {
            lemma_cell_key_delimits(a[0], b[0], tys[0], key_of(t1, a1), key_of(t1, b1));
            assert forall|c: int| 0 <= c < a.len() implies same_group(#[trigger] a[c], b[c], tys[c]) by {
                if c > 0 {
                    assert(same_group(a1[c - 1], b1[c - 1], t1[c - 1]));
                }
            }
        }
        if forall|c: int| 0 <= c < a.len() ==> same_group(#[trigger] a[c], b[c], tys[c]) {
            assert(same_group(a[0], b[0], tys[0]));
            lemma_cell_key_of_group(a[0], b[0], tys[0]);
            assert forall|c: int| 0 <= c < a1.len() implies same_group(#[trigger] a1[c], b1[c], t1[c]) by {
                assert(same_group(a[c + 1], b[c + 1], tys[c + 1]));
            }
        }
    }
}

// --- The hash index ----------------------------------------------------------------

/// The most keys that an index can hold: values are `u32`, and 0 marks a free slot. (Where a `usize`
/// is no wider, a slot has to stay free.)
pub open spec fn most_keys() -> usize {
    if usize::MAX - 1 < 0xffff_ffff {
        (usize::MAX - 1) as usize
    } else {
        0xffff_ffff
    }
}

#[verifier::when_used_as_spec(most_keys)]
pub fn max_keys() -> (n: usize)
    ensures
        n == most_keys(),
{
    if usize::MAX - 1 < 0xffff_ffff {
        usize::MAX - 1
    } else {
        0xffff_ffff
    }
}

/// The buckets' initial count.
pub const INITIAL_BUCKETS: usize = 1024;

/// The estimated bytes an entry costs beyond its key.
pub const ENTRY_OVERHEAD: u64 = 32;

/// The slot `t` steps after the home slot of a hash, in a table of `n` slots.
spec fn slot_after(h: u64, t: int, n: int) -> int {
    (spread_of(h) as int + t) % n
}

/// The buckets index the first `hashes.len()` entries by open addressing with
/// linear probing. Entry `i` sits `dist[i]` steps after its home slot, and no
/// slot on the way there is free.
spec fn table_ok(buckets: Seq<u32>, hashes: Seq<u64>, dist: Seq<int>) -> bool {
    &&& 0 < buckets.len()
    &&& hashes.len() == dist.len()
    &&& hashes.len() < buckets.len()
    &&& hashes.len() <= max_keys()
    &&& forall|i: int|
        0 <= i < hashes.len() ==> {
            &&& 0 <= #[trigger] dist[i] < buckets.len()
            &&& buckets[slot_after(hashes[i], dist[i], buckets.len() as int)] == i + 1
        }
    &&& forall|i: int, t: int|
        0 <= i < hashes.len() && 0 <= t < dist[i] ==> buckets[#[trigger] slot_after(
            hashes[i],
            t,
            buckets.len() as int,
        )] != 0
    &&& forall|s: int|
        0 <= s < buckets.len() && #[trigger] buckets[s] != 0 ==> buckets[s] <= hashes.len() && s
            == slot_after(hashes[buckets[s] - 1], dist[buckets[s] - 1], buckets.len() as int)
}

proof fn lemma_slot_in_range(h: u64, t: int, n: int)
    requires
        n > 0,
        0 <= t,
    ensures
        0 <= slot_after(h, t, n) < n,
{
}

/// Every slot is reached from the home slot within one round.
proof fn lemma_slot_reached(h: u64, s: int, n: int) -> (t: int)
    requires
        0 <= s < n,
    ensures
        0 <= t < n,
        slot_after(h, t, n) == s,
{
    let home = spread_of(h) as int;
    let t = (s - home) % n;
    assert((home + (s - home) % n) % n == s) by {
        vstd::arithmetic::div_mod::lemma_add_mod_noop_right(home, s - home, n);
        vstd::arithmetic::div_mod::lemma_small_mod(s as nat, n as nat);
    }
    t
}

/// A table with fewer entries than slots has a free slot.
proof fn lemma_free_slot(buckets: Seq<u32>, hashes: Seq<u64>, dist: Seq<int>) -> (s: int)
    requires
        table_ok(buckets, hashes, dist),
    ensures
        0 <= s < buckets.len(),
        buckets[s] == 0,
{
    if forall|s: int| 0 <= s < buckets.len() ==> #[trigger] buckets[s] != 0 {
        let ints = Seq::new(buckets.len(), |s: int| buckets[s] as int);
        assert forall|i: int, j: int| 0 <= i < ints.len() && 0 <= j < ints.len() && i != j implies ints[i]
            != ints[j] by {
            assert(buckets[i] != 0 && buckets[j] != 0);
        }
        ints.unique_seq_to_set();
        let range = vstd::set_lib::set_int_range(1, hashes.len() as int + 1);
        vstd::set_lib::lemma_int_range(1, hashes.len() as int + 1);
        assert(ints.to_set().subset_of(range)) by {
            assert forall|x: int| ints.to_set().contains(x) implies range.contains(x) by {
                let k = choose|k: int| 0 <= k < ints.len() && ints[k] == x;
                assert(buckets[k] != 0);
            }
        }
        vstd::set_lib::lemma_len_subset(ints.to_set(), range);
        assert(false);
    }
    choose|s: int| 0 <= s < buckets.len() && #[trigger] buckets[s] == 0
}

/// Claiming the free slot `t` steps after its home for a new last entry keeps
/// the table in order.
proof fn lemma_table_extended(
    buckets: Seq<u32>,
    hashes: Seq<u64>,
    dist: Seq<int>,
    h: u64,
    t: int,
)
    requires
        table_ok(buckets, hashes, dist),
        hashes.len() + 1 < buckets.len(),
        hashes.len() < max_keys(),
        0 <= t < buckets.len(),
        buckets[slot_after(h, t, buckets.len() as int)] == 0,
        forall|u: int|
            0 <= u < t ==> buckets[#[trigger] slot_after(h, u, buckets.len() as int)] != 0,
    ensures
        table_ok(
            buckets.update(slot_after(h, t, buckets.len() as int), (hashes.len() + 1) as u32),
            hashes.push(h),
            dist.push(t),
        ),
{
    let n = buckets.len() as int;
    let s = slot_after(h, t, n);
    let b2 = buckets.update(s, (hashes.len() + 1) as u32);
    let h2 = hashes.push(h);
    let d2 = dist.push(t);
    assert forall|i: int| 0 <= i < h2.len() implies {
        &&& 0 <= #[trigger] d2[i] < b2.len()
        &&& b2[slot_after(h2[i], d2[i], n)] == i + 1
    } by {
        if i < hashes.len() {
            assert(0 <= dist[i] < n);
            assert(buckets[slot_after(hashes[i], dist[i], n)] == i + 1);
        }
    }
    assert forall|i: int, u: int| 0 <= i < h2.len() && 0 <= u < d2[i] implies b2[#[trigger] slot_after(
        h2[i],
        u,
        n,
    )] != 0 by {
        lemma_slot_in_range(h2[i], u, n);
        if i < hashes.len() {
            assert(buckets[slot_after(hashes[i], u, n)] != 0);
        } else {
            assert(buckets[slot_after(h, u, n)] != 0);
        }
    }
    assert forall|x: int| 0 <= x < b2.len() && #[trigger] b2[x] != 0 implies b2[x] <= h2.len() && x
        == slot_after(h2[b2[x] - 1], d2[b2[x] - 1], n) by {
        if x != s {
            assert(buckets[x] != 0);
        }
    }
}

/// An index from byte-string keys to `u32` values, in the order of insertion.
pub struct HashIndex {
    /// The keys, one after another.
    keys: Vec<u8>,
    /// Where each entry's key starts, its length, and the entry's value.
    entries: Vec<(usize, usize, u32)>,
    /// Each entry's hash.
    hashes: Vec<u64>,
    /// 0 is free; anything else is the number of an entry plus 1.
    buckets: Vec<u32>,
    /// How far each entry sits from its home slot.
    dist: Ghost<Seq<int>>,
}

impl View for HashIndex {
    type V = Seq<(Seq<u8>, u32)>;

    closed spec fn view(&self) -> Seq<(Seq<u8>, u32)> {
        Seq::new(self.entries@.len(), |i: int| (self.key_spec(i), self.entries@[i].2))
    }
}

/// Whether a key is present.
pub open spec fn has_key(e: Seq<(Seq<u8>, u32)>, key: Seq<u8>) -> bool {
    exists|i: int| 0 <= i < e.len() && (#[trigger] e[i]).0 == key
}

/// The entry that holds a present key.
pub open spec fn entry_of(e: Seq<(Seq<u8>, u32)>, key: Seq<u8>) -> int {
    choose|i: int| 0 <= i < e.len() && (#[trigger] e[i]).0 == key
}

/// The sum of the key lengths.
pub open spec fn key_total(e: Seq<(Seq<u8>, u32)>) -> int
    decreases e.len(),
{
    if e.len() == 0 {
        0
    } else {
        key_total(e.drop_last()) + e.last().0.len()
    }
}

impl HashIndex {
    closed spec fn key_spec(&self, i: int) -> Seq<u8> {
        self.keys@.subrange(self.entries@[i].0 as int, self.entries@[i].0 + self.entries@[i].1)
    }

    closed spec fn nearly_wf(&self) -> bool {
        &&& self.hashes@.len() == self.entries@.len()
        &&& forall|i: int|
            0 <= i < self.entries@.len() ==> (#[trigger] self.entries@[i]).0 + self.entries@[i].1
                <= self.keys@.len()
        &&& forall|i: int|
            0 <= i < self.entries@.len() ==> #[trigger] self.hashes@[i] == hash_of(self@[i].0)
        &&& forall|i: int, j: int|
            0 <= i < j < self.entries@.len() ==> (#[trigger] self@[i]).0 != (#[trigger] self@[j]).0
        &&& self.keys@.len() == key_total(self@)
        &&& table_ok(self.buckets@, self.hashes@, self.dist@)
        &&& INITIAL_BUCKETS <= self.buckets@.len()
    }

    /// No key occurs twice, the buckets find every entry, and there is room for
    /// one more, unless there are as many as there can be.
    pub closed spec fn wf(&self) -> bool {
        self.nearly_wf() && (self.entries@.len() + 1 < self.buckets@.len() || self.entries@.len() >= max_keys())
    }

    pub fn new() -> (r: HashIndex)
        ensures
            r.wf(),
            r@ == Seq::<(Seq<u8>, u32)>::empty(),
    {
        let r = HashIndex {
            keys: Vec::new(),
            entries: Vec::new(),
            hashes: Vec::new(),
            buckets: vec![0; INITIAL_BUCKETS],
            dist: Ghost(Seq::empty()),
        };
        assert(r@ =~= Seq::<(Seq<u8>, u32)>::empty());
        r
    }

    pub fn len(&self) -> (n: usize)
        ensures
            n == self@.len(),
    {
        self.entries.len()
    }

    pub fn is_empty(&self) -> (r: bool)
        ensures
            r == (self@.len() == 0),
    {
        self.entries.len() == 0
    }

    /// The total bytes of the keys held.
    pub fn key_bytes(&self) -> (n: usize)
        requires
            self.wf(),
        ensures
            n == key_total(self@),
    {
        self.keys.len()
    }

    /// The rough memory use: the keys, and a fixed overhead per entry.
    pub fn approx_bytes(&self) -> (n: u64)
        requires
            self.wf(),
        ensures
            n == index_bytes(self@),
    {
        let k: u64 = self.keys.len() as u64;
        k.saturating_add(self.entries.len() as u64 * ENTRY_OVERHEAD)
    }

    fn entry_key(&self, i: usize) -> (r: &[u8])
        requires
            self.wf(),
            i < self@.len(),
        ensures
            r@ == self@[i as int].0,
    {
        let off: usize = self.entries[i].0;
        let len: usize = self.entries[i].1;
        assert(self.entries@[i as int].0 + self.entries@[i as int].1 <= self.keys@.len());
        let total: usize = self.keys.len();
        assert(off + len <= total);
        vstd::slice::slice_subrange(self.keys.as_slice(), off, off + len)
    }

    /// Finds, by linear probing, the entry of a key, or else the free slot where
    /// it belongs and that slot's distance from the key's home slot.
    fn probe(&self, key: &[u8], h: u64) -> (r: (usize, Option<usize>, Ghost<int>))
        requires
            self.wf(),
            h == hash_of(key@),
        ensures
            match r.1 {
                Some(i) => i < self@.len() && self@[i as int].0 == key@,
                None => {
                    &&& !has_key(self@, key@)
                    &&& 0 <= r.2@ < self.buckets@.len()
                    &&& r.0 == slot_after(h, r.2@, self.buckets@.len() as int)
                    &&& self.buckets@[r.0 as int] == 0
                    &&& forall|t: int|
                        0 <= t < r.2@ ==> self.buckets@[#[trigger] slot_after(
                            h,
                            t,
                            self.buckets@.len() as int,
                        )] != 0
                },
            },
    {
        let n: usize = self.buckets.len();
        let mut slot: usize = (hash_u64(h) % (n as u64)) as usize;
        let mut t: usize = 0;
        loop
            invariant
                self.wf(),
                h == hash_of(key@),
                n == self.buckets@.len(),
                t <= n,
                slot < n,
                slot == slot_after(h, t as int, n as int),
                forall|u: int|
                    0 <= u < t ==> {
                        let b = self.buckets@[#[trigger] slot_after(h, u, n as int)];
                        b != 0 && self@[b - 1].0 != key@
                    },
            decreases n - t,
        {
            if t == n {
                proof {
                    let s = lemma_free_slot(self.buckets@, self.hashes@, self.dist@);
                    let u = lemma_slot_reached(h, s, n as int);
                    assert(self.buckets@[slot_after(h, u, n as int)] != 0);
                    assert(false);
                }
                return (0, None, Ghost(0));
            }
            let b: u32 = self.buckets[slot];
            if b == 0 {
                proof {
                    assert forall|i: int| 0 <= i < self@.len() implies (#[trigger] self@[i]).0 != key@ by {
                        if self@[i].0 == key@ {
                            assert(self.hashes@[i] == h);
                            let d = self.dist@[i];
                            assert(self.buckets@[slot_after(h, d, n as int)] == i + 1);
                            if d < t {
                                let bb = self.buckets@[slot_after(h, d, n as int)];
                                assert(self@[bb - 1].0 != key@);
                            } else if d > t {
                                assert(self.buckets@[slot_after(self.hashes@[i], t as int, n as int)] != 0);
                            }
                            assert(false);
                        }
                    }
                }
                return (slot, None, Ghost(t as int));
            }
            assert(self.buckets@[slot as int] != 0);
            let i: usize = (b - 1) as usize;
            if self.hashes[i] == h && eq_bytes(self.entry_key(i), key) {
                return (slot, Some(i), Ghost(0));
            }
            proof {
                assert(self.hashes@[i as int] == hash_of(self@[i as int].0));
                lemma_next_slot(h, t as int, n as int);
            }
            slot = if slot + 1 == n { 0 } else { slot + 1 };
            t = t + 1;
        }
    }

    /// The value of a key, inserting the next number if the key is absent, and
    /// whether it was inserted.
    pub fn get_or_insert(&mut self, key: &[u8]) -> (r: (u32, bool))
        requires
            old(self).wf(),
            old(self)@.len() < max_keys(),
        ensures
            final(self).wf(),
            has_key(old(self)@, key@) ==> {
                &&& !r.1
                &&& r.0 == old(self)@[entry_of(old(self)@, key@)].1
                &&& final(self)@ == old(self)@
            },
            !has_key(old(self)@, key@) ==> {
                &&& r.1
                &&& r.0 == old(self)@.len()
                &&& final(self)@ == old(self)@.push((key@, r.0))
            },
    {
        let h: u64 = hash_bytes(key);
        let (slot, hit, steps) = self.probe(key, h);
        if let Some(i) = hit {
            assert(self@[i as int].0 == key@);
            return (self.entries[i].2, false);
        }
        let value: u32 = self.entries.len() as u32;
        self.insert_at(slot, key, h, value, steps);
        (value, true)
    }

    /// The value of a key, `None` if it is absent.
    pub fn lookup(&self, key: &[u8]) -> (r: Option<u32>)
        requires
            self.wf(),
        ensures
            match r {
                Some(v) => has_key(self@, key@) && v == self@[entry_of(self@, key@)].1,
                None => !has_key(self@, key@),
            },
    {
        let h: u64 = hash_bytes(key);
        let (_, hit, _) = self.probe(key, h);
        match hit {
            Some(i) => {
                assert(self@[i as int].0 == key@);
                Some(self.entries[i].2)
            },
            None => None,
        }
    }

    /// Sets the value of a key and returns the value it replaces, so that the
    /// caller can chain values of the same key.
    pub fn insert_chained(&mut self, key: &[u8], value: u32) -> (r: Option<u32>)
        requires
            old(self).wf(),
            old(self)@.len() < max_keys(),
        ensures
            final(self).wf(),
            match r {
                Some(prev) => {
                    &&& has_key(old(self)@, key@)
                    &&& prev == old(self)@[entry_of(old(self)@, key@)].1
                    &&& final(self)@ == old(self)@.update(
                        entry_of(old(self)@, key@),
                        (key@, value),
                    )
                },
                None => !has_key(old(self)@, key@) && final(self)@ == old(self)@.push((key@, value)),
            },
    {
        let h: u64 = hash_bytes(key);
        let (slot, hit, steps) = self.probe(key, h);
        match hit {
            Some(i) => {
                assert(self@[i as int].0 == key@);
                let off: usize = self.entries[i].0;
                let len: usize = self.entries[i].1;
                let prev: u32 = self.entries[i].2;
                self.entries[i] = (off, len, value);
                proof {
                    assert(self@ =~= old(self)@.update(i as int, (key@, value)));
                    assert forall|j: int| 0 <= j < self@.len() implies (#[trigger] self@[j]).0 == old(
                        self,
                    )@[j].0 by {}
                    lemma_key_total_same(old(self)@, self@);
                    assert forall|j: int| 0 <= j < self.entries@.len() implies (#[trigger] self.entries@[j]).0
                        + self.entries@[j].1 <= self.keys@.len() by {
                        assert(old(self).entries@[j].0 + old(self).entries@[j].1 <= self.keys@.len());
                    }
                    assert forall|j: int| 0 <= j < self.entries@.len() implies #[trigger] self.hashes@[j]
                        == hash_of(self@[j].0) by {
                        assert(old(self).hashes@[j] == hash_of(old(self)@[j].0));
                    }
                    assert forall|j: int, k: int| 0 <= j < k < self.entries@.len() implies (#[trigger] self@[j]).0
                        != (#[trigger] self@[k]).0 by {
                        assert(old(self)@[j].0 != old(self)@[k].0);
                    }
                }
                Some(prev)
            },
            None => {
                self.insert_at(slot, key, h, value, steps);
                None
            },
        }
    }

    fn insert_at(&mut self, slot: usize, key: &[u8], h: u64, value: u32, Ghost(t): Ghost<int>)
        requires
            old(self).wf(),
            old(self)@.len() < max_keys(),
            !has_key(old(self)@, key@),
            h == hash_of(key@),
            0 <= t < old(self).buckets@.len(),
            slot == slot_after(h, t, old(self).buckets@.len() as int),
            old(self).buckets@[slot as int] == 0,
            forall|u: int|
                0 <= u < t ==> old(self).buckets@[#[trigger] slot_after(
                    h,
                    u,
                    old(self).buckets@.len() as int,
                )] != 0,
        ensures
            final(self).wf(),
            final(self)@ == old(self)@.push((key@, value)),
    {
        let off: usize = self.keys.len();
        put_bytes(&mut self.keys, key);
        self.entries.push((off, key.len(), value));
        self.hashes.push(h);
        self.buckets.set(slot, self.entries.len() as u32);
        self.dist = Ghost(self.dist@.push(t));
        proof {
            lemma_table_extended(old(self).buckets@, old(self).hashes@, old(self).dist@, h, t);
            assert forall|i: int| 0 <= i < old(self)@.len() implies self@[i] == old(self)@[i] by {
                assert(old(self).entries@[i].0 + old(self).entries@[i].1 <= off);
                assert(self.key_spec(i) =~= old(self).key_spec(i));
            }
            assert(self.key_spec(old(self)@.len() as int) =~= key@);
            assert(self@ =~= old(self)@.push((key@, value)));
            assert(self@.drop_last() =~= old(self)@);
            assert forall|i: int| 0 <= i < self.entries@.len() implies (#[trigger] self.entries@[i]).0
                + self.entries@[i].1 <= self.keys@.len() by {
                if i < old(self)@.len() {
                    assert(old(self).entries@[i].0 + old(self).entries@[i].1 <= off);
                }
            }
            assert forall|i: int| 0 <= i < self.entries@.len() implies #[trigger] self.hashes@[i]
                == hash_of(self@[i].0) by {
                if i < old(self)@.len() {
                    assert(old(self).hashes@[i] == hash_of(old(self)@[i].0));
                }
            }
            assert forall|i: int, j: int| 0 <= i < j < self.entries@.len() implies (#[trigger] self@[i]).0
                != (#[trigger] self@[j]).0 by {
                if j < old(self)@.len() {
                    assert(old(self)@[i].0 != old(self)@[j].0);
                } else {
                    assert(old(self)@[i].0 != key@);
                }
            }
        }
        let crowded: bool = (self.entries.len() as u128) * 10 > (self.buckets.len() as u128) * 7;
        if crowded && self.buckets.len() < usize::MAX {
            self.grow();
        }
    }

    /// Doubles the buckets, as far as they can be numbered, and puts every entry into its place
    /// again.
    fn grow(&mut self)
        requires
            old(self).nearly_wf(),
            old(self).buckets@.len() < usize::MAX,
        ensures
            final(self).wf(),
            final(self)@ == old(self)@,
    {
        let n: usize = self.buckets.len().saturating_add(self.buckets.len());
        let mut buckets: Vec<u32> = vec![0; n];
        let ghost mut dist: Seq<int> = Seq::empty();
        let mut i: usize = 0;
        assert(self.hashes@.take(0) =~= Seq::<u64>::empty());
        while i < self.hashes.len()
            invariant
                i <= self.hashes@.len(),
                n == buckets@.len(),
                self.hashes@.len() < n,
                self.hashes@.len() <= max_keys(),
                table_ok(buckets@, self.hashes@.take(i as int), dist),
            decreases self.hashes@.len() - i,
        {
            let h: u64 = self.hashes[i];
            let (slot, steps) = free_slot(&buckets, h, Ghost(self.hashes@.take(i as int)), Ghost(dist));
            buckets.set(slot, (i + 1) as u32);
            proof {
                lemma_table_extended(
                    buckets@.update(slot as int, 0),
                    self.hashes@.take(i as int),
                    dist,
                    h,
                    steps@,
                );
                assert(buckets@.update(slot as int, 0).update(slot as int, (i + 1) as u32) =~= buckets@);
                dist = dist.push(steps@);
                assert(self.hashes@.take(i as int).push(h) =~= self.hashes@.take(i as int + 1));
            }
            i = i + 1;
        }
        assert(self.hashes@.take(i as int) =~= self.hashes@);
        self.buckets = buckets;
        self.dist = Ghost(dist);
        assert(self@ =~= old(self)@);
    }
}

/// Finds the free slot where a hash belongs.
fn free_slot(buckets: &Vec<u32>, h: u64, Ghost(hashes): Ghost<Seq<u64>>, Ghost(dist): Ghost<Seq<int>>) -> (r: (
    usize,
    Ghost<int>,
))
    requires
        table_ok(buckets@, hashes, dist),
    ensures
        0 <= r.1@ < buckets@.len(),
        r.0 < buckets@.len(),
        r.0 == slot_after(h, r.1@, buckets@.len() as int),
        buckets@[r.0 as int] == 0,
        forall|t: int|
            0 <= t < r.1@ ==> buckets@[#[trigger] slot_after(h, t, buckets@.len() as int)] != 0,
{
    let n: usize = buckets.len();
    let mut slot: usize = (hash_u64(h) % (n as u64)) as usize;
    let mut t: usize = 0;
    while buckets[slot] != 0
        invariant
            table_ok(buckets@, hashes, dist),
            n == buckets@.len(),
            t < n,
            slot < n,
            slot == slot_after(h, t as int, n as int),
            forall|u: int| 0 <= u < t ==> buckets@[#[trigger] slot_after(h, u, n as int)] != 0,
        decreases n - t,
    {
        proof {
            lemma_next_slot(h, t as int, n as int);
            if t + 1 == n {
                let s = lemma_free_slot(buckets@, hashes, dist);
                let u = lemma_slot_reached(h, s, n as int);
                assert(buckets@[slot_after(h, u, n as int)] != 0);
                assert(false);
            }
        }
        slot = if slot + 1 == n { 0 } else { slot + 1 };
        t = t + 1;
    }
    (slot, Ghost(t as int))
}

proof fn lemma_next_slot(h: u64, t: int, n: int)
    requires
        0 <= t,
        0 < n,
    ensures
        slot_after(h, t + 1, n) == if slot_after(h, t, n) + 1 == n {
            0
        } else {
            slot_after(h, t, n) + 1
        },
{
    let x = spread_of(h) as int + t;
    let s = slot_after(h, t, n);
    vstd::arithmetic::div_mod::lemma_add_mod_noop_right(1, x, n);
    assert((1 + x) % n == (1 + s) % n);
    if s + 1 == n {
        vstd::arithmetic::div_mod::lemma_mod_self_0(n);
    } else {
        vstd::arithmetic::div_mod::lemma_small_mod((s + 1) as nat, n as nat);
    }
}

proof fn lemma_key_total_same(a: Seq<(Seq<u8>, u32)>, b: Seq<(Seq<u8>, u32)>)
    requires
        a.len() == b.len(),
        forall|i: int| 0 <= i < a.len() ==> (#[trigger] a[i]).0 == b[i].0,
    ensures
        key_total(a) == key_total(b),
    decreases a.len(),
{
    if a.len() > 0 {
        lemma_key_total_same(a.drop_last(), b.drop_last());
    }
}

/// The rough memory use of an index.
pub open spec fn index_bytes(e: Seq<(Seq<u8>, u32)>) -> int {
    let total = key_total(e) + e.len() * ENTRY_OVERHEAD;
    if total > u64::MAX {
        u64::MAX as int
    } else {
        total
    }
}

impl Default for HashIndex {
    fn default() -> (r: HashIndex)
        ensures
            r.wf(),
            r@ == Seq::<(Seq<u8>, u32)>::empty(),
    {
        HashIndex::new()
    }
}

/// An absent key becomes present with the next number as its value, and every
/// other key keeps its value.
pub proof fn inserting_keeps_other_keys(
    e: Seq<(Seq<u8>, u32)>,
    key: Seq<u8>,
    value: u32,
    other: Seq<u8>,
)
    requires
        forall|i: int, j: int|
            0 <= i < j < e.len() ==> (#[trigger] e[i]).0 != (#[trigger] e[j]).0,
        !has_key(e, key),
        other != key,
    ensures
        has_key(e.push((key, value)), key),
        e.push((key, value))[entry_of(e.push((key, value)), key)].1 == value,
        has_key(e.push((key, value)), other) <==> has_key(e, other),
        has_key(e, other) ==> e.push((key, value))[entry_of(e.push((key, value)), other)].1
            == e[entry_of(e, other)].1,
{
    let e2 = e.push((key, value));
    assert(e2[e.len() as int].0 == key);
    if has_key(e, other) {
        let i = entry_of(e, other);
        assert(e2[i].0 == other);
        let j = entry_of(e2, other);
        assert(e2[j].0 == other);
        assert(i == j);
    }
    if has_key(e2, other) {
        let j = entry_of(e2, other);
        assert(e[j].0 == other);
    }
}

/// No key is held twice.
pub proof fn keys_are_distinct(index: HashIndex)
    requires
        index.wf(),
    ensures
        forall|i: int, j: int|
            0 <= i < j < index@.len() ==> (#[trigger] index@[i]).0 != (#[trigger] index@[j]).0,
{
}

// --- First occurrences ---------------------------------------------------------------

/// The keys of `n` rows of columns.
pub open spec fn col_keys(cols: Seq<ColV>, n: nat) -> Seq<Seq<u8>> {
    Seq::new(
        n,
        |i: int|
            key_of(
                Seq::new(cols.len(), |c: int| cols[c].ty),
                Seq::new(cols.len(), |c: int| cols[c].cells[i]),
            ),
    )
}

/// An index after the first `k` keys have been looked up, the absent ones inserted.
pub open spec fn grown(e: Seq<(Seq<u8>, u32)>, keys: Seq<Seq<u8>>, k: int) -> Seq<(Seq<u8>, u32)>
    decreases k,
{
    if k <= 0 {
        e
    } else {
        let before = grown(e, keys, k - 1);
        if has_key(before, keys[k - 1]) {
            before
        } else {
            before.push((keys[k - 1], before.len() as u32))
        }
    }
}

/// Whether each key is new: neither in the index nor among the keys before it.
pub open spec fn fresh_flags(e: Seq<(Seq<u8>, u32)>, keys: Seq<Seq<u8>>) -> Seq<bool> {
    Seq::new(keys.len(), |i: int| !has_key(grown(e, keys, i), keys[i]))
}

/// The keys present after some keys were looked up are those from before and those
/// looked up.
pub proof fn grown_holds_exactly_the_keys_seen(e: Seq<(Seq<u8>, u32)>, keys: Seq<Seq<u8>>, k: int, key: Seq<u8>)
    requires
        0 <= k <= keys.len(),
    ensures
        has_key(grown(e, keys, k), key) <==> has_key(e, key) || exists|j: int|
            0 <= j < k && #[trigger] keys[j] == key,
    decreases k,
{
    if k > 0 {
        grown_holds_exactly_the_keys_seen(e, keys, k - 1, key);
        let before = grown(e, keys, k - 1);
        let now = grown(e, keys, k);
        if has_key(now, key) {
            let i = entry_of(now, key);
            if i < before.len() {
                assert(before[i].0 == key);
            } else {
                assert(keys[k - 1] == key);
            }
        }
        if has_key(before, key) {
            let i = entry_of(before, key);
            assert(now[i].0 == key);
        }
        if keys[k - 1] == key {
            if !has_key(before, key) {
                assert(now[before.len() as int].0 == key);
            }
        }
    }
}

pub(crate) proof fn lemma_grown_bounds(e: Seq<(Seq<u8>, u32)>, keys: Seq<Seq<u8>>, k: int)
    requires
        0 <= k,
    ensures
        e.len() <= grown(e, keys, k).len() <= e.len() + k,
        key_total(grown(e, keys, k)) >= key_total(e),
        index_bytes(grown(e, keys, k)) >= index_bytes(e),
    decreases k,
{
    if k > 0 {
        lemma_grown_bounds(e, keys, k - 1);
        let before = grown(e, keys, k - 1);
        let now = grown(e, keys, k);
        if !has_key(before, keys[k - 1]) {
            assert(now.drop_last() =~= before);
        }
    }
}

/// Looking more keys up leaves no fewer entries.
pub(crate) proof fn lemma_grown_more(e: Seq<(Seq<u8>, u32)>, keys: Seq<Seq<u8>>, i: int, k: int)
    requires
        0 <= i <= k,
    ensures
        grown(e, keys, i).len() <= grown(e, keys, k).len(),
    decreases k,
{
    if i < k {
        lemma_grown_more(e, keys, i, k - 1);
    }
}

/// An index with so many entries is over any of the limits in use.
pub(crate) proof fn lemma_full_index(e: Seq<(Seq<u8>, u32)>)
    requires
        e.len() >= max_keys(),
    ensures
        index_bytes(e) > 0x1000_0000,
{
    lemma_key_total_positive(e);
}

pub(crate) proof fn lemma_key_total_positive(e: Seq<(Seq<u8>, u32)>)
    ensures
        key_total(e) >= 0,
    decreases e.len(),
{
    if e.len() > 0 {
        lemma_key_total_positive(e.drop_last());
    }
}

/// Looks the keys of `n` rows up in turn, inserting the absent ones, and tells
/// which were absent; `None` if the index gets full.
pub fn mark_fresh(index: &mut HashIndex, cols: &Vec<Vector>, n: usize) -> (r: Option<Vec<bool>>)
    requires
        old(index).wf(),
        cols_wf(cols@, n as int),
    ensures
        final(index).wf(),
        ({
            let keys = col_keys(crate::expr::cols_of(cols@), n as nat);
            let after = grown(old(index)@, keys, n as int);
            match r {
                Some(flags) => flags@ == fresh_flags(old(index)@, keys) && final(index)@ == after,
                None => after.len() > max_keys() && final(index)@.len() >= max_keys(),
            }
        }),
{
    let refs = column_refs(cols);
    let ghost keys = col_keys(crate::expr::cols_of(cols@), n as nat);
    let ghost e = index@;
    let mut flags: Vec<bool> = Vec::new();
    let mut key: Vec<u8> = Vec::new();
    let mut i: usize = 0;
    while i < n
        invariant
            i <= n,
            index.wf(),
            e == old(index)@,
            cols_wf(cols@, n as int),
            refs@.unref() == cols@,
            refs@.len() == cols@.len(),
            forall|c: int| 0 <= c < refs@.len() ==> *(#[trigger] refs@[c]) == cols@[c],
            keys == col_keys(crate::expr::cols_of(cols@), n as nat),
            index@ == grown(e, keys, i as int),
            flags@ == fresh_flags(e, keys).take(i as int),
        decreases n - i,
    {
        assert forall|c: int| 0 <= c < refs@.len() implies i < (#[trigger] refs@[c])@.len() by {
            assert(cols@[c]@.len() == n);
        }
        encode_key(refs.as_slice(), i, &mut key);
        proof {
            lemma_col_key(cols@, n as nat, i as int);
        }
        let fresh: bool = match index.lookup(key.as_slice()) {
            Some(_) => false,
            None => {
                if index.len() >= max_keys() {
                    proof {
                        lemma_grown_more(e, keys, i + 1, n as int);
                    }
                    return None;
                }
                let (_, _) = index.get_or_insert(key.as_slice());
                true
            },
        };
        flags.push(fresh);
        i = i + 1;
        assert(flags@ =~= fresh_flags(e, keys).take(i as int));
    }
    assert(flags@ =~= fresh_flags(e, keys));
    Some(flags)
}

/// The key of a row is the same whether the columns are taken as such or as values.
pub(crate) proof fn lemma_col_key(cols: Seq<Vector>, n: nat, i: int)
    requires
        0 <= i < n,
    ensures
        col_keys(crate::expr::cols_of(cols), n)[i] == key_at(cols, i),
{
    let vs = crate::expr::cols_of(cols);
    assert(Seq::new(vs.len(), |c: int| vs[c].ty) =~= col_types(cols));
    assert(Seq::new(vs.len(), |c: int| vs[c].cells[i]) =~= row_at(cols, i));
}

/// `10^n` as a double: repeated multiplication from 1.
pub open spec fn f_pow10(n: nat) -> u64
    decreases n,
{
    if n == 0 {
        F_ONE
    } else {
        f_product(f_pow10((n - 1) as nat), F_TEN)
    }
}

/// `10^scale` as a double.
pub fn pow10(scale: u8) -> (r: u64)
    ensures
        r == f_pow10(scale as nat),
{
    let mut d: u64 = F_ONE;
    let mut i: u8 = 0;
    while i < scale
        invariant
            i <= scale,
            d == f_pow10(i as nat),
        decreases scale - i,
    {
        d = times(d, F_TEN);
        i = i + 1;
    }
    d
}

/// Which keys are new does not depend on how the keys are divided into batches.
pub proof fn freshness_does_not_depend_on_batching(e: Seq<(Seq<u8>, u32)>, a: Seq<Seq<u8>>, b: Seq<Seq<u8>>)
    ensures
        fresh_flags(e, a + b) == fresh_flags(e, a) + fresh_flags(grown(e, a, a.len() as int), b),
        grown(e, a + b, (a + b).len() as int) == grown(grown(e, a, a.len() as int), b, b.len() as int),
{
    assert forall|i: int| 0 <= i <= a.len() implies #[trigger] grown(e, a + b, i) == grown(e, a, i) by {
        lemma_grown_prefix(e, a, a + b, i);
    }
    assert forall|i: int| 0 <= i <= b.len() implies grown(e, a + b, a.len() + i) == #[trigger] grown(
        grown(e, a, a.len() as int),
        b,
        i,
    ) by {
        lemma_grown_resumed(e, a, b, i);
    }
    assert(fresh_flags(e, a + b) =~= fresh_flags(e, a) + fresh_flags(grown(e, a, a.len() as int), b));
}

proof fn lemma_grown_prefix(e: Seq<(Seq<u8>, u32)>, a: Seq<Seq<u8>>, c: Seq<Seq<u8>>, k: int)
    requires
        0 <= k <= a.len() <= c.len(),
        forall|i: int| 0 <= i < a.len() ==> a[i] == c[i],
    ensures
        grown(e, c, k) == grown(e, a, k),
    decreases k,
{
    if k > 0 {
        lemma_grown_prefix(e, a, c, k - 1);
    }
}

proof fn lemma_grown_resumed(e: Seq<(Seq<u8>, u32)>, a: Seq<Seq<u8>>, b: Seq<Seq<u8>>, k: int)
    requires
        0 <= k <= b.len(),
    ensures
        grown(e, a + b, a.len() + k) == grown(grown(e, a, a.len() as int), b, k),
    decreases k,
{
    if k > 0 {
        lemma_grown_resumed(e, a, b, k - 1);
        assert((a + b)[a.len() + k - 1] == b[k - 1]);
    } else {
        lemma_grown_prefix(e, a, a + b, a.len() as int);
    }
}

} // verus!
