//! What is written for the host can be read back.
//!
//! The readers here go by positions alone: a number is the bytes at its place, the lowest
//! first, and a bit of a bitmap the one of its weight in its byte.

use crate::exec::{CodecRequest, IoRequest};
use crate::format::Compression;
use crate::vector::{name_bytes, FieldV, PhysType, Ty, Val};
use crate::wire::{
    bit, bitmap, bitmap_len, cell_number, cell_text, codec_bytes, codec_list, column_bytes, column_of, data_bytes,
    eight, field_bytes, io_bytes, io_list, le, lemma_le_len, numbers, offsets, schema_bytes, storage_number,
    table_bytes, texts, validity_bytes,
};
use vstd::arithmetic::power2::pow2;
use vstd::prelude::*;

verus! {

// --- Numbers --------------------------------------------------------------------------------

/// The number in the `w` bytes at a position.
pub open spec fn number_at(s: Seq<u8>, at: int, w: nat) -> int
    decreases w,
{
    if w == 0 {
        0
    } else {
        s[at] as int + 256 * number_at(s, at + 1, (w - 1) as nat)
    }
}

/// A number of `w` bytes in two's complement.
pub open spec fn signed(x: int, w: nat) -> int {
    if x >= pow2(8 * w) / 2 {
        x - pow2(8 * w)
    } else {
        x
    }
}

/// Whether the bit of a row is set, in the bitmap at a position.
pub open spec fn bit_set(s: Seq<u8>, at: int, i: int) -> bool {
    (s[at + i / 8] as int / pow2((i % 8) as nat) as int) % 2 == 1
}

proof fn lemma_pow8(w: nat)
    requires
        w > 0,
    ensures
        pow2(8 * w) == 256 * pow2((8 * (w - 1)) as nat),
{
    vstd::arithmetic::power2::lemma2_to64();
    assert(8 * w == 8 + 8 * (w - 1));
    vstd::arithmetic::power2::lemma_pow2_adds(8, (8 * (w - 1)) as nat);
}

/// A number written at a position is read there.
proof fn lemma_number_at(s: Seq<u8>, at: int, w: nat, v: int)
    requires
        0 <= at,
        at + w <= s.len(),
        s.subrange(at, at + w) == le(v, w),
        -pow2(8 * w) <= v < pow2(8 * w),
    ensures
        number_at(s, at, w) == if v >= 0 {
            v
        } else {
            v + pow2(8 * w)
        },
    decreases w,
{
    vstd::arithmetic::power2::lemma2_to64();
    if w > 0 {
        lemma_le_len(v, w);
        lemma_le_len(v / 256, (w - 1) as nat);
        lemma_pow8(w);
        let t = s.subrange(at, at + w);
        assert(s[at] == t[0] && t[0] == (v % 256) as u8);
        assert(s.subrange(at + 1, at + w) =~= le(v / 256, (w - 1) as nat)) by {
            assert(t.skip(1) =~= s.subrange(at + 1, at + w));
            assert(le(v, w).skip(1) =~= le(v / 256, (w - 1) as nat));
        }
        assert(s.subrange(at + 1, at + 1 + (w - 1)) == s.subrange(at + 1, at + w));
        lemma_number_at(s, at + 1, (w - 1) as nat, v / 256);
    }
}

proof fn lemma_number_here(s: Seq<u8>, a: Seq<u8>, v: int, w: nat, b: Seq<u8>)
    requires
        s == a + le(v, w) + b,
        -pow2(8 * w) <= v < pow2(8 * w),
    ensures
        number_at(s, a.len() as int, w) == if v >= 0 {
            v
        } else {
            v + pow2(8 * w)
        },
        s.len() == a.len() + w + b.len(),
{
    lemma_le_len(v, w);
    assert(s.subrange(a.len() as int, a.len() as int + w) =~= le(v, w));
    lemma_number_at(s, a.len() as int, w, v);
}

// --- Bitmaps -----------------------------------------------------------------------------------

/// Bit `i % 8` of byte `i / 8` of a bitmap is set exactly if row `i` is; the bits behind the last
/// row are not. The bytes are as many as the length before them says, in whole 64-bit words.
pub proof fn every_bit_tells_its_row(bits: Seq<bool>, i: int)
    requires
        bits.len() < 0x1_0000_0000,
    ensures
        ({
            let s = bitmap(bits);
            let n = s.len() - 4;
            &&& number_at(s, 0, 4) == n
            &&& n % 8 == 0
            &&& bits.len() <= 8 * n < bits.len() + 64
            &&& 0 <= i < 8 * n ==> (bit_set(s, 4, i) <==> i < bits.len() && bits[i])
        }),
{
    let s = bitmap(bits);
    let n = bitmap_len(bits.len() as int);
    lemma_le_len(n, 4);
    vstd::arithmetic::power2::lemma2_to64();
    let body = Seq::new(n as nat, |j: int| eight(bits, 8 * j) as u8);
    assert(s =~= Seq::<u8>::empty() + le(n, 4) + body);
    lemma_number_here(s, Seq::empty(), n, 4, body);
    if 0 <= i < 8 * n {
        let j = i / 8;
        let at = 8 * j;
        assert(s[4 + j] == body[j]);
        assert(s[4 + j] as int == eight(bits, at));
        assert(i == at + i % 8);
        let r = i % 8;
        assert(pow2(0) == 1 && pow2(1) == 2 && pow2(2) == 4 && pow2(3) == 8 && pow2(4) == 16 && pow2(5) == 32 && pow2(6)
            == 64 && pow2(7) == 128);
        let x = eight(bits, at);
        if r == 0 {
            assert((x / 1) % 2 == bit(bits, at));
        } else if r == 1 {
            assert((x / 2) % 2 == bit(bits, at + 1));
        } else if r == 2 {
            assert((x / 4) % 2 == bit(bits, at + 2));
        } else if r == 3 {
            assert((x / 8) % 2 == bit(bits, at + 3));
        } else if r == 4 {
            assert((x / 16) % 2 == bit(bits, at + 4));
        } else if r == 5 {
            assert((x / 32) % 2 == bit(bits, at + 5));
        } else if r == 6 {
            assert((x / 64) % 2 == bit(bits, at + 6));
        } else {
            assert((x / 128) % 2 == bit(bits, at + 7));
        }
    }
}

// --- Columns ------------------------------------------------------------------------------------

/// Where the data of the column at a position begin.
pub open spec fn data_at(s: Seq<u8>, at: int) -> int {
    at + 8 + number_at(s, at + 4, 4)
}

/// Where the column at a position ends.
pub open spec fn column_end(s: Seq<u8>, at: int) -> int {
    let d = data_at(s, at);
    let e = d + 4 + number_at(s, d, 4);
    if number_at(s, at, 4) == 5 {
        e + 4 + number_at(s, e, 4)
    } else {
        e
    }
}

/// The cell of row `i` in the column at a position.
pub open spec fn cell_at(s: Seq<u8>, at: int, i: int) -> Val {
    let storage = number_at(s, at, 4);
    let nulls = number_at(s, at + 4, 4) > 0;
    let d = data_at(s, at);
    if nulls && !bit_set(s, at + 8, i) {
        Val::Null
    } else if storage == 0 {
        Val::Bool(bit_set(s, d + 4, i))
    } else if storage == 1 {
        Val::I32(signed(number_at(s, d + 4 + 4 * i, 4), 4) as i32)
    } else if storage == 2 {
        Val::I64(signed(number_at(s, d + 4 + 8 * i, 8), 8) as i64)
    } else if storage == 3 {
        Val::F64(number_at(s, d + 4 + 8 * i, 8) as u64)
    } else if storage == 4 {
        Val::I128(signed(number_at(s, d + 4 + 16 * i, 16), 16) as i128)
    } else {
        let t = d + 4 + number_at(s, d, 4) + 4;
        Val::Bytes(s.subrange(t + number_at(s, d + 4 + 4 * i, 4), t + number_at(s, d + 8 + 4 * i, 4)))
    }
}

/// Whether a column's cells are of its storage and fit what lengths can say.
pub open spec fn writable(p: PhysType, cells: Seq<Val>) -> bool {
    &&& forall|i: int| 0 <= i < cells.len() ==> (#[trigger] cells[i]).fits(p)
    &&& 16 * (cells.len() + 1) < 0x1_0000_0000
    &&& texts(cells, cells.len() as int).len() < 0x1_0000_0000
}

proof fn lemma_numbers(cells: Seq<Val>, w: nat, k: int, i: int)
    requires
        0 <= k,
    ensures
        numbers(cells, w, k).len() == k * w,
        0 <= i < k ==> numbers(cells, w, k).subrange(i * w, i * w + w) == le(cell_number(cells[i]), w),
        0 <= i < k ==> 0 <= i * w && i * w + w <= k * w,
    decreases k,
{
    if k <= 0 {
        assert(0 * w == 0) by (nonlinear_arith);
    } else {
        lemma_numbers(cells, w, k - 1, i);
        lemma_le_len(cell_number(cells[k - 1]), w);
        assert((k - 1) * w + w == k * w) by (nonlinear_arith);
        let a = numbers(cells, w, k - 1);
        let b = le(cell_number(cells[k - 1]), w);
        assert(numbers(cells, w, k) == a + b);
        if 0 <= i < k {
            assert(0 <= i * w && i * w + w <= k * w) by (nonlinear_arith)
                requires
                    0 <= i < k,
                    0 <= w,
            ;
            if i < k - 1 {
                assert(numbers(cells, w, k).subrange(i * w, i * w + w) =~= a.subrange(i * w, i * w + w));
            } else {
                assert(numbers(cells, w, k).subrange(i * w, i * w + w) =~= b);
            }
        }
    }
}

proof fn lemma_texts(cells: Seq<Val>, k: int, i: int)
    requires
        0 <= i < k <= cells.len(),
    ensures
        texts(cells, i).len() <= texts(cells, i + 1).len() <= texts(cells, k).len(),
        texts(cells, k).subrange(texts(cells, i).len() as int, texts(cells, i + 1).len() as int) == cell_text(cells[i]),
    decreases k,
{
    let t = texts(cells, k);
    assert(t == texts(cells, k - 1) + cell_text(cells[k - 1]));
    if i < k - 1 {
        lemma_texts(cells, k - 1, i);
        let a = texts(cells, i).len() as int;
        let b = texts(cells, i + 1).len() as int;
        assert(t.subrange(a, b) =~= texts(cells, k - 1).subrange(a, b));
    } else {
        assert(t.subrange(texts(cells, i).len() as int, t.len() as int) =~= cell_text(cells[i]));
    }
}

proof fn lemma_offsets(cells: Seq<Val>, k: int, i: int)
    requires
        0 <= k,
    ensures
        offsets(cells, k).len() == 4 * k,
        0 <= i < k ==> offsets(cells, k).subrange(4 * i, 4 * i + 4) == le(texts(cells, i).len() as int, 4),
    decreases k,
{
    if k > 0 {
        lemma_offsets(cells, k - 1, i);
        lemma_le_len(texts(cells, k - 1).len() as int, 4);
        let a = offsets(cells, k - 1);
        let b = le(texts(cells, k - 1).len() as int, 4);
        if 0 <= i < k - 1 {
            assert(offsets(cells, k).subrange(4 * i, 4 * i + 4) =~= a.subrange(4 * i, 4 * i + 4));
        } else if i == k - 1 {
            assert(offsets(cells, k).subrange(4 * i, 4 * i + 4) =~= b);
        }
    }
}

spec fn has_nulls(cells: Seq<Val>) -> bool {
    exists|i: int| 0 <= i < cells.len() && (#[trigger] cells[i]) is Null
}

proof fn lemma_bits_move(s: Seq<u8>, at: int, t: Seq<u8>, from: int, i: int)
    requires
        s[at + i / 8] == t[from + i / 8],
    ensures
        bit_set(s, at, i) == bit_set(t, from, i),
{
}

proof fn lemma_head(s: Seq<u8>, pre: Seq<u8>, p: PhysType, cells: Seq<Val>, post: Seq<u8>, i: int)
    requires
        s == pre + column_bytes(p, cells) + post,
        writable(p, cells),
    ensures
        ({
            let at = pre.len() as int;
            let v = validity_bytes(cells);
            &&& number_at(s, at, 4) == storage_number(p)
            &&& data_at(s, at) == at + 4 + v.len()
            &&& (number_at(s, at + 4, 4) > 0) == has_nulls(cells)
            &&& has_nulls(cells) && 0 <= i < cells.len() ==> bit_set(s, at + 8, i) == !(cells[i] is Null)
            &&& s == (pre + le(storage_number(p) as int, 4) + v) + data_bytes(p, cells) + post
            &&& (pre + le(storage_number(p) as int, 4) + v).len() == data_at(s, at)
        }),
{
    vstd::arithmetic::power2::lemma2_to64();
    let at = pre.len() as int;
    let a = le(storage_number(p) as int, 4);
    let v = validity_bytes(cells);
    let d = data_bytes(p, cells);
    lemma_le_len(storage_number(p) as int, 4);
    assert(s =~= pre + a + (v + d + post));
    lemma_number_here(s, pre, storage_number(p) as int, 4, v + d + post);
    assert(s =~= (pre + a + v) + d + post);
    let pa = pre + a;
    if has_nulls(cells) {
        let valid = cells.map_values(|v: Val| !(v is Null));
        let n = bitmap_len(valid.len() as int);
        let body = Seq::new(n as nat, |j: int| eight(valid, 8 * j) as u8);
        assert(v == bitmap(valid));
        every_bit_tells_its_row(valid, i);
        lemma_le_len(n, 4);
        assert(s =~= pa + le(n, 4) + (body + d + post));
        lemma_number_here(s, pa, n, 4, body + d + post);
        if 0 <= i < cells.len() {
            assert(valid[i] == !(cells[i] is Null));
            assert(s[at + 8 + i / 8] == v[4 + i / 8]);
            lemma_bits_move(s, at + 8, v, 4, i);
        }
    } else {
        lemma_le_len(0, 4);
        assert(v == le(0, 4));
        assert(s =~= pa + le(0, 4) + (d + post));
        lemma_number_here(s, pa, 0, 4, d + post);
    }
}

/// The numbers of a column are read where they were written.
proof fn lemma_numbers_read(s: Seq<u8>, pre: Seq<u8>, cells: Seq<Val>, w: nat, post: Seq<u8>, i: int)
    requires
        s == pre + (le(w * (cells.len() as int), 4) + numbers(cells, w, cells.len() as int)) + post,
        0 <= w * cells.len() < 0x1_0000_0000,
        w > 0,
        0 <= i < cells.len() ==> -pow2(8 * w) <= cell_number(cells[i]) < pow2(8 * w),
    ensures
        number_at(s, pre.len() as int, 4) == w * cells.len(),
        s.len() == pre.len() + 4 + w * cells.len() + post.len(),
        0 <= i < cells.len() ==> number_at(s, pre.len() + 4 + w * i, w) == if cell_number(cells[i]) >= 0 {
            cell_number(cells[i])
        } else {
            cell_number(cells[i]) + pow2(8 * w)
        },
{
    vstd::arithmetic::power2::lemma2_to64();
    let n = cells.len() as int;
    let ns = numbers(cells, w, n);
    lemma_numbers(cells, w, n, i);
    assert(n * w == w * n && i * w == w * i) by (nonlinear_arith);
    lemma_le_len(w * n, 4);
    assert(s =~= pre + le(w * n, 4) + (ns + post));
    lemma_number_here(s, pre, w * n, 4, ns + post);
    if 0 <= i < n {
        let at = pre.len() + 4 + w * i;
        assert(s.subrange(at, at + w) =~= ns.subrange(i * w, i * w + w));
        lemma_number_at(s, at, w, cell_number(cells[i]));
    }
}

proof fn lemma_texts_read(s: Seq<u8>, pre: Seq<u8>, cells: Seq<Val>, post: Seq<u8>, i: int)
    requires
        s == pre + data_bytes(PhysType::Bytes, cells) + post,
        writable(PhysType::Bytes, cells),
        0 <= i < cells.len(),
    ensures
        ({
            let d = pre.len() as int;
            let e = d + 4 + number_at(s, d, 4);
            &&& e + 4 + number_at(s, e, 4) == s.len() - post.len()
            &&& s.subrange(
                e + 4 + number_at(s, d + 4 + 4 * i, 4),
                e + 4 + number_at(s, d + 8 + 4 * i, 4),
            ) == cell_text(cells[i])
        }),
{
    vstd::arithmetic::power2::lemma2_to64();
    let n = cells.len() as int;
    let os = offsets(cells, n + 1);
    let ts = texts(cells, n);
    let d = pre.len() as int;
    lemma_offsets(cells, n + 1, i);
    lemma_offsets(cells, n + 1, i + 1);
    lemma_texts(cells, n, i);
    let l1 = le(4 * (n + 1), 4);
    let l2 = le(ts.len() as int, 4);
    lemma_le_len(4 * (n + 1), 4);
    lemma_le_len(ts.len() as int, 4);
    assert(s =~= pre + l1 + (os + l2 + ts + post));
    lemma_number_here(s, pre, 4 * (n + 1), 4, os + l2 + ts + post);
    let e = d + 4 + number_at(s, d, 4);
    assert(s =~= (pre + l1 + os) + l2 + (ts + post));
    lemma_number_here(s, pre + l1 + os, ts.len() as int, 4, ts + post);
    assert((pre + l1 + os).len() == e);
    let a = texts(cells, i).len() as int;
    let b = texts(cells, i + 1).len() as int;
    assert(s.subrange(d + 4 + 4 * i, d + 4 + 4 * i + 4) =~= os.subrange(4 * i, 4 * i + 4));
    lemma_number_at(s, d + 4 + 4 * i, 4, a);
    assert(s.subrange(d + 8 + 4 * i, d + 8 + 4 * i + 4) =~= os.subrange(4 * (i + 1), 4 * (i + 1) + 4));
    lemma_number_at(s, d + 8 + 4 * i, 4, b);
    assert(s.subrange(e + 4 + a, e + 4 + b) =~= ts.subrange(a, b));
}

proof fn lemma_no_texts(s: Seq<u8>, pre: Seq<u8>, cells: Seq<Val>, post: Seq<u8>)
    requires
        s == pre + data_bytes(PhysType::Bytes, cells) + post,
        cells.len() == 0,
    ensures
        ({
            let d = pre.len() as int;
            let e = d + 4 + number_at(s, d, 4);
            e + 4 + number_at(s, e, 4) == s.len() - post.len()
        }),
{
    vstd::arithmetic::power2::lemma2_to64();
    let os = offsets(cells, 1);
    lemma_offsets(cells, 1, 0);
    let d = pre.len() as int;
    let l1 = le(4, 4);
    let l2 = le(0, 4);
    lemma_le_len(4, 4);
    lemma_le_len(0, 4);
    assert(texts(cells, 0) =~= Seq::empty());
    assert(s =~= pre + l1 + (os + l2 + post));
    lemma_number_here(s, pre, 4, 4, os + l2 + post);
    assert(s =~= (pre + l1 + os) + l2 + post);
    lemma_number_here(s, pre + l1 + os, 0, 4, post);
}

/// A written column is read back: each row's cell is what it was, NULL or not, and the column
/// ends where the next one begins.
#[verifier::rlimit(40)]
pub proof fn a_column_is_read_back(s: Seq<u8>, pre: Seq<u8>, p: PhysType, cells: Seq<Val>, post: Seq<u8>, i: int)
    requires
        s == pre + column_bytes(p, cells) + post,
        writable(p, cells),
    ensures
        0 <= i < cells.len() ==> cell_at(s, pre.len() as int, i) == cells[i],
        column_end(s, pre.len() as int) == s.len() - post.len(),
{
    let at = pre.len() as int;
    let n = cells.len() as int;
    lemma_head(s, pre, p, cells, post, i);
    let front = pre + le(storage_number(p) as int, 4) + validity_bytes(cells);
    let d = data_at(s, at);
    vstd::arithmetic::power2::lemma2_to64();
    vstd::arithmetic::power2::lemma2_to64_rest();
    vstd::arithmetic::power2::lemma_pow2_adds(64, 64);
    assert(cells.len() == n);
    match p {
        PhysType::Bool => {
            let set = cells.map_values(|v: Val| v == Val::Bool(true));
            let body = Seq::new(bitmap_len(set.len() as int) as nat, |j: int| eight(set, 8 * j) as u8);
            every_bit_tells_its_row(set, i);
            lemma_le_len(bitmap_len(set.len() as int), 4);
            assert(s =~= front + le(bitmap_len(set.len() as int), 4) + (body + post));
            lemma_number_here(s, front, bitmap_len(set.len() as int), 4, body + post);
            if 0 <= i < n {
                assert(s[d + 4 + i / 8] == bitmap(set)[4 + i / 8]);
                lemma_bits_move(s, d + 4, bitmap(set), 4, i);
                assert(cells[i].fits(p));
                assert(set[i] == (cells[i] == Val::Bool(true)));
            }
        },
        PhysType::I32 => {
            if 0 <= i < n {
                assert(cells[i].fits(p));
            }
            lemma_numbers_read(s, front, cells, 4, post, i);
        },
        PhysType::I64 => {
            if 0 <= i < n {
                assert(cells[i].fits(p));
            }
            lemma_numbers_read(s, front, cells, 8, post, i);
        },
        PhysType::F64 => {
            if 0 <= i < n {
                assert(cells[i].fits(p));
            }
            lemma_numbers_read(s, front, cells, 8, post, i);
        },
        PhysType::I128 => {
            if 0 <= i < n {
                assert(cells[i].fits(p));
            }
            lemma_numbers_read(s, front, cells, 16, post, i);
        },
        PhysType::Bytes => {
            if n == 0 {
                lemma_no_texts(s, front, cells, post);
            } else if 0 <= i < n {
                assert(cells[i].fits(p));
                lemma_texts_read(s, front, cells, post, i);
            } else {
                lemma_texts_read(s, front, cells, post, 0);
            }
        },
    }
}

// --- Batches --------------------------------------------------------------------------------------

/// Where a column of the batch begins.
pub open spec fn column_at(s: Seq<u8>, c: int) -> int
    decreases c,
{
    if c <= 0 {
        12
    } else {
        column_end(s, column_at(s, c - 1))
    }
}

proof fn lemma_columns(s: Seq<u8>, types: Seq<Ty>, rows: Seq<Seq<Val>>, k: int, post: Seq<u8>)
    requires
        0 <= k <= types.len(),
        s == table_bytes(types, rows, k) + post,
        forall|c: int| 0 <= c < types.len() ==> writable(#[trigger] types[c].phys(), column_of(rows, c)),
    ensures
        column_at(s, k) == table_bytes(types, rows, k).len(),
    decreases k,
{
    if k == 0 {
        lemma_le_len(crate::wire::RESULT_MAGIC as int, 4);
        lemma_le_len(types.len() as int, 4);
        lemma_le_len(rows.len() as int, 4);
    } else {
        let pre = table_bytes(types, rows, k - 1);
        let col = column_bytes(types[k - 1].phys(), column_of(rows, k - 1));
        assert(s =~= pre + (col + post));
        lemma_columns(s, types, rows, k - 1, col + post);
        assert(s =~= pre + col + post);
        assert(writable(types[k - 1].phys(), column_of(rows, k - 1)));
        a_column_is_read_back(s, pre, types[k - 1].phys(), column_of(rows, k - 1), post, 0);
    }
}

proof fn lemma_front(types: Seq<Ty>, rows: Seq<Seq<Val>>, k: int, to: int) -> (rest: Seq<u8>)
    requires
        0 <= k <= to,
    ensures
        table_bytes(types, rows, to) == table_bytes(types, rows, k) + rest,
    decreases to,
{
    if k == to {
        assert(table_bytes(types, rows, k) =~= table_bytes(types, rows, k) + Seq::<u8>::empty());
        Seq::empty()
    } else {
        let r = lemma_front(types, rows, k, to - 1);
        let col = column_bytes(types[to - 1].phys(), column_of(rows, to - 1));
        assert(table_bytes(types, rows, to) =~= table_bytes(types, rows, k) + (r + col));
        r + col
    }
}

/// Reading a written batch back gives its cells, NULLs among them: it begins with `AHR1`, the
/// number of columns and the number of rows, and holds the columns one behind another, and
/// nothing else.
pub proof fn a_batch_is_read_back(types: Seq<Ty>, rows: Seq<Seq<Val>>, c: int, i: int)
    requires
        forall|c: int| 0 <= c < types.len() ==> writable(#[trigger] types[c].phys(), column_of(rows, c)),
        types.len() < 0x1_0000_0000,
        rows.len() < 0x1_0000_0000,
    ensures
        ({
            let s = table_bytes(types, rows, types.len() as int);
            &&& number_at(s, 0, 4) == 0x4148_5231
            &&& number_at(s, 4, 4) == types.len()
            &&& number_at(s, 8, 4) == rows.len()
            &&& column_at(s, types.len() as int) == s.len()
            &&& 0 <= c < types.len() && 0 <= i < rows.len() ==> cell_at(s, column_at(s, c), i) == rows[i][c]
        }),
{
    vstd::arithmetic::power2::lemma2_to64();
    let n = types.len() as int;
    let s = table_bytes(types, rows, n);
    let m = le(crate::wire::RESULT_MAGIC as int, 4);
    let a = le(types.len() as int, 4);
    let b = le(rows.len() as int, 4);
    lemma_le_len(crate::wire::RESULT_MAGIC as int, 4);
    lemma_le_len(types.len() as int, 4);
    lemma_le_len(rows.len() as int, 4);
    let rest = lemma_front(types, rows, 0, n);
    assert(s =~= Seq::<u8>::empty() + m + (a + b + rest));
    lemma_number_here(s, Seq::empty(), crate::wire::RESULT_MAGIC as int, 4, a + b + rest);
    assert(s =~= m + a + (b + rest));
    lemma_number_here(s, m, types.len() as int, 4, b + rest);
    assert(s =~= (m + a) + b + rest);
    lemma_number_here(s, m + a, rows.len() as int, 4, rest);
    assert(s =~= table_bytes(types, rows, n) + Seq::<u8>::empty());
    lemma_columns(s, types, rows, n, Seq::empty());
    if 0 <= c < n && 0 <= i < rows.len() {
        let post = lemma_front(types, rows, c + 1, n);
        let pre = table_bytes(types, rows, c);
        let col = column_bytes(types[c].phys(), column_of(rows, c));
        assert(s =~= pre + (col + post));
        lemma_columns(s, types, rows, c, col + post);
        assert(s =~= pre + col + post);
        assert(writable(types[c].phys(), column_of(rows, c)));
        a_column_is_read_back(s, pre, types[c].phys(), column_of(rows, c), post, i);
    }
}

// --- Requests ---------------------------------------------------------------------------------------

proof fn lemma_io_list(io: Seq<IoRequest>, k: int, to: int) -> (rest: Seq<u8>)
    requires
        0 <= k <= to <= io.len(),
    ensures
        io_list(io, to) == io_list(io, k) + rest,
        io_list(io, k).len() == 4 + 24 * k,
        rest.len() == 24 * (to - k),
    decreases to,
{
    if to == 0 {
        lemma_le_len(io.len() as int, 4);
    } else {
        let r = io[to - 1];
        lemma_le_len(r.table as int, 4);
        lemma_le_len(r.part as int, 4);
        lemma_le_len(r.offset as int, 8);
        lemma_le_len(r.len as int, 8);
    }
    if k == to {
        if to > 0 {
            let rest = lemma_io_list(io, to - 1, to - 1);
        }
        assert(io_list(io, k) =~= io_list(io, k) + Seq::<u8>::empty());
        Seq::empty()
    } else {
        let rest = lemma_io_list(io, k, to - 1);
        let b = io_bytes(io[to - 1]);
        assert(io_list(io, to) =~= io_list(io, k) + (rest + b));
        rest + b
    }
}

/// Every byte range that is asked for is read back: the list begins with its length, and each
/// request holds its table, its part, its offset and its length.
pub proof fn byte_ranges_are_read_back(io: Seq<IoRequest>, k: int)
    requires
        0 <= k < io.len(),
        io.len() < 0x1_0000_0000,
        io[k].table < 0x1_0000_0000,
        io[k].part < 0x1_0000_0000,
    ensures
        ({
            let s = io_list(io, io.len() as int);
            let at = 4 + 24 * k;
            &&& s.len() == 4 + 24 * io.len()
            &&& number_at(s, 0, 4) == io.len()
            &&& number_at(s, at, 4) == io[k].table
            &&& number_at(s, at + 4, 4) == io[k].part
            &&& number_at(s, at + 8, 8) == io[k].offset
            &&& number_at(s, at + 16, 8) == io[k].len
        }),
{
    vstd::arithmetic::power2::lemma2_to64();
    vstd::arithmetic::power2::lemma2_to64_rest();
    let n = io.len() as int;
    let s = io_list(io, n);
    let r = io[k];
    let all = lemma_io_list(io, 0, n);
    assert(s =~= Seq::<u8>::empty() + le(n, 4) + all);
    lemma_number_here(s, Seq::empty(), n, 4, all);
    let front = lemma_io_list(io, k, k);
    let rest = lemma_io_list(io, k + 1, n);
    let a = io_list(io, k);
    let t = le(r.table as int, 4);
    let p = le(r.part as int, 4);
    let o = le(r.offset as int, 8);
    let l = le(r.len as int, 8);
    lemma_le_len(r.table as int, 4);
    lemma_le_len(r.part as int, 4);
    lemma_le_len(r.offset as int, 8);
    lemma_le_len(r.len as int, 8);
    assert(s =~= a + t + (p + o + l + rest));
    lemma_number_here(s, a, r.table as int, 4, p + o + l + rest);
    assert(s =~= (a + t) + p + (o + l + rest));
    lemma_number_here(s, a + t, r.part as int, 4, o + l + rest);
    assert(s =~= (a + t + p) + o + (l + rest));
    lemma_number_here(s, a + t + p, r.offset as int, 8, l + rest);
    assert(s =~= (a + t + p + o) + l + rest);
    lemma_number_here(s, a + t + p + o, r.len as int, 8, rest);
}

/// The compression method with a number.
#[verifier::opaque]
pub open spec fn method_of(n: int) -> Option<Compression> {
    let methods = seq![
        Compression::Uncompressed,
        Compression::Snappy,
        Compression::Gzip,
        Compression::Lzo,
        Compression::Brotli,
        Compression::Lz4,
        Compression::Zstd,
        Compression::Lz4Raw,
    ];
    if 0 <= n < methods.len() {
        Some(methods[n])
    } else {
        None
    }
}

proof fn lemma_codec_list(reqs: Seq<CodecRequest>, k: int, to: int) -> (rest: Seq<u8>)
    requires
        0 <= k <= to <= reqs.len(),
    ensures
        codec_list(reqs, to) == codec_list(reqs, k) + rest,
        codec_list(reqs, k).len() == 4 + 28 * k,
        rest.len() == 28 * (to - k),
    decreases to,
{
    if to == 0 {
        lemma_le_len(reqs.len() as int, 4);
    } else {
        let r = reqs[to - 1];
        lemma_le_len(r.table as int, 4);
        lemma_le_len(r.part as int, 4);
        lemma_le_len(crate::wire::codec_code(r.codec) as int, 4);
        lemma_le_len(r.offset as int, 8);
        lemma_le_len(r.len as int, 4);
        lemma_le_len(r.out_len as int, 4);
    }
    if k == to {
        if to > 0 {
            let rest = lemma_codec_list(reqs, to - 1, to - 1);
        }
        assert(codec_list(reqs, k) =~= codec_list(reqs, k) + Seq::<u8>::empty());
        Seq::empty()
    } else {
        let rest = lemma_codec_list(reqs, k, to - 1);
        let b = codec_bytes(reqs[to - 1]);
        assert(codec_list(reqs, to) =~= codec_list(reqs, k) + (rest + b));
        rest + b
    }
}

proof fn lemma_method(c: Compression)
    ensures
        method_of(crate::wire::codec_code(c) as int) == Some(c),
{
    reveal(method_of);
}

/// Every block that is to be decompressed is read back: its table, its part, its method, its
/// offset, its length and the length of what comes out of it.
#[verifier::rlimit(40)]
pub proof fn blocks_are_read_back(reqs: Seq<CodecRequest>, k: int)
    requires
        0 <= k < reqs.len(),
        reqs.len() < 0x1_0000_0000,
        reqs[k].table < 0x1_0000_0000,
        reqs[k].part < 0x1_0000_0000,
    ensures
        ({
            let s = codec_list(reqs, reqs.len() as int);
            let at = 4 + 28 * k;
            &&& s.len() == 4 + 28 * reqs.len()
            &&& number_at(s, 0, 4) == reqs.len()
            &&& number_at(s, at, 4) == reqs[k].table
            &&& number_at(s, at + 4, 4) == reqs[k].part
            &&& method_of(number_at(s, at + 8, 4)) == Some(reqs[k].codec)
            &&& number_at(s, at + 12, 8) == reqs[k].offset
            &&& number_at(s, at + 20, 4) == reqs[k].len
            &&& number_at(s, at + 24, 4) == reqs[k].out_len
        }),
{
    vstd::arithmetic::power2::lemma2_to64();
    vstd::arithmetic::power2::lemma2_to64_rest();
    let n = reqs.len() as int;
    let s = codec_list(reqs, n);
    let r = reqs[k];
    let c = crate::wire::codec_code(r.codec) as int;
    lemma_method(r.codec);
    let all = lemma_codec_list(reqs, 0, n);
    assert(s =~= Seq::<u8>::empty() + le(n, 4) + all);
    lemma_number_here(s, Seq::empty(), n, 4, all);
    let front = lemma_codec_list(reqs, k, k);
    let rest = lemma_codec_list(reqs, k + 1, n);
    let a = codec_list(reqs, k);
    let t = le(r.table as int, 4);
    let p = le(r.part as int, 4);
    let m = le(c, 4);
    let o = le(r.offset as int, 8);
    let l = le(r.len as int, 4);
    let x = le(r.out_len as int, 4);
    lemma_le_len(r.table as int, 4);
    lemma_le_len(r.part as int, 4);
    lemma_le_len(c, 4);
    lemma_le_len(r.offset as int, 8);
    lemma_le_len(r.len as int, 4);
    lemma_le_len(r.out_len as int, 4);
    assert(s =~= a + t + (p + m + o + l + x + rest));
    lemma_number_here(s, a, r.table as int, 4, p + m + o + l + x + rest);
    assert(s =~= (a + t) + p + (m + o + l + x + rest));
    lemma_number_here(s, a + t, r.part as int, 4, m + o + l + x + rest);
    assert(s =~= (a + t + p) + m + (o + l + x + rest));
    lemma_number_here(s, a + t + p, c, 4, o + l + x + rest);
    assert(s =~= (a + t + p + m) + o + (l + x + rest));
    lemma_number_here(s, a + t + p + m, r.offset as int, 8, l + x + rest);
    assert(s =~= (a + t + p + m + o) + l + (x + rest));
    lemma_number_here(s, a + t + p + m + o, r.len as int, 4, x + rest);
    assert(s =~= (a + t + p + m + o + l) + x + rest);
    lemma_number_here(s, a + t + p + m + o + l, r.out_len as int, 4, rest);
}

// --- Schemas -----------------------------------------------------------------------------------------

/// The type with a number, a precision and a scale.
#[verifier::opaque]
pub open spec fn type_of(n: int, precision: int, scale: int) -> Option<Ty> {
    let types = seq![
        Ty::Null,
        Ty::Boolean,
        Ty::TinyInt,
        Ty::SmallInt,
        Ty::Int,
        Ty::BigInt,
        Ty::HugeInt,
        Ty::UTinyInt,
        Ty::USmallInt,
        Ty::UInt,
        Ty::UBigInt,
        Ty::Float,
        Ty::Double,
        Ty::Decimal { precision: precision as u8, scale: scale as u8 },
        Ty::Varchar,
        Ty::Blob,
        Ty::Date,
        Ty::Time,
        Ty::Timestamp,
        Ty::Interval,
        Ty::Json,
        Ty::Uuid,
        Ty::Timestamptz,
    ];
    if 0 <= n < types.len() {
        Some(types[n])
    } else {
        None
    }
}

/// Where the field behind the one at a position begins.
pub open spec fn field_end(s: Seq<u8>, at: int) -> int {
    at + 20 + number_at(s, at + 16, 4)
}

/// Where a field of the schema begins.
pub open spec fn field_at(s: Seq<u8>, c: int) -> int
    decreases c,
{
    if c <= 0 {
        4
    } else {
        field_end(s, field_at(s, c - 1))
    }
}

proof fn lemma_field(s: Seq<u8>, pre: Seq<u8>, f: FieldV, post: Seq<u8>)
    requires
        s == pre + field_bytes(f) + post,
        name_bytes(f.name).len() < 0x1_0000_0000,
    ensures
        ({
            let at = pre.len() as int;
            &&& type_of(number_at(s, at, 4), number_at(s, at + 8, 4), number_at(s, at + 12, 4)) == Some(f.ty)
            &&& number_at(s, at + 4, 4) == storage_number(f.ty.phys())
            &&& s.subrange(at + 20, field_end(s, at)) == name_bytes(f.name)
            &&& field_end(s, at) == s.len() - post.len()
        }),
{
    reveal(type_of);
    vstd::arithmetic::power2::lemma2_to64();
    let n = crate::wire::type_number(f.ty) as int;
    let g = storage_number(f.ty.phys()) as int;
    let (x, y) = crate::wire::decimal_parts(f.ty);
    let nm = name_bytes(f.name);
    let a = le(n, 4);
    let b = le(g, 4);
    let c = le(x, 4);
    let d = le(y, 4);
    let e = le(nm.len() as int, 4);
    lemma_le_len(n, 4);
    lemma_le_len(g, 4);
    lemma_le_len(x, 4);
    lemma_le_len(y, 4);
    lemma_le_len(nm.len() as int, 4);
    assert(s =~= pre + a + (b + c + d + e + nm + post));
    lemma_number_here(s, pre, n, 4, b + c + d + e + nm + post);
    assert(s =~= (pre + a) + b + (c + d + e + nm + post));
    lemma_number_here(s, pre + a, g, 4, c + d + e + nm + post);
    assert(s =~= (pre + a + b) + c + (d + e + nm + post));
    lemma_number_here(s, pre + a + b, x, 4, d + e + nm + post);
    assert(s =~= (pre + a + b + c) + d + (e + nm + post));
    lemma_number_here(s, pre + a + b + c, y, 4, e + nm + post);
    assert(s =~= (pre + a + b + c + d) + e + (nm + post));
    lemma_number_here(s, pre + a + b + c + d, nm.len() as int, 4, nm + post);
    let at = pre.len() as int;
    assert(s.subrange(at + 20, at + 20 + nm.len()) =~= nm);
}

proof fn lemma_fields(s: Seq<u8>, fields: Seq<FieldV>, k: int, post: Seq<u8>)
    requires
        0 <= k <= fields.len(),
        s == schema_bytes(fields, k) + post,
        forall|c: int| 0 <= c < fields.len() ==> name_bytes((#[trigger] fields[c]).name).len() < 0x1_0000_0000,
    ensures
        field_at(s, k) == schema_bytes(fields, k).len(),
    decreases k,
{
    if k == 0 {
        lemma_le_len(fields.len() as int, 4);
    } else {
        let pre = schema_bytes(fields, k - 1);
        let b = field_bytes(fields[k - 1]);
        assert(s =~= pre + (b + post));
        lemma_fields(s, fields, k - 1, b + post);
        assert(s =~= pre + b + post);
        assert(name_bytes(fields[k - 1].name).len() < 0x1_0000_0000);
        lemma_field(s, pre, fields[k - 1], post);
    }
}

proof fn lemma_schema_front(fields: Seq<FieldV>, k: int, to: int) -> (rest: Seq<u8>)
    requires
        0 <= k <= to,
    ensures
        schema_bytes(fields, to) == schema_bytes(fields, k) + rest,
    decreases to,
{
    if k == to {
        assert(schema_bytes(fields, k) =~= schema_bytes(fields, k) + Seq::<u8>::empty());
        Seq::empty()
    } else {
        let r = lemma_schema_front(fields, k, to - 1);
        let b = field_bytes(fields[to - 1]);
        assert(schema_bytes(fields, to) =~= schema_bytes(fields, k) + (r + b));
        r + b
    }
}

proof fn lemma_column_number(p: PhysType, cells: Seq<Val>)
    ensures
        number_at(column_bytes(p, cells), 0, 4) == storage_number(p),
{
    vstd::arithmetic::power2::lemma2_to64();
    let col = column_bytes(p, cells);
    let tail = validity_bytes(cells) + data_bytes(p, cells);
    assert(col =~= Seq::<u8>::empty() + le(storage_number(p) as int, 4) + tail);
    lemma_number_here(col, Seq::empty(), storage_number(p) as int, 4, tail);
}

/// A written schema is read back: the number of columns, and of each its type with precision and
/// scale, its name, and the number with which its columns begin.
pub proof fn a_schema_is_read_back(fields: Seq<FieldV>, c: int, cells: Seq<Val>)
    requires
        0 <= c < fields.len(),
        fields.len() < 0x1_0000_0000,
        forall|c: int| 0 <= c < fields.len() ==> name_bytes((#[trigger] fields[c]).name).len() < 0x1_0000_0000,
    ensures
        ({
            let s = schema_bytes(fields, fields.len() as int);
            let at = field_at(s, c);
            &&& number_at(s, 0, 4) == fields.len()
            &&& type_of(number_at(s, at, 4), number_at(s, at + 8, 4), number_at(s, at + 12, 4)) == Some(fields[c].ty)
            &&& s.subrange(at + 20, field_end(s, at)) == name_bytes(fields[c].name)
            &&& number_at(s, at + 4, 4) == number_at(column_bytes(fields[c].ty.phys(), cells), 0, 4)
            &&& field_at(s, fields.len() as int) == s.len()
        }),
{
    vstd::arithmetic::power2::lemma2_to64();
    let n = fields.len() as int;
    let s = schema_bytes(fields, n);
    let all = lemma_schema_front(fields, 0, n);
    assert(s =~= Seq::<u8>::empty() + le(n, 4) + all);
    lemma_number_here(s, Seq::empty(), n, 4, all);
    assert(s =~= schema_bytes(fields, n) + Seq::<u8>::empty());
    lemma_fields(s, fields, n, Seq::empty());
    let post = lemma_schema_front(fields, c + 1, n);
    let pre = schema_bytes(fields, c);
    let b = field_bytes(fields[c]);
    assert(s =~= pre + (b + post));
    lemma_fields(s, fields, c, b + post);
    assert(s =~= pre + b + post);
    assert(name_bytes(fields[c].name).len() < 0x1_0000_0000);
    lemma_field(s, pre, fields[c], post);
    lemma_column_number(fields[c].ty.phys(), cells);
}

} // verus!
