//! What is exchanged with the host as bytes.
//!
//! Numbers are little-endian. A list starts with its length.

use crate::error::{Code, Error};
use crate::exec::{CodecRequest, IoRequest};
use crate::format::Compression;
use crate::hash::copy_bytes;
use crate::vector::{fields_of, name_bytes, Batch, Field, FieldV, PhysType, Ty, Val, Value, Vector, MAX_ROWS};
use vstd::prelude::*;
use vstd::utf8::{decode_utf8, valid_utf8};

verus! {

// --- Numbers ------------------------------------------------------------------------------

/// The lowest `n` bytes of a number in two's complement, the lowest first.
pub open spec fn le(v: int, n: nat) -> Seq<u8>
    decreases n,
{
    if n == 0 {
        Seq::empty()
    } else {
        seq![(v % 256) as u8] + le(v / 256, (n - 1) as nat)
    }
}

/// The number that bytes stand for, the lowest first.
pub open spec fn of_le(s: Seq<u8>) -> int
    decreases s.len(),
{
    if s.len() == 0 {
        0
    } else {
        s[0] as int + 256 * of_le(s.skip(1))
    }
}

/// `256^n`.
pub open spec fn pow256(n: nat) -> int
    decreases n,
{
    if n == 0 {
        1
    } else {
        256 * pow256((n - 1) as nat)
    }
}

pub(crate) proof fn lemma_le_len(v: int, n: nat)
    ensures
        le(v, n).len() == n,
    decreases n,
{
    if n > 0 {
        lemma_le_len(v / 256, (n - 1) as nat);
    }
}

/// A number that fits is read back as it was written; a negative one is read
/// back as its two's complement.
pub proof fn numbers_round_trip(v: int, n: nat)
    requires
        -pow256(n) <= v < pow256(n),
    ensures
        of_le(le(v, n)) == if v >= 0 {
            v
        } else {
            v + pow256(n)
        },
    decreases n,
{
    if n > 0 {
        let rest = le(v / 256, (n - 1) as nat);
        assert(le(v, n).skip(1) =~= rest);
        numbers_round_trip(v / 256, (n - 1) as nat);
    }
}

/// The number that bytes stand for fits in as many bytes.
proof fn lemma_of_le_bound(s: Seq<u8>)
    ensures
        0 <= of_le(s) < pow256(s.len()),
    decreases s.len(),
{
    if s.len() > 0 {
        lemma_of_le_bound(s.skip(1));
    }
}

proof fn lemma_pow256_grows(a: nat, b: nat)
    requires
        a <= b,
    ensures
        0 < pow256(a) <= pow256(b),
    decreases b,
{
    if b > 0 {
        lemma_pow256_grows(
            if a < b {
                a
            } else {
                (a - 1) as nat
            },
            (b - 1) as nat,
        );
    }
}

/// Writes the lowest `n` bytes of a number.
pub fn put_le(out: &mut Vec<u8>, v: i128, n: usize)
    ensures
        final(out)@ == old(out)@ + le(v as int, n as nat),
{
    let mut x: i128 = v;
    let mut i: usize = 0;
    let ghost all = old(out)@ + le(v as int, n as nat);
    while i < n
        invariant
            i <= n,
            out@ + le(x as int, (n - i) as nat) == all,
        decreases n - i,
    {
        let ghost before = out@;
        let ghost x0 = x;
        if x >= 0 {
            out.push((x % 256) as u8);
            x = x / 256;
        } else {
            let y: i128 = -(x + 1);
            out.push((255 - y % 256) as u8);
            x = -(y / 256) - 1;
        }
        proof {
            assert(out@ == before.push((x0 as int % 256) as u8));
            assert(x as int == x0 as int / 256);
            assert(before + le(x0 as int, (n - i) as nat) =~= out@ + le(x as int, (n - i - 1) as nat));
        }
        i = i + 1;
    }
    assert(out@ =~= all);
}

pub fn put_u32(out: &mut Vec<u8>, v: u32)
    ensures
        final(out)@ == old(out)@ + le(v as int, 4),
{
    put_le(out, v as i128, 4);
}

pub fn put_u64(out: &mut Vec<u8>, v: u64)
    ensures
        final(out)@ == old(out)@ + le(v as int, 8),
{
    put_le(out, v as i128, 8);
}

/// Writes the low 32 bits of a length or an index.
fn put_len(out: &mut Vec<u8>, n: usize)
    ensures
        final(out)@ == old(out)@ + le(n as int, 4),
{
    put_le(out, n as i128, 4);
}

/// The number in the `n` bytes at a position.
fn read_le(buf: &[u8], pos: usize, n: usize) -> (v: u64)
    requires
        n <= 8,
        pos + n <= buf@.len(),
    ensures
        v == of_le(buf@.subrange(pos as int, pos + n)),
{
    let mut v: u64 = 0;
    let mut i: usize = n;
    let len: usize = buf.len();
    assert(buf@.subrange(pos + n, pos + n) =~= Seq::empty());
    while i > 0
        invariant
            i <= n <= 8,
            len == buf@.len(),
            pos + n <= len,
            v == of_le(buf@.subrange(pos + i, pos + n)),
        decreases i,
    {
        i = i - 1;
        let ghost tail = buf@.subrange(pos + i + 1, pos + n);
        let ghost now = buf@.subrange(pos + i, pos + n);
        proof {
            assert(now.skip(1) =~= tail);
            lemma_of_le_bound(tail);
            lemma_pow256_grows(tail.len(), 7);
            reveal_with_fuel(pow256, 9);
        }
        v = v * 256 + buf[pos + i] as u64;
    }
    v
}

// --- Requests -----------------------------------------------------------------------------

pub open spec fn io_bytes(r: IoRequest) -> Seq<u8> {
    le(r.table as int, 4) + le(r.part as int, 4) + le(r.offset as int, 8) + le(r.len as int, 8)
}

/// The first `k` requests, one after another.
pub open spec fn io_list(io: Seq<IoRequest>, k: int) -> Seq<u8>
    decreases k,
{
    if k <= 0 {
        le(io.len() as int, 4)
    } else {
        io_list(io, k - 1) + io_bytes(io[k - 1])
    }
}

/// The byte ranges asked for: `[count] {table, part, offset, len}...`.
pub fn encode_io(io: &Vec<IoRequest>) -> (out: Vec<u8>)
    ensures
        out@ == io_list(io@, io@.len() as int),
{
    let mut out: Vec<u8> = Vec::new();
    put_len(&mut out, io.len());
    assert(out@ =~= le(io@.len() as int, 4));
    let mut i: usize = 0;
    while i < io.len()
        invariant
            i <= io@.len(),
            out@ == io_list(io@, i as int),
        decreases io@.len() - i,
    {
        let r: IoRequest = io[i];
        let ghost before = out@;
        put_len(&mut out, r.table);
        put_len(&mut out, r.part);
        put_u64(&mut out, r.offset);
        put_u64(&mut out, r.len);
        assert(out@ =~= before + io_bytes(r));
        i = i + 1;
    }
    out
}

/// The number of a compression method.
pub open spec fn codec_code(c: Compression) -> u32 {
    match c {
        Compression::Uncompressed => 0,
        Compression::Snappy => 1,
        Compression::Gzip => 2,
        Compression::Lzo => 3,
        Compression::Brotli => 4,
        Compression::Lz4 => 5,
        Compression::Zstd => 6,
        Compression::Lz4Raw => 7,
    }
}

fn codec_number(c: Compression) -> (n: u32)
    ensures
        n == codec_code(c),
{
    match c {
        Compression::Uncompressed => 0,
        Compression::Snappy => 1,
        Compression::Gzip => 2,
        Compression::Lzo => 3,
        Compression::Brotli => 4,
        Compression::Lz4 => 5,
        Compression::Zstd => 6,
        Compression::Lz4Raw => 7,
    }
}

pub open spec fn codec_bytes(r: CodecRequest) -> Seq<u8> {
    le(r.table as int, 4) + le(r.part as int, 4) + le(codec_code(r.codec) as int, 4) + le(r.offset as int, 8) + le(
        r.len as int,
        4,
    ) + le(r.out_len as int, 4)
}

pub open spec fn codec_list(reqs: Seq<CodecRequest>, k: int) -> Seq<u8>
    decreases k,
{
    if k <= 0 {
        le(reqs.len() as int, 4)
    } else {
        codec_list(reqs, k - 1) + codec_bytes(reqs[k - 1])
    }
}

/// The blocks to be decompressed: `[count] {table, part, codec, offset, len, out_len}...`.
pub fn encode_codec(reqs: &Vec<CodecRequest>) -> (out: Vec<u8>)
    ensures
        out@ == codec_list(reqs@, reqs@.len() as int),
{
    let mut out: Vec<u8> = Vec::new();
    put_len(&mut out, reqs.len());
    assert(out@ =~= le(reqs@.len() as int, 4));
    let mut i: usize = 0;
    while i < reqs.len()
        invariant
            i <= reqs@.len(),
            out@ == codec_list(reqs@, i as int),
        decreases reqs@.len() - i,
    {
        let r: CodecRequest = reqs[i];
        let ghost before = out@;
        put_len(&mut out, r.table);
        put_len(&mut out, r.part);
        put_u32(&mut out, codec_number(r.codec));
        put_u64(&mut out, r.offset);
        put_u32(&mut out, r.len);
        put_u32(&mut out, r.out_len);
        assert(out@ =~= before + codec_bytes(r));
        i = i + 1;
    }
    out
}

// --- Schemas ------------------------------------------------------------------------------

/// The number of a logical type.
pub open spec fn type_number(t: Ty) -> u32 {
    match t {
        Ty::Null => 0,
        Ty::Boolean => 1,
        Ty::TinyInt => 2,
        Ty::SmallInt => 3,
        Ty::Int => 4,
        Ty::BigInt => 5,
        Ty::HugeInt => 6,
        Ty::UTinyInt => 7,
        Ty::USmallInt => 8,
        Ty::UInt => 9,
        Ty::UBigInt => 10,
        Ty::Float => 11,
        Ty::Double => 12,
        Ty::Decimal { precision, scale } => 13,
        Ty::Varchar => 14,
        Ty::Blob => 15,
        Ty::Date => 16,
        Ty::Time => 17,
        Ty::Timestamp => 18,
        Ty::Interval => 19,
        Ty::Json => 20,
        Ty::Uuid => 21,
        Ty::Timestamptz => 22,
    }
}

pub fn ty_code(t: Ty) -> (n: u32)
    ensures
        n == type_number(t),
{
    match t {
        Ty::Null => 0,
        Ty::Boolean => 1,
        Ty::TinyInt => 2,
        Ty::SmallInt => 3,
        Ty::Int => 4,
        Ty::BigInt => 5,
        Ty::HugeInt => 6,
        Ty::UTinyInt => 7,
        Ty::USmallInt => 8,
        Ty::UInt => 9,
        Ty::UBigInt => 10,
        Ty::Float => 11,
        Ty::Double => 12,
        Ty::Decimal { precision: _, scale: _ } => 13,
        Ty::Varchar => 14,
        Ty::Blob => 15,
        Ty::Date => 16,
        Ty::Time => 17,
        Ty::Timestamp => 18,
        Ty::Interval => 19,
        Ty::Json => 20,
        Ty::Uuid => 21,
        Ty::Timestamptz => 22,
    }
}

/// The number of a physical type.
pub open spec fn storage_number(p: PhysType) -> u32 {
    match p {
        PhysType::Bool => 0,
        PhysType::I32 => 1,
        PhysType::I64 => 2,
        PhysType::F64 => 3,
        PhysType::I128 => 4,
        PhysType::Bytes => 5,
    }
}

fn phys_code(p: PhysType) -> (n: u32)
    ensures
        n == storage_number(p),
{
    match p {
        PhysType::Bool => 0,
        PhysType::I32 => 1,
        PhysType::I64 => 2,
        PhysType::F64 => 3,
        PhysType::I128 => 4,
        PhysType::Bytes => 5,
    }
}

/// The precision and the scale of a decimal; no other type has any.
pub open spec fn decimal_parts(t: Ty) -> (int, int) {
    match t {
        Ty::Decimal { precision, scale } => (precision as int, scale as int),
        _ => (0, 0),
    }
}

pub open spec fn field_bytes(f: FieldV) -> Seq<u8> {
    le(type_number(f.ty) as int, 4) + le(storage_number(f.ty.phys()) as int, 4) + le(decimal_parts(f.ty).0, 4) + le(
        decimal_parts(f.ty).1,
        4,
    ) + le(name_bytes(f.name).len() as int, 4) + name_bytes(f.name)
}

pub open spec fn schema_bytes(fields: Seq<FieldV>, k: int) -> Seq<u8>
    decreases k,
{
    if k <= 0 {
        le(fields.len() as int, 4)
    } else {
        schema_bytes(fields, k - 1) + field_bytes(fields[k - 1])
    }
}

/// The columns: `[count] {type, storage, precision, scale, name_len, name}...`.
pub fn encode_schema(fields: &Vec<Field>) -> (out: Vec<u8>)
    ensures
        out@ == schema_bytes(fields_of(fields@), fields@.len() as int),
{
    let mut out: Vec<u8> = Vec::new();
    put_len(&mut out, fields.len());
    assert(out@ =~= le(fields_of(fields@).len() as int, 4));
    let mut i: usize = 0;
    while i < fields.len()
        invariant
            i <= fields@.len(),
            out@ == schema_bytes(fields_of(fields@), i as int),
        decreases fields@.len() - i,
    {
        let f: &Field = &fields[i];
        let ghost before = out@;
        put_u32(&mut out, ty_code(f.ty));
        put_u32(&mut out, phys_code(f.ty.phys()));
        let (p, sc): (u32, u32) = match f.ty {
            Ty::Decimal { precision, scale } => (precision as u32, scale as u32),
            _ => (0, 0),
        };
        put_u32(&mut out, p);
        put_u32(&mut out, sc);
        let name: &[u8] = f.name.as_str().as_bytes();
        put_len(&mut out, name.len());
        out.extend_from_slice(name);
        assert(out@ =~= before + field_bytes(fields_of(fields@)[i as int]));
        i = i + 1;
    }
    out
}

// --- Batches ------------------------------------------------------------------------------

/// What a batch starts with: "AHR1".
pub const RESULT_MAGIC: u32 = 0x4148_5231;

/// The bit at a position; behind the end there are zeros.
pub open spec fn bit(bits: Seq<bool>, at: int) -> int {
    if 0 <= at < bits.len() && bits[at] {
        1
    } else {
        0
    }
}

/// Eight bits, the first the lowest.
pub open spec fn eight(bits: Seq<bool>, at: int) -> int {
    bit(bits, at) + 2 * bit(bits, at + 1) + 4 * bit(bits, at + 2) + 8 * bit(bits, at + 3) + 16 * bit(bits, at + 4)
        + 32 * bit(bits, at + 5) + 64 * bit(bits, at + 6) + 128 * bit(bits, at + 7)
}

/// The bytes of a bitmap, which is made of whole 64-bit words.
pub open spec fn bitmap_len(n: int) -> int {
    8 * ((n + 63) / 64)
}

/// A bitmap behind its length in bytes.
pub open spec fn bitmap(bits: Seq<bool>) -> Seq<u8> {
    le(bitmap_len(bits.len() as int), 4) + Seq::new(
        bitmap_len(bits.len() as int) as nat,
        |j: int| eight(bits, 8 * j) as u8,
    )
}

fn bit_at(bits: &Vec<bool>, at: u64) -> (b: u8)
    ensures
        b == bit(bits@, at as int),
{
    if at < bits.len() as u64 && bits[at as usize] {
        1
    } else {
        0
    }
}

fn put_bitmap(out: &mut Vec<u8>, bits: &Vec<bool>)
    requires
        bits@.len() <= MAX_ROWS,
    ensures
        final(out)@ == old(out)@ + bitmap(bits@),
{
    let n: usize = ((bits.len() as u64 + 63) / 64 * 8) as usize;
    put_len(out, n);
    let ghost start = out@;
    let mut j: usize = 0;
    while j < n
        invariant
            j <= n,
            n == bitmap_len(bits@.len() as int),
            bits@.len() <= MAX_ROWS,
            out@ == start + Seq::new(j as nat, |j: int| eight(bits@, 8 * j) as u8),
        decreases n - j,
    {
        let at: u64 = 8 * (j as u64);
        let b: u8 = bit_at(bits, at) + 2 * bit_at(bits, at + 1) + 4 * bit_at(bits, at + 2) + 8 * bit_at(bits, at + 3)
            + 16 * bit_at(bits, at + 4) + 32 * bit_at(bits, at + 5) + 64 * bit_at(bits, at + 6) + 128 * bit_at(
            bits,
            at + 7,
        );
        let ghost before = out@;
        out.push(b);
        proof {
            let f = |j: int| eight(bits@, 8 * j) as u8;
            assert(Seq::new(j as nat + 1, f) =~= Seq::new(j as nat, f).push(b));
            assert(out@ =~= start + Seq::new(j as nat + 1, f));
        }
        j = j + 1;
    }
    assert(out@ =~= old(out)@ + bitmap(bits@));
}

/// The number that stands for a cell in an array of numbers; NULL leaves a zero.
pub open spec fn cell_number(v: Val) -> int {
    match v {
        Val::I32(x) => x as int,
        Val::I64(x) => x as int,
        Val::I128(x) => x as int,
        Val::F64(bits) => bits as int,
        _ => 0,
    }
}

/// The first `k` cells as numbers of `w` bytes.
pub open spec fn numbers(cells: Seq<Val>, w: nat, k: int) -> Seq<u8>
    decreases k,
{
    if k <= 0 {
        Seq::empty()
    } else {
        numbers(cells, w, k - 1) + le(cell_number(cells[k - 1]), w)
    }
}

/// The byte string of a cell; NULL leaves an empty one.
pub open spec fn cell_text(v: Val) -> Seq<u8> {
    match v {
        Val::Bytes(s) => s,
        _ => Seq::empty(),
    }
}

/// The byte strings of the first `k` cells, one behind another.
pub open spec fn texts(cells: Seq<Val>, k: int) -> Seq<u8>
    decreases k,
{
    if k <= 0 {
        Seq::empty()
    } else {
        texts(cells, k - 1) + cell_text(cells[k - 1])
    }
}

/// Where the first `k` byte strings begin.
pub open spec fn offsets(cells: Seq<Val>, k: int) -> Seq<u8>
    decreases k,
{
    if k <= 0 {
        Seq::empty()
    } else {
        offsets(cells, k - 1) + le(texts(cells, k - 1).len() as int, 4)
    }
}

/// The cells of a column behind their length in bytes. Byte strings lie one
/// behind another behind the list of the positions where they begin, which
/// ends with where the last one ends.
pub open spec fn data_bytes(p: PhysType, cells: Seq<Val>) -> Seq<u8> {
    let n = cells.len() as int;
    match p {
        PhysType::Bool => bitmap(cells.map_values(|v: Val| v == Val::Bool(true))),
        PhysType::I32 => le(4 * n, 4) + numbers(cells, 4, n),
        PhysType::I64 | PhysType::F64 => le(8 * n, 4) + numbers(cells, 8, n),
        PhysType::I128 => le(16 * n, 4) + numbers(cells, 16, n),
        PhysType::Bytes => le(4 * (n + 1), 4) + offsets(cells, n + 1) + le(texts(cells, n).len() as int, 4) + texts(
            cells,
            n,
        ),
    }
}

/// Which cells are not NULL; nothing where all are.
pub open spec fn validity_bytes(cells: Seq<Val>) -> Seq<u8> {
    if exists|i: int| 0 <= i < cells.len() && (#[trigger] cells[i]) is Null {
        bitmap(cells.map_values(|v: Val| !(v is Null)))
    } else {
        le(0, 4)
    }
}

pub open spec fn column_bytes(p: PhysType, cells: Seq<Val>) -> Seq<u8> {
    le(storage_number(p) as int, 4) + validity_bytes(cells) + data_bytes(p, cells)
}

/// The first `k` columns of a batch.
pub open spec fn batch_bytes(b: Batch, k: int) -> Seq<u8>
    decreases k,
{
    if k <= 0 {
        le(RESULT_MAGIC as int, 4) + le(b.cols@.len() as int, 4) + le(b.spec_card(), 4)
    } else {
        batch_bytes(b, k - 1) + column_bytes(b.cols@[k - 1].ty().phys(), b.cols@[k - 1]@)
    }
}

/// The cells of one column.
pub open spec fn column_of(rows: Seq<Seq<Val>>, c: int) -> Seq<Val> {
    rows.map_values(|row: Seq<Val>| row[c])
}

/// The first `k` columns of a table of rows.
pub open spec fn table_bytes(types: Seq<Ty>, rows: Seq<Seq<Val>>, k: int) -> Seq<u8>
    decreases k,
{
    if k <= 0 {
        le(RESULT_MAGIC as int, 4) + le(types.len() as int, 4) + le(rows.len() as int, 4)
    } else {
        table_bytes(types, rows, k - 1) + column_bytes(types[k - 1].phys(), column_of(rows, k - 1))
    }
}

/// Without a selection, the columns as they are stored are those of the rows.
proof fn lemma_stored_rows(b: Batch, k: int)
    requires
        b.wf(),
        b.sel is None,
        k <= b.cols@.len(),
    ensures
        batch_bytes(b, k) == table_bytes(b.types(), b.rows(), k),
    decreases k,
{
    if k > 0 {
        lemma_stored_rows(b, k - 1);
        assert(column_of(b.rows(), k - 1) =~= b.cols@[k - 1]@);
    }
}

fn put_numbers(out: &mut Vec<u8>, v: &Vector, w: usize)
    requires
        w <= 16,
    ensures
        final(out)@ == old(out)@ + le(w * v@.len(), 4) + numbers(v@, w as nat, v@.len() as int),
{
    let n: usize = v.len();
    proof {
        assert(0 <= n * w <= 16 * n && n * w == w * n) by (nonlinear_arith)
            requires
                0 <= w <= 16,
                0 <= n,
        ;
    }
    put_le(out, n as i128 * w as i128, 4);
    let ghost start = out@;
    let mut i: usize = 0;
    while i < n
        invariant
            i <= n,
            n == v@.len(),
            out@ == start + numbers(v@, w as nat, i as int),
        decreases n - i,
    {
        let ghost before = out@;
        let x: i128 = match v.cell(i) {
            Value::I32(x) => *x as i128,
            Value::I64(x) => *x as i128,
            Value::I128(x) => *x,
            Value::F64(x) => *x as i128,
            _ => 0,
        };
        put_le(out, x, w);
        assert(out@ =~= start + numbers(v@, w as nat, i + 1));
        i = i + 1;
    }
    assert(start =~= old(out)@ + le(w * v@.len(), 4));
}

fn put_texts(out: &mut Vec<u8>, v: &Vector)
    ensures
        final(out)@ == old(out)@ + data_bytes(PhysType::Bytes, v@),
{
    let n: usize = v.len();
    put_le(out, 4 * (n as i128 + 1), 4);
    let ghost start = out@;
    let mut data: Vec<u8> = Vec::new();
    let mut i: usize = 0;
    while i < n
        invariant
            i <= n,
            n == v@.len(),
            data@ == texts(v@, i as int),
            out@ == start + offsets(v@, i as int),
        decreases n - i,
    {
        put_len(out, data.len());
        match v.cell(i) {
            Value::Bytes(s) => data.extend_from_slice(s.as_slice()),
            _ => {},
        }
        assert(data@ =~= texts(v@, i + 1));
        assert(out@ =~= start + offsets(v@, i + 1));
        i = i + 1;
    }
    put_len(out, data.len());
    put_len(out, data.len());
    out.extend_from_slice(data.as_slice());
    assert(out@ =~= old(out)@ + data_bytes(PhysType::Bytes, v@));
}

fn put_column(out: &mut Vec<u8>, v: &Vector)
    requires
        v@.len() <= MAX_ROWS,
    ensures
        final(out)@ == old(out)@ + column_bytes(v.ty().phys(), v@),
{
    let p: PhysType = v.phys();
    let n: usize = v.len();
    put_u32(out, phys_code(p));
    let mut valid: Vec<bool> = Vec::new();
    let mut set: Vec<bool> = Vec::new();
    let mut nulls: bool = false;
    let mut i: usize = 0;
    while i < n
        invariant
            i <= n,
            n == v@.len(),
            valid@ == v@.take(i as int).map_values(|v: Val| !(v is Null)),
            set@ == v@.take(i as int).map_values(|v: Val| v == Val::Bool(true)),
            nulls == exists|j: int| 0 <= j < i && (#[trigger] v@[j]) is Null,
        decreases n - i,
    {
        let c: &Value = v.cell(i);
        let null: bool = c.is_null();
        let on: bool = match c {
            Value::Bool(b) => *b,
            _ => false,
        };
        assert(v@.take(i as int + 1) =~= v@.take(i as int).push(v@[i as int]));
        assert(on == (v@[i as int] == Val::Bool(true)));
        valid.push(!null);
        set.push(on);
        proof {
            assert(valid@ =~= v@.take(i as int + 1).map_values(|v: Val| !(v is Null)));
            assert(set@ =~= v@.take(i as int + 1).map_values(|v: Val| v == Val::Bool(true)));
        }
        nulls = nulls || null;
        i = i + 1;
    }
    assert(v@.take(i as int) =~= v@);
    if nulls {
        put_bitmap(out, &valid);
    } else {
        put_len(out, 0);
    }
    let ghost before = out@;
    assert(before =~= old(out)@ + le(storage_number(p) as int, 4) + validity_bytes(v@));
    match p {
        PhysType::Bool => put_bitmap(out, &set),
        PhysType::I32 => put_numbers(out, v, 4),
        PhysType::I64 | PhysType::F64 => put_numbers(out, v, 8),
        PhysType::I128 => put_numbers(out, v, 16),
        PhysType::Bytes => put_texts(out, v),
    }
    assert(out@ =~= before + data_bytes(p, v@));
    assert(out@ =~= old(out)@ + column_bytes(p, v@));
}

/// A batch: the magic, the numbers of columns and of rows, and the columns as
/// they are stored. The rows of a batch with a selection have to be gathered
/// first ([`Batch::materialize`]).
pub fn encode_batch(b: &Batch) -> (out: Vec<u8>)
    requires
        b.wf(),
    ensures
        out@ == batch_bytes(*b, b.cols@.len() as int),
        b.sel is None ==> out@ == table_bytes(b.types(), b.rows(), b.types().len() as int),
{
    let mut out: Vec<u8> = Vec::new();
    put_u32(&mut out, RESULT_MAGIC);
    put_len(&mut out, b.cols.len());
    put_len(&mut out, b.card());
    assert(out@ =~= batch_bytes(*b, 0));
    let mut c: usize = 0;
    while c < b.cols.len()
        invariant
            b.wf(),
            c <= b.cols@.len(),
            out@ == batch_bytes(*b, c as int),
        decreases b.cols@.len() - c,
    {
        put_column(&mut out, &b.cols[c]);
        c = c + 1;
    }
    proof {
        if b.sel is None {
            lemma_stored_rows(*b, c as int);
        }
    }
    out
}

// --- Parameters ---------------------------------------------------------------------------

/// The most entries that a list from the host may have.
pub const MAX_ENTRIES: usize = 4096;

/// A 64-bit pattern as a signed number.
pub open spec fn signed64(x: int) -> int {
    if x < 0x8000_0000_0000_0000 {
        x
    } else {
        x - 0x1_0000_0000_0000_0000
    }
}

/// Reads `n` entries, each by `one`, which gives an entry and how many bytes it takes.
pub open spec fn entries<T>(one: spec_fn(Seq<u8>) -> Result<(T, nat), Code>, s: Seq<u8>, n: nat) -> Result<Seq<T>, Code>
    decreases n,
{
    if n == 0 {
        Ok(Seq::empty())
    } else {
        match one(s) {
            Err(e) => Err(e),
            Ok((v, len)) => after(seq![v], entries(one, s.skip(len as int), (n - 1) as nat)),
        }
    }
}

/// Entries that go before others, if those could be read.
pub open spec fn after<T>(first: Seq<T>, rest: Result<Seq<T>, Code>) -> Result<Seq<T>, Code> {
    match rest {
        Ok(r) => Ok(first + r),
        Err(e) => Err(e),
    }
}

/// A list behind its length.
pub open spec fn list<T>(one: spec_fn(Seq<u8>) -> Result<(T, nat), Code>, s: Seq<u8>) -> Result<Seq<T>, Code> {
    if s.len() < 4 {
        Err(Code::UnexpectedEof)
    } else if of_le(s.take(4)) > MAX_ENTRIES {
        Err(Code::LimitExceeded)
    } else {
        entries(one, s.skip(4), of_le(s.take(4)) as nat)
    }
}

/// One parameter: a tag and what belongs to it.
pub open spec fn param(s: Seq<u8>) -> Result<(Val, nat), Code> {
    if s.len() == 0 {
        Err(Code::UnexpectedEof)
    } else if s[0] == 0 {
        Ok((Val::Null, 1))
    } else if s[0] == 1 {
        if s.len() < 2 {
            Err(Code::UnexpectedEof)
        } else {
            Ok((Val::Bool(s[1] != 0), 2))
        }
    } else if s[0] == 2 || s[0] == 3 {
        if s.len() < 9 {
            Err(Code::UnexpectedEof)
        } else if s[0] == 2 {
            Ok((Val::I64(signed64(of_le(s.subrange(1, 9))) as i64), 9))
        } else {
            Ok((Val::F64(of_le(s.subrange(1, 9)) as u64), 9))
        }
    } else if s[0] == 4 {
        if s.len() < 5 || s.len() - 5 < of_le(s.subrange(1, 5)) {
            Err(Code::UnexpectedEof)
        } else {
            let n = of_le(s.subrange(1, 5));
            Ok((Val::Bytes(s.subrange(5, 5 + n)), (5 + n) as nat))
        }
    } else {
        Err(Code::BadThrift)
    }
}

/// The parameters that a buffer holds; an empty one holds none.
pub open spec fn params(s: Seq<u8>) -> Result<Seq<Val>, Code> {
    if s.len() == 0 {
        Ok(Seq::empty())
    } else {
        list(|t: Seq<u8>| param(t), s)
    }
}

pub open spec fn vals(vs: Seq<Value>) -> Seq<Val> {
    vs.map_values(|v: Value| v@)
}

/// The bits of a 64-bit pattern as a signed number.
fn to_signed(x: u64) -> (r: i64)
    ensures
        r == signed64(x as int),
{
    if x < 0x8000_0000_0000_0000 {
        x as i64
    } else {
        (x as i128 - 0x1_0000_0000_0000_0000) as i64
    }
}

/// Reads one parameter, and tells where the next one begins.
fn read_param(buf: &[u8], pos: usize) -> (r: Result<(Value, usize), Error>)
    requires
        pos <= buf@.len(),
    ensures
        match (r, param(buf@.skip(pos as int))) {
            (Ok((v, next)), Ok((w, len))) => v@ == w && next == pos + len && next <= buf@.len(),
            (Err(e), Err(code)) => e.code == code,
            _ => false,
        },
{
    let ghost s = buf@.skip(pos as int);
    let len: usize = buf.len();
    if pos >= len {
        return Err(Error::new(Code::UnexpectedEof));
    }
    let left: usize = len - pos;
    let tag: u8 = buf[pos];
    if tag == 0 {
        Ok((Value::Null, pos + 1))
    } else if tag == 1 {
        if left < 2 {
            return Err(Error::new(Code::UnexpectedEof));
        }
        Ok((Value::Bool(buf[pos + 1] != 0), pos + 2))
    } else if tag == 2 || tag == 3 {
        if left < 9 {
            return Err(Error::new(Code::UnexpectedEof));
        }
        let x: u64 = read_le(buf, pos + 1, 8);
        assert(s.subrange(1, 9) =~= buf@.subrange(pos + 1, pos + 9));
        let v: Value = if tag == 2 {
            Value::I64(to_signed(x))
        } else {
            Value::F64(x)
        };
        Ok((v, pos + 9))
    } else if tag == 4 {
        if left < 5 {
            return Err(Error::new(Code::UnexpectedEof));
        }
        let n: u64 = read_le(buf, pos + 1, 4);
        assert(s.subrange(1, 5) =~= buf@.subrange(pos + 1, pos + 5));
        if ((left - 5) as u64) < n {
            return Err(Error::new(Code::UnexpectedEof));
        }
        let end: usize = pos + 5 + n as usize;
        let text: Vec<u8> = copy_range(buf, pos + 5, end);
        assert(s.subrange(5, 5 + n) =~= buf@.subrange(pos + 5, end as int));
        Ok((Value::Bytes(text), end))
    } else {
        Err(Error::new(Code::BadThrift))
    }
}

fn copy_range(buf: &[u8], from: usize, to: usize) -> (r: Vec<u8>)
    requires
        from <= to <= buf@.len(),
    ensures
        r@ == buf@.subrange(from as int, to as int),
{
    copy_bytes(vstd::slice::slice_subrange(buf, from, to))
}

/// The parameter list of a query: `[count] {tag, payload}...`, where the tags are 0 for
/// NULL, 1 for a boolean (one byte), 2 for an integer and 3 for a double (eight
/// bytes), and 4 for a byte string (its length, and the bytes). What follows
/// the last parameter is not read.
pub fn decode_params(buf: &[u8]) -> (r: Result<Vec<Value>, Error>)
    ensures
        match (r, params(buf@)) {
            (Ok(vs), Ok(ws)) => vals(vs@) == ws,
            (Err(e), Err(code)) => e.code == code,
            _ => false,
        },
{
    let mut out: Vec<Value> = Vec::new();
    if buf.len() == 0 {
        assert(vals(out@) =~= Seq::empty());
        return Ok(out);
    }
    if buf.len() < 4 {
        return Err(Error::new(Code::UnexpectedEof));
    }
    let n: u64 = read_le(buf, 0, 4);
    assert(buf@.subrange(0, 4) =~= buf@.take(4));
    if n > MAX_ENTRIES as u64 {
        return Err(Error::new(Code::LimitExceeded));
    }
    let mut pos: usize = 4;
    let mut i: u64 = 0;
    let ghost one = |t: Seq<u8>| param(t);
    let ghost all = entries(one, buf@.skip(4), n as nat);
    assert(all == after(vals(out@), entries(one, buf@.skip(pos as int), n as nat))) by {
        assert(vals(out@) =~= Seq::empty());
        if let Ok(r) = all {
            assert(Seq::<Val>::empty() + r =~= r);
        }
    }
    while i < n
        invariant
            i <= n,
            pos <= buf@.len(),
            one == (|t: Seq<u8>| param(t)),
            all == after(vals(out@), entries(one, buf@.skip(pos as int), (n - i) as nat)),
            params(buf@) == all,
        decreases n - i,
    {
        match read_param(buf, pos) {
            Err(e) => {
                return Err(e);
            },
            Ok((v, next)) => {
                let ghost before = vals(out@);
                let ghost w = v@;
                proof {
                    let len = (next - pos) as int;
                    assert(buf@.skip(pos as int).skip(len) =~= buf@.skip(next as int));
                    if let Ok(r) = entries(one, buf@.skip(next as int), (n - i - 1) as nat) {
                        assert(before + (seq![w] + r) =~= before.push(w) + r);
                    }
                }
                out.push(v);
                assert(vals(out@) =~= before.push(w));
                pos = next;
            },
        }
        i = i + 1;
    }
    assert(vals(out@) + Seq::<Val>::empty() =~= vals(out@));
    Ok(out)
}

/// The text that bytes encode, by `core::str::from_utf8`: it succeeds exactly on
/// valid UTF-8, and gives the characters that the bytes encode.
#[verifier::external_body]
fn text_of(bytes: &[u8]) -> (r: Option<&str>)
    ensures
        match r {
            Some(t) => valid_utf8(bytes@) && t@ == decode_utf8(bytes@),
            None => !valid_utf8(bytes@),
        },
{
    core::str::from_utf8(bytes).ok()
}

/// One file: the length of its path, the path and the file's length.
pub open spec fn file(s: Seq<u8>) -> Result<((Seq<char>, u64), nat), Code> {
    let n = of_le(s.take(4));
    if s.len() < 4 || s.len() - 4 < n {
        Err(Code::UnexpectedEof)
    } else if !valid_utf8(s.subrange(4, 4 + n)) {
        Err(Code::Internal)
    } else if s.len() - 4 - n < 8 {
        Err(Code::UnexpectedEof)
    } else {
        Ok(((decode_utf8(s.subrange(4, 4 + n)), of_le(s.subrange(4 + n, 12 + n)) as u64), (12 + n) as nat))
    }
}

/// The files that a buffer lists.
pub open spec fn files(s: Seq<u8>) -> Result<Seq<(Seq<char>, u64)>, Code> {
    list(|t: Seq<u8>| file(t), s)
}

pub open spec fn named(fs: Seq<(String, u64)>) -> Seq<(Seq<char>, u64)> {
    fs.map_values(|f: (String, u64)| (f.0@, f.1))
}

/// Reads one file, and tells where the next one begins.
fn read_file(buf: &[u8], pos: usize) -> (r: Result<((String, u64), usize), Error>)
    requires
        pos <= buf@.len(),
    ensures
        match (r, file(buf@.skip(pos as int))) {
            (Ok((f, next)), Ok((g, len))) => (f.0@, f.1) == g && next == pos + len && next <= buf@.len(),
            (Err(e), Err(code)) => e.code == code,
            _ => false,
        },
{
    let ghost s = buf@.skip(pos as int);
    let left: usize = buf.len() - pos;
    if left < 4 {
        return Err(Error::new(Code::UnexpectedEof));
    }
    let n: u64 = read_le(buf, pos, 4);
    assert(s.take(4) =~= buf@.subrange(pos as int, pos + 4));
    if ((left - 4) as u64) < n {
        return Err(Error::new(Code::UnexpectedEof));
    }
    let start: usize = pos + 4;
    let end: usize = start + n as usize;
    let path: &[u8] = vstd::slice::slice_subrange(buf, start, end);
    assert(path@ =~= s.subrange(4, 4 + n));
    let name: String = match text_of(path) {
        Some(t) => t.to_owned(),
        None => {
            return Err(Error::new(Code::Internal));
        },
    };
    if buf.len() - end < 8 {
        return Err(Error::new(Code::UnexpectedEof));
    }
    let total: u64 = read_le(buf, end, 8);
    assert(s.subrange(4 + n, 12 + n) =~= buf@.subrange(end as int, end + 8));
    Ok(((name, total), end + 8))
}

/// The files of a table: `[count] {path_len, path, total_len}...`. What follows the last
/// one is not read.
pub fn decode_multi_files(buf: &[u8]) -> (r: Result<Vec<(String, u64)>, Error>)
    ensures
        match (r, files(buf@)) {
            (Ok(fs), Ok(gs)) => named(fs@) == gs,
            (Err(e), Err(code)) => e.code == code,
            _ => false,
        },
{
    let mut out: Vec<(String, u64)> = Vec::new();
    if buf.len() < 4 {
        return Err(Error::new(Code::UnexpectedEof));
    }
    let n: u64 = read_le(buf, 0, 4);
    assert(buf@.subrange(0, 4) =~= buf@.take(4));
    if n > MAX_ENTRIES as u64 {
        return Err(Error::new(Code::LimitExceeded));
    }
    let mut pos: usize = 4;
    let mut i: u64 = 0;
    let ghost one = |t: Seq<u8>| file(t);
    let ghost all = entries(one, buf@.skip(4), n as nat);
    assert(all == after(named(out@), entries(one, buf@.skip(pos as int), n as nat))) by {
        assert(named(out@) =~= Seq::empty());
        if let Ok(r) = all {
            assert(Seq::<(Seq<char>, u64)>::empty() + r =~= r);
        }
    }
    while i < n
        invariant
            i <= n,
            pos <= buf@.len(),
            one == (|t: Seq<u8>| file(t)),
            all == after(named(out@), entries(one, buf@.skip(pos as int), (n - i) as nat)),
            files(buf@) == all,
        decreases n - i,
    {
        match read_file(buf, pos) {
            Err(e) => {
                return Err(e);
            },
            Ok((f, next)) => {
                let ghost before = named(out@);
                let ghost g = (f.0@, f.1);
                proof {
                    let len = (next - pos) as int;
                    assert(buf@.skip(pos as int).skip(len) =~= buf@.skip(next as int));
                    if let Ok(r) = entries(one, buf@.skip(next as int), (n - i - 1) as nat) {
                        assert(before + (seq![g] + r) =~= before.push(g) + r);
                    }
                }
                out.push(f);
                assert(named(out@) =~= before.push(g));
                pos = next;
            },
        }
        i = i + 1;
    }
    assert(named(out@) + Seq::<(Seq<char>, u64)>::empty() =~= named(out@));
    Ok(out)
}

// --- Round trips --------------------------------------------------------------------------

/// Entries one behind another.
pub open spec fn joined<T>(write: spec_fn(T) -> Seq<u8>, xs: Seq<T>) -> Seq<u8>
    decreases xs.len(),
{
    if xs.len() == 0 {
        Seq::empty()
    } else {
        write(xs[0]) + joined(write, xs.skip(1))
    }
}

/// A list is read back as it was written, if each of its entries is, whatever
/// bytes follow.
pub proof fn entries_round_trip<T>(
    write: spec_fn(T) -> Seq<u8>,
    one: spec_fn(Seq<u8>) -> Result<(T, nat), Code>,
    xs: Seq<T>,
    rest: Seq<u8>,
)
    requires
        forall|k: int, more: Seq<u8>|
            0 <= k < xs.len() ==> #[trigger] one(write(xs[k]) + more) == Ok::<(T, nat), Code>(
                (xs[k], write(xs[k]).len()),
            ),
    ensures
        entries(one, joined(write, xs) + rest, xs.len()) == Ok::<Seq<T>, Code>(xs),
    decreases xs.len(),
{
    if xs.len() == 0 {
        assert(xs =~= Seq::empty());
    } else {
        let tail = xs.skip(1);
        let b = write(xs[0]);
        let more = joined(write, tail) + rest;
        assert forall|k: int, more: Seq<u8>| 0 <= k < tail.len() implies #[trigger] one(write(tail[k]) + more) == Ok::<
            (T, nat),
            Code,
        >((tail[k], write(tail[k]).len())) by {
            assert(tail[k] == xs[k + 1]);
            assert(one(write(xs[k + 1]) + more) == Ok::<(T, nat), Code>((xs[k + 1], write(xs[k + 1]).len())));
        }
        entries_round_trip(write, one, tail, rest);
        assert(joined(write, xs) + rest =~= b + more);
        assert((b + more).skip(b.len() as int) =~= more);
        assert(one(write(xs[0]) + more) == Ok::<(T, nat), Code>((xs[0], b.len())));
        assert(seq![xs[0]] + tail =~= xs);
    }
}

/// A list that breaks off is not read, if each of its entries is read where it is whole and
/// refused where it breaks off.
pub proof fn broken_entries_are_refused<T>(
    write: spec_fn(T) -> Seq<u8>,
    one: spec_fn(Seq<u8>) -> Result<(T, nat), Code>,
    xs: Seq<T>,
    m: int,
)
    requires
        0 <= m < joined(write, xs).len(),
        forall|k: int, more: Seq<u8>|
            0 <= k < xs.len() ==> #[trigger] one(write(xs[k]) + more) == Ok::<(T, nat), Code>(
                (xs[k], write(xs[k]).len()),
            ),
        forall|k: int, j: int|
            0 <= k < xs.len() && 0 <= j < write(xs[k]).len() ==> #[trigger] one(write(xs[k]).take(j)) == Err::<
                (T, nat),
                Code,
            >(Code::UnexpectedEof),
    ensures
        entries(one, joined(write, xs).take(m), xs.len()) == Err::<Seq<T>, Code>(Code::UnexpectedEof),
    decreases xs.len(),
{
    let b = write(xs[0]);
    let tail = xs.skip(1);
    let all = joined(write, xs);
    if m < b.len() {
        assert(all.take(m) =~= b.take(m));
        assert(one(write(xs[0]).take(m)) is Err);
    } else {
        let rest = joined(write, tail).take(m - b.len());
        assert(all.take(m) =~= b + rest);
        assert forall|k: int, more: Seq<u8>| 0 <= k < tail.len() implies #[trigger] one(write(tail[k]) + more) == Ok::<
            (T, nat),
            Code,
        >((tail[k], write(tail[k]).len())) by {
            assert(tail[k] == xs[k + 1]);
            assert(one(write(xs[k + 1]) + more) == Ok::<(T, nat), Code>((xs[k + 1], write(xs[k + 1]).len())));
        }
        assert forall|k: int, j: int| 0 <= k < tail.len() && 0 <= j < write(tail[k]).len() implies #[trigger] one(
            write(tail[k]).take(j),
        ) == Err::<(T, nat), Code>(Code::UnexpectedEof) by {
            assert(tail[k] == xs[k + 1]);
            assert(one(write(xs[k + 1]).take(j)) is Err);
        }
        broken_entries_are_refused(write, one, tail, m - b.len());
        assert((b + rest).skip(b.len() as int) =~= rest);
        assert(one(write(xs[0]) + rest) == Ok::<(T, nat), Code>((xs[0], b.len())));
    }
}

/// The bytes of a list.
pub open spec fn list_bytes<T>(write: spec_fn(T) -> Seq<u8>, xs: Seq<T>) -> Seq<u8> {
    le(xs.len() as int, 4) + joined(write, xs)
}

proof fn lemma_list<T>(write: spec_fn(T) -> Seq<u8>, one: spec_fn(Seq<u8>) -> Result<(T, nat), Code>, xs: Seq<T>)
    requires
        xs.len() <= MAX_ENTRIES,
        forall|k: int, more: Seq<u8>|
            0 <= k < xs.len() ==> #[trigger] one(write(xs[k]) + more) == Ok::<(T, nat), Code>(
                (xs[k], write(xs[k]).len()),
            ),
    ensures
        list_bytes(write, xs).len() >= 4,
        list(one, list_bytes(write, xs)) == Ok::<Seq<T>, Code>(xs),
{
    let n = xs.len() as int;
    let s = list_bytes(write, xs);
    lemma_le_len(n, 4);
    reveal_with_fuel(pow256, 5);
    numbers_round_trip(n, 4);
    assert(s.take(4) =~= le(n, 4));
    assert(s.skip(4) =~= joined(write, xs) + Seq::empty());
    entries_round_trip(write, one, xs, Seq::empty());
}

proof fn lemma_broken_list<T>(
    write: spec_fn(T) -> Seq<u8>,
    one: spec_fn(Seq<u8>) -> Result<(T, nat), Code>,
    xs: Seq<T>,
    m: int,
)
    requires
        xs.len() <= MAX_ENTRIES,
        0 <= m < list_bytes(write, xs).len(),
        forall|k: int, more: Seq<u8>|
            0 <= k < xs.len() ==> #[trigger] one(write(xs[k]) + more) == Ok::<(T, nat), Code>(
                (xs[k], write(xs[k]).len()),
            ),
        forall|k: int, j: int|
            0 <= k < xs.len() && 0 <= j < write(xs[k]).len() ==> #[trigger] one(write(xs[k]).take(j)) == Err::<
                (T, nat),
                Code,
            >(Code::UnexpectedEof),
    ensures
        list(one, list_bytes(write, xs).take(m)) == Err::<Seq<T>, Code>(Code::UnexpectedEof),
{
    let n = xs.len() as int;
    let s = list_bytes(write, xs).take(m);
    lemma_le_len(n, 4);
    reveal_with_fuel(pow256, 5);
    numbers_round_trip(n, 4);
    if m >= 4 {
        assert(s.take(4) =~= le(n, 4));
        assert(s.skip(4) =~= joined(write, xs).take(m - 4));
        broken_entries_are_refused(write, one, xs, m - 4);
    }
}

/// A value that a parameter can hold.
pub open spec fn sendable(v: Val) -> bool {
    match v {
        Val::Null | Val::Bool(_) | Val::I64(_) | Val::F64(_) => true,
        Val::Bytes(s) => s.len() < 0x1_0000_0000,
        Val::I32(_) | Val::I128(_) => false,
    }
}

/// The bytes of a parameter.
pub open spec fn param_bytes(v: Val) -> Seq<u8> {
    match v {
        Val::Bool(b) => seq![
            1u8,
            if b {
                1u8
            } else {
                0u8
            },
        ],
        Val::I64(x) => seq![2u8] + le(x as int, 8),
        Val::F64(x) => seq![3u8] + le(x as int, 8),
        Val::Bytes(s) => seq![4u8] + le(s.len() as int, 4) + s,
        _ => seq![0u8],
    }
}

proof fn lemma_param(v: Val, more: Seq<u8>)
    requires
        sendable(v),
    ensures
        param(param_bytes(v) + more) == Ok::<(Val, nat), Code>((v, param_bytes(v).len())),
{
    let s = param_bytes(v) + more;
    reveal_with_fuel(pow256, 9);
    match v {
        Val::I64(x) => {
            lemma_le_len(x as int, 8);
            numbers_round_trip(x as int, 8);
            assert(s.subrange(1, 9) =~= le(x as int, 8));
        },
        Val::F64(x) => {
            lemma_le_len(x as int, 8);
            numbers_round_trip(x as int, 8);
            assert(s.subrange(1, 9) =~= le(x as int, 8));
        },
        Val::Bytes(t) => {
            lemma_le_len(t.len() as int, 4);
            numbers_round_trip(t.len() as int, 4);
            assert(s.subrange(1, 5) =~= le(t.len() as int, 4));
            assert(s.subrange(5, 5 + t.len() as int) =~= t);
        },
        _ => {},
    }
}

proof fn lemma_broken_param(v: Val, m: int)
    requires
        sendable(v),
        0 <= m < param_bytes(v).len(),
    ensures
        param(param_bytes(v).take(m)) == Err::<(Val, nat), Code>(Code::UnexpectedEof),
{
    let s = param_bytes(v).take(m);
    reveal_with_fuel(pow256, 9);
    match v {
        Val::I64(x) => {
            lemma_le_len(x as int, 8);
        },
        Val::F64(x) => {
            lemma_le_len(x as int, 8);
        },
        Val::Bytes(t) => {
            lemma_le_len(t.len() as int, 4);
            numbers_round_trip(t.len() as int, 4);
            if m >= 5 {
                assert(s.subrange(1, 5) =~= le(t.len() as int, 4));
            }
        },
        _ => {},
    }
}

/// Parameters that break off are not read. (An empty buffer holds none.)
pub proof fn broken_params_are_refused(vs: Seq<Val>, m: int)
    requires
        vs.len() <= MAX_ENTRIES,
        forall|k: int| 0 <= k < vs.len() ==> sendable(#[trigger] vs[k]),
        0 < m < list_bytes(|v: Val| param_bytes(v), vs).len(),
    ensures
        params(list_bytes(|v: Val| param_bytes(v), vs).take(m)) == Err::<Seq<Val>, Code>(Code::UnexpectedEof),
{
    let write = |v: Val| param_bytes(v);
    let one = |t: Seq<u8>| param(t);
    assert forall|k: int, more: Seq<u8>| 0 <= k < vs.len() implies #[trigger] one(write(vs[k]) + more) == Ok::<
        (Val, nat),
        Code,
    >((vs[k], write(vs[k]).len())) by {
        lemma_param(vs[k], more);
    }
    assert forall|k: int, j: int| 0 <= k < vs.len() && 0 <= j < write(vs[k]).len() implies #[trigger] one(
        write(vs[k]).take(j),
    ) == Err::<(Val, nat), Code>(Code::UnexpectedEof) by {
        lemma_broken_param(vs[k], j);
    }
    lemma_broken_list(write, one, vs, m);
}

/// Parameters are read back as they were written.
pub proof fn params_round_trip(vs: Seq<Val>)
    requires
        vs.len() <= MAX_ENTRIES,
        forall|k: int| 0 <= k < vs.len() ==> sendable(#[trigger] vs[k]),
    ensures
        params(list_bytes(|v: Val| param_bytes(v), vs)) == Ok::<Seq<Val>, Code>(vs),
{
    let write = |v: Val| param_bytes(v);
    let one = |t: Seq<u8>| param(t);
    assert forall|k: int, more: Seq<u8>| 0 <= k < vs.len() implies #[trigger] one(write(vs[k]) + more) == Ok::<
        (Val, nat),
        Code,
    >((vs[k], write(vs[k]).len())) by {
        lemma_param(vs[k], more);
    }
    lemma_list(write, one, vs);
}

/// The bytes of a file's entry.
pub open spec fn file_bytes(f: (Seq<char>, u64)) -> Seq<u8> {
    le(name_bytes(f.0).len() as int, 4) + name_bytes(f.0) + le(f.1 as int, 8)
}

proof fn lemma_file(f: (Seq<char>, u64), more: Seq<u8>)
    requires
        name_bytes(f.0).len() < 0x1_0000_0000,
    ensures
        file(file_bytes(f) + more) == Ok::<((Seq<char>, u64), nat), Code>((f, file_bytes(f).len())),
{
    let s = file_bytes(f) + more;
    let path = name_bytes(f.0);
    let n = path.len() as int;
    reveal_with_fuel(pow256, 9);
    lemma_le_len(n, 4);
    numbers_round_trip(n, 4);
    lemma_le_len(f.1 as int, 8);
    numbers_round_trip(f.1 as int, 8);
    vstd::utf8::encode_utf8_valid_utf8(f.0);
    vstd::utf8::encode_utf8_decode_utf8(f.0);
    assert(s.take(4) =~= le(n, 4));
    assert(s.subrange(4, 4 + n) =~= path);
    assert(s.subrange(4 + n, 12 + n) =~= le(f.1 as int, 8));
}

proof fn lemma_broken_file(f: (Seq<char>, u64), m: int)
    requires
        name_bytes(f.0).len() < 0x1_0000_0000,
        0 <= m < file_bytes(f).len(),
    ensures
        file(file_bytes(f).take(m)) == Err::<((Seq<char>, u64), nat), Code>(Code::UnexpectedEof),
{
    let s = file_bytes(f).take(m);
    let path = name_bytes(f.0);
    let n = path.len() as int;
    reveal_with_fuel(pow256, 9);
    lemma_le_len(n, 4);
    numbers_round_trip(n, 4);
    lemma_le_len(f.1 as int, 8);
    vstd::utf8::encode_utf8_valid_utf8(f.0);
    if m >= 4 {
        assert(s.take(4) =~= le(n, 4));
        if m >= 4 + n {
            assert(s.subrange(4, 4 + n) =~= path);
        }
    }
}

/// File lists that break off are not read.
pub proof fn broken_files_are_refused(fs: Seq<(Seq<char>, u64)>, m: int)
    requires
        fs.len() <= MAX_ENTRIES,
        forall|k: int| 0 <= k < fs.len() ==> name_bytes((#[trigger] fs[k]).0).len() < 0x1_0000_0000,
        0 <= m < list_bytes(|f: (Seq<char>, u64)| file_bytes(f), fs).len(),
    ensures
        files(list_bytes(|f: (Seq<char>, u64)| file_bytes(f), fs).take(m)) == Err::<Seq<(Seq<char>, u64)>, Code>(
            Code::UnexpectedEof,
        ),
{
    let write = |f: (Seq<char>, u64)| file_bytes(f);
    let one = |t: Seq<u8>| file(t);
    assert forall|k: int, more: Seq<u8>| 0 <= k < fs.len() implies #[trigger] one(write(fs[k]) + more) == Ok::<
        ((Seq<char>, u64), nat),
        Code,
    >((fs[k], write(fs[k]).len())) by {
        lemma_file(fs[k], more);
    }
    assert forall|k: int, j: int| 0 <= k < fs.len() && 0 <= j < write(fs[k]).len() implies #[trigger] one(
        write(fs[k]).take(j),
    ) == Err::<((Seq<char>, u64), nat), Code>(Code::UnexpectedEof) by {
        lemma_broken_file(fs[k], j);
    }
    lemma_broken_list(write, one, fs, m);
}

/// File lists are read back as they were written.
pub proof fn files_round_trip(fs: Seq<(Seq<char>, u64)>)
    requires
        fs.len() <= MAX_ENTRIES,
        forall|k: int| 0 <= k < fs.len() ==> name_bytes((#[trigger] fs[k]).0).len() < 0x1_0000_0000,
    ensures
        files(list_bytes(|f: (Seq<char>, u64)| file_bytes(f), fs)) == Ok::<Seq<(Seq<char>, u64)>, Code>(fs),
{
    let write = |f: (Seq<char>, u64)| file_bytes(f);
    let one = |t: Seq<u8>| file(t);
    assert forall|k: int, more: Seq<u8>| 0 <= k < fs.len() implies #[trigger] one(write(fs[k]) + more) == Ok::<
        ((Seq<char>, u64), nat),
        Code,
    >((fs[k], write(fs[k]).len())) by {
        lemma_file(fs[k], more);
    }
    lemma_list(write, one, fs);
}

} // verus!
