//! `CREATE TABLE`, `DROP TABLE`, `ALTER TABLE`, `CREATE VIEW` and `DROP VIEW`.
//!
//! Only in-memory tables and views are changed; a table that is backed by files is read-only.
//! A statement that fails changes nothing.
//!
//! Expressions come compiled: each as a program for its own type, and a program that converts
//! such a value to the type of the column it is meant for.

use crate::catalog::{
    column_added, column_dropped, column_renamed, file_of, files_of, first_named, lemma_only_part, only_part, mem_dropped, mem_table_names,
    names_of_views, names_unique, none_named, row_fits, row_vals, table_names, table_renamed,
    table_rows, view_created, view_dropped, writable, Catalog, MemTable, Source, TablePart,
};
use crate::error::{Code, Error};
use crate::exec::answers::{a_table_gives_one_answer, answer, reads_a_table};
use crate::exec::looks::{leads, led_on, looked_on};
use crate::exec::meaning::{gave, stops, supplied, Why};
use crate::exec::{
    always_supplied, as_sure, blocks_asked, build, build_fault, chunk, flat, lemma_flat_push, sure_plan, sure_types, Chunk, CodecRequest,
    ExecContext, Look, Step,
};
use crate::expr::{program_value, Program, ProgramV, Vm};
use crate::format::CodecHook;
use crate::plan::{planned, Node, NodeV};
use crate::vector::{
    cols_wf, fields_of, name_bytes, row_at, Batch, Field, FieldV, Ty, Val, Value, Vector,
};
use vstd::prelude::*;

verus! {

/// A result of one batch.
pub struct Query {
    pub schema: Vec<Field>,
    pub batch: Batch,
}

/// A number of rows as it is reported.
pub open spec fn count_of(n: int) -> i64 {
    if n > i64::MAX {
        i64::MAX
    } else {
        n as i64
    }
}

/// The result of a statement that changes `n` rows: one row, with one column `count`.
pub open spec fn reports(q: Query, n: int) -> bool {
    &&& fields_of(q.schema@) == seq![FieldV { name: "count"@, ty: Ty::BigInt, nullable: false }]
    &&& q.batch.wf()
    &&& q.batch.types() == seq![Ty::BigInt]
    &&& q.batch.rows() == seq![seq![Val::I64(count_of(n))]]
}

/// Reports a number of rows.
pub fn count_result(n: usize) -> (q: Query)
    ensures
        reports(q, n as int),
{
    let m: i64 = if n as u64 > i64::MAX as u64 {
        i64::MAX
    } else {
        n as i64
    };
    let mut v = Vector::with_capacity(Ty::BigInt, 1);
    v.push_owned(Value::I64(m));
    let f = Field::new("count", Ty::BigInt, false);
    let cols = vec![v];
    assert(cols@[0] == v);
    assert(cols_wf(cols@, 1));
    let batch = Batch::of_columns(cols, 1);
    let schema = vec![f];
    proof {
        assert(batch.types() =~= seq![Ty::BigInt]);
        assert(row_at(cols@, 0) =~= seq![Val::I64(m)]);
        assert(batch.rows() =~= seq![seq![Val::I64(m)]]);
        assert(schema@[0] == f);
        assert(fields_of(schema@) =~= seq![f@]);
    }
    Query { schema, batch }
}

// --- Values -----------------------------------------------------------------------------

/// An expression, compiled.
pub struct Cell {
    /// The expression in its own type.
    pub value: Program,
    /// What turns such a value, given as the only column, into the type of the column that it is
    /// meant for. Not used where the types are the same.
    pub cast: Program,
}

/// What a value of one type becomes in a column of another. A value that cannot be converted is
/// refused, and not stored as NULL.
pub open spec fn cast_result(cast: ProgramV, v: Val, src: Ty, dst: Ty) -> Result<Val, Code> {
    if v is Null {
        Ok(Val::Null)
    } else if dst == Ty::Null {
        Err(Code::TypeMismatch)
    } else if src == dst {
        Ok(v)
    } else {
        match program_value(cast, seq![src], seq![seq![v]]) {
            Err(c) => Err(c),
            Ok(col) => if col.ty != dst {
                Err(Code::Internal)
            } else if col.cells[0] is Null {
                Err(Code::ValueOutOfRange)
            } else {
                Ok(col.cells[0])
            },
        }
    }
}

/// Converts a value that is to be stored.
pub fn cast_value(vm: &Vm, cast: &Program, v: Value, src_ty: Ty, target_ty: Ty) -> (r: Result<Value, Error>)
    requires
        v@.fits(src_ty.phys()),
    ensures
        match r {
            Ok(x) => cast_result(cast@, v@, src_ty, target_ty) == Ok::<Val, Code>(x@) && x@.fits(target_ty.phys()),
            Err(e) => cast_result(cast@, v@, src_ty, target_ty) == Err::<Val, Code>(e.code),
        },
{
    if v.is_null() {
        return Ok(Value::Null);
    }
    if target_ty == Ty::Null {
        return Err(Error::new(Code::TypeMismatch));
    }
    if src_ty == target_ty {
        return Ok(v);
    }
    let ghost val = v@;
    let mut col = Vector::with_capacity(src_ty, 1);
    col.push_owned(v);
    let cols = vec![col];
    assert(cols@[0] == col);
    assert(cols_wf(cols@, 1));
    let batch = Batch::of_columns(cols, 1);
    proof {
        assert(batch.types() =~= seq![src_ty]);
        assert(row_at(cols@, 0) =~= seq![val]);
        assert(batch.rows() =~= seq![seq![val]]);
    }
    let out = match vm.eval(cast, &batch) {
        Ok(c) => c,
        Err(e) => {
            return Err(e);
        },
    };
    if out.ty() != target_ty {
        return Err(Error::new(Code::Internal));
    }
    let x = out.value_at(0);
    if x.is_null() {
        return Err(Error::new(Code::ValueOutOfRange));
    }
    assert(out@[0].fits(out.ty().phys()));
    Ok(x)
}

/// The value of a constant expression in a column of a type.
pub open spec fn strict_value(c: Cell, ty: Ty) -> Result<Val, Code> {
    match program_value(c.value@, Seq::empty(), seq![Seq::empty()]) {
        Err(e) => Err(e),
        Ok(col) => cast_result(c.cast@, col.cells[0], col.ty, ty),
    }
}

/// Evaluates a constant expression for a column of a type.
pub fn eval_value_strict(vm: &Vm, c: &Cell, target_ty: Ty) -> (r: Result<Value, Error>)
    ensures
        match r {
            Ok(x) => strict_value(*c, target_ty) == Ok::<Val, Code>(x@) && x@.fits(target_ty.phys()),
            Err(e) => strict_value(*c, target_ty) == Err::<Val, Code>(e.code),
        },
{
    let batch = Batch::rows_only(1);
    proof {
        assert(batch.types() =~= Seq::empty());
        assert(batch.rows()[0] =~= Seq::empty());
        assert(batch.rows() =~= seq![Seq::empty()]);
    }
    let col = match vm.eval(&c.value, &batch) {
        Ok(v) => v,
        Err(e) => {
            return Err(e);
        },
    };
    assert(col@[0].fits(col.ty().phys()));
    let v = col.value_at(0);
    cast_value(vm, &c.cast, v, col.ty(), target_ty)
}

// --- Queries run to the end -------------------------------------------------------------

/// The rows are those that a plan gives, the in-memory tables being `mem`, and `looked` the looks taken.
pub open spec fn rows_given(plan: NodeV, mem: Seq<MemTable>, looked: Seq<Look>, rows: Seq<Seq<Val>>) -> bool {
    exists|out: Seq<Chunk>| #[trigger] gave(plan, mem, looked, out, true) && flat(out) == rows
}

/// Whether a plan gives its rows without a failure, the in-memory tables being `mem`, and they are
/// stored as a schema says.
pub open spec fn surely_given(plan: Node, mem: Seq<MemTable>, schema: Seq<FieldV>) -> bool {
    sure_plan(plan, mem) && stored_as(sure_types(plan, mem), schema)
}

/// Why the blocks that a look has found to be missing cannot be decompressed.
pub open spec fn blocks_fail(hook: Option<Box<dyn CodecHook>>, l: Look, code: Code) -> bool {
    if hook is None {
        code == Code::UnsupportedCodec
    } else {
        exists|k: int|
            0 <= k < blocks_asked(l).len() && block_outcome(l.after, hook, #[trigger] blocks_asked(l)[k]) == Err::<
                Seq<u8>,
                Code,
            >(code)
    }
}

/// Whether running a query to its end may fail with a code, `looked` being the looks taken: something
/// stops it, bytes would have to be fetched, a block cannot be decompressed, or its rows are not stored
/// as a schema says. (After as many batches and looks as can be counted it is given up.)
pub open spec fn query_fails(
    hook: Option<Box<dyn CodecHook>>,
    plan: Node,
    mem: Seq<MemTable>,
    looked: Seq<Look>,
    schema: Seq<FieldV>,
    code: Code,
) -> bool {
    let p = planned(plan, None);
    &&& !surely_given(plan, mem, schema)
    &&& {
        ||| stops(p, mem, looked, Why::Failed(code))
        ||| stops(p, mem, looked, Why::Io) && code == Code::IoFailed
        ||| stops(p, mem, looked, Why::Codec) && looked.len() > 0 && blocks_fail(hook, looked.last(), code)
        ||| exists|out: Seq<Chunk>, done: bool| #[trigger]
            gave(p, mem, looked, out, done) && {
                ||| code == Code::Internal && out.len() > 0 && !stored_as(out.last().types, schema)
                ||| code == Code::LimitExceeded && out.len() + looked.len() >= u64::MAX
            }
    }
}

/// A page is what the hook made of a block among those asked for.
pub open spec fn page_made(
    hook: Option<Box<dyn CodecHook>>,
    asked: Seq<CodecRequest>,
    c: Catalog,
    at: (int, int),
    offset: u64,
    len: u32,
    page: Option<Seq<u8>>,
) -> bool {
    exists|k: int|
        {
            &&& 0 <= k < asked.len()
            &&& (#[trigger] asked[k]).table == at.0 && asked[k].part == at.1
            &&& asked[k].offset == offset && asked[k].len == len
            &&& page matches Some(data) && block_outcome(c, hook, asked[k]) == Ok::<Seq<u8>, Code>(data)
        }
}

/// A part has come to hold pages that the hook made of blocks asked for. Otherwise it is as it was.
pub open spec fn part_filled(
    hook: Option<Box<dyn CodecHook>>,
    asked: Seq<CodecRequest>,
    c: Catalog,
    at: (int, int),
    after: TablePart,
) -> bool {
    let before = c.tables@[at.0].parts@[at.1];
    &&& after.path == before.path
    &&& after.source == (Source { decoded: after.source.decoded, ..before.source })
    &&& after.format == before.format
    &&& forall|o: u64, l: u32| #[trigger]
        after.source.page(o, l) == before.source.page(o, l) || page_made(
            hook,
            asked,
            c,
            at,
            o,
            l,
            after.source.page(o, l),
        )
}

/// A catalog has come to hold pages that the hook made of blocks asked for. Otherwise it is as it was.
pub open spec fn filled(
    hook: Option<Box<dyn CodecHook>>,
    asked: Seq<CodecRequest>,
    before: Catalog,
    after: Catalog,
) -> bool {
    &&& after.mem == before.mem
    &&& after.views == before.views
    &&& after.tables@.len() == before.tables@.len()
    &&& forall|t: int|
        0 <= t < before.tables@.len() ==> {
            &&& (#[trigger] after.tables@[t]).name == before.tables@[t].name
            &&& after.tables@[t].unified == before.tables@[t].unified
            &&& after.tables@[t].parts@.len() == before.tables@[t].parts@.len()
        }
    &&& forall|t: int, p: int|
        0 <= t < before.tables@.len() && 0 <= p < before.tables@[t].parts@.len() ==> part_filled(
            hook,
            asked,
            before,
            (t, p),
            #[trigger] after.tables@[t].parts@[p],
        )
}

/// A catalog to which a look leads: the one that it leaves, to which pages may have been added that
/// it found to be missing.
pub open spec fn settled(hook: Option<Box<dyn CodecHook>>, l: Look, to: Catalog) -> bool {
    to == l.after || filled(hook, blocks_asked(l), l.after, to)
}

/// Looks lead from one catalog to another, and nothing comes in between them but pages that were found
/// to be missing.
pub open spec fn toured(hook: Option<Box<dyn CodecHook>>, from: Catalog, ls: Seq<Look>, to: Catalog) -> bool
    decreases ls.len(),
{
    if ls.len() == 0 {
        from == to
    } else {
        settled(hook, ls.last(), to) && toured(hook, from, ls.drop_last(), ls.last().before)
    }
}

/// The rows are those that a plan gives on a catalog, which running it turns into another.
pub open spec fn rows_read(
    hook: Option<Box<dyn CodecHook>>,
    from: Catalog,
    to: Catalog,
    plan: Node,
    rows: Seq<Seq<Val>>,
) -> bool {
    exists|looked: Seq<Look>| #[trigger]
        toured(hook, from, looked, to) && rows_given(planned(plan, None), from.mem@, looked, rows)
}

/// Whether running a query to its end on a catalog, which this turns into another, may fail with a code.
pub open spec fn query_failed(
    hook: Option<Box<dyn CodecHook>>,
    from: Catalog,
    to: Catalog,
    plan: Node,
    schema: Seq<FieldV>,
    code: Code,
) -> bool {
    exists|looked: Seq<Look>| #[trigger]
        toured(hook, from, looked, to) && query_fails(hook, plan, from.mem@, looked, schema, code)
}

proof fn lemma_toured_on(hook: Option<Box<dyn CodecHook>>, from: Catalog, a: Seq<Look>, mid: Catalog, b: Seq<Look>, to: Catalog)
    requires
        toured(hook, from, a, mid),
        leads(mid, b, to),
    ensures
        toured(hook, from, a + b, to),
    decreases b.len(),
{
    if b.len() == 0 {
        assert(a + b =~= a);
    } else {
        lemma_toured_on(hook, from, a, mid, b.drop_last(), b.last().before);
        assert((a + b).drop_last() =~= a + b.drop_last());
    }
}

/// Looks that are taken at once prolong others.
proof fn lemma_toured(hook: Option<Box<dyn CodecHook>>, from: Catalog, was: Seq<Look>, mid: Catalog, now: Seq<Look>, to: Catalog)
    requires
        toured(hook, from, was, mid),
        looked_on(was, mid, now, to),
    ensures
        toured(hook, from, now, to),
        was.len() < now.len() ==> now.last().after == to,
{
    reveal(led_on);
    let more = now.skip(was.len() as int);
    lemma_toured_on(hook, from, was, mid, more, to);
    assert(now =~= was + more);
}

proof fn lemma_filled_none(hook: Option<Box<dyn CodecHook>>, asked: Seq<CodecRequest>, c: Catalog)
    ensures
        filled(hook, asked, c, c),
{
}

/// One more block decompressed.
proof fn lemma_filled_more(
    hook: Option<Box<dyn CodecHook>>,
    asked: Seq<CodecRequest>,
    a: Catalog,
    b: Catalog,
    c: Catalog,
    k: int,
)
    requires
        0 <= k < asked.len(),
        filled(hook, asked, a, b),
        filled(hook, seq![asked[k]], b, c),
        forall|o: CodecRequest| #[trigger] block_outcome(b, hook, o) == block_outcome(a, hook, o),
    ensures
        filled(hook, asked, a, c),
{
    assert forall|t: int| 0 <= t < a.tables@.len() implies {
        &&& (#[trigger] c.tables@[t]).name == a.tables@[t].name
        &&& c.tables@[t].unified == a.tables@[t].unified
        &&& c.tables@[t].parts@.len() == a.tables@[t].parts@.len()
    } by {
        assert(b.tables@[t].name == a.tables@[t].name);
    }
    assert forall|t: int, p: int| 0 <= t < a.tables@.len() && 0 <= p < a.tables@[t].parts@.len() implies part_filled(
        hook,
        asked,
        a,
        (t, p),
        #[trigger] c.tables@[t].parts@[p],
    ) by {
        assert(b.tables@[t].parts@.len() == a.tables@[t].parts@.len());
        let x = a.tables@[t].parts@[p].source;
        let y = b.tables@[t].parts@[p].source;
        let z = c.tables@[t].parts@[p].source;
        assert(part_filled(hook, asked, a, (t, p), b.tables@[t].parts@[p]));
        assert(part_filled(hook, seq![asked[k]], b, (t, p), c.tables@[t].parts@[p]));
        assert forall|o: u64, l: u32| #[trigger] z.page(o, l) == x.page(o, l) || page_made(
            hook,
            asked,
            a,
            (t, p),
            o,
            l,
            z.page(o, l),
        ) by {
            if z.page(o, l) == y.page(o, l) {
                assert(y.page(o, l) == x.page(o, l) || page_made(hook, asked, a, (t, p), o, l, y.page(o, l)));
            } else {
                assert(page_made(hook, seq![asked[k]], b, (t, p), o, l, z.page(o, l)));
                assert(seq![asked[k]][0] == asked[k]);
                assert(block_outcome(b, hook, asked[k]) == block_outcome(a, hook, asked[k]));
            }
        }
    }
}

/// Whether a batch's columns are stored as a schema says.
pub open spec fn stored_as(tys: Seq<Ty>, schema: Seq<FieldV>) -> bool {
    tys.len() == schema.len() && forall|c: int| 0 <= c < tys.len() ==> (#[trigger] tys[c]).phys() == schema[c].ty.phys()
}

fn check_storage(b: &Batch, schema: &Vec<Field>) -> (r: bool)
    ensures
        r == stored_as(b.types(), fields_of(schema@)),
{
    if b.cols.len() != schema.len() {
        return false;
    }
    let mut c: usize = 0;
    while c < schema.len()
        invariant
            c <= schema@.len(),
            b.cols@.len() == schema@.len(),
            forall|k: int| 0 <= k < c ==> (#[trigger] b.types()[k]).phys() == fields_of(schema@)[k].ty.phys(),
        decreases schema@.len() - c,
    {
        if b.cols[c].ty().phys() != schema[c].ty.phys() {
            assert(b.types()[c as int].phys() != fields_of(schema@)[c as int].ty.phys());
            return false;
        }
        c = c + 1;
    }
    true
}

/// Every row fits a schema.
pub open spec fn all_fit(rows: Seq<Seq<Val>>, schema: Seq<FieldV>) -> bool {
    forall|r: int| 0 <= r < rows.len() ==> row_fits(#[trigger] rows[r], schema)
}

/// Puts a batch's rows behind others.
fn push_rows(rows: &mut Vec<Vec<Value>>, b: &Batch, Ghost(schema): Ghost<Seq<FieldV>>)
    requires
        b.wf(),
        b.sel is None,
        stored_as(b.types(), schema),
        all_fit(table_rows(old(rows)@), schema),
    ensures
        table_rows(final(rows)@) == table_rows(old(rows)@) + b.rows(),
        all_fit(table_rows(final(rows)@), schema),
{
    let n: usize = b.num_rows();
    let ghost before = table_rows(rows@);
    let mut i: usize = 0;
    assert(b.rows().take(0) =~= Seq::empty());
    assert(before + Seq::<Seq<Val>>::empty() =~= before);
    while i < n
        invariant
            b.wf(),
            b.sel is None,
            n == b.spec_num_rows(),
            i <= n,
            stored_as(b.types(), schema),
            table_rows(rows@) == before + b.rows().take(i as int),
            all_fit(table_rows(rows@), schema),
        decreases n - i,
    {
        let mut row: Vec<Value> = Vec::new();
        let mut c: usize = 0;
        while c < b.cols.len()
            invariant
                b.wf(),
                b.sel is None,
                i < n,
                n == b.spec_num_rows(),
                c <= b.cols@.len(),
                row@.len() == c,
                forall|k: int| 0 <= k < c ==> (#[trigger] row@[k])@ == b.cols@[k]@[i as int],
            decreases b.cols@.len() - c,
        {
            assert(b.cols@[c as int]@.len() == n);
            row.push(b.cols[c].value_at(i));
            c = c + 1;
        }
        let ghost was = rows@;
        rows.push(row);
        proof {
            assert(row_vals(row@) =~= b.rows()[i as int]);
            assert(table_rows(rows@) =~= table_rows(was).push(row_vals(row@)));
            assert(b.rows().take(i + 1) =~= b.rows().take(i as int).push(b.rows()[i as int]));
            assert(table_rows(rows@) =~= before + b.rows().take(i + 1));
            assert(row_fits(row_vals(row@), schema)) by {
                assert forall|k: int| 0 <= k < schema.len() implies (#[trigger] row_vals(row@)[k]).fits(
                    schema[k].ty.phys(),
                ) by {
                    assert(b.cols@[k].wf());
                    assert(b.types()[k].phys() == schema[k].ty.phys());
                    assert(b.cols@[k]@[i as int].fits(b.cols@[k].ty().phys()));
                }
            }
            assert forall|r: int| 0 <= r < rows@.len() implies row_fits(#[trigger] table_rows(rows@)[r], schema) by {
                if r < was.len() {
                    assert(table_rows(rows@)[r] == table_rows(was)[r]);
                }
            }
        }
        i = i + 1;
    }
    assert(b.rows().take(n as int) =~= b.rows());
}

/// Nothing but the catalog differs.
pub open spec fn only_catalog(before: ExecContext, after: ExecContext) -> bool {
    after.io == before.io && after.codec == before.codec && after.hook == before.hook
}

/// A catalog in which every name stands for one object.
pub open spec fn session_ok(ctx: ExecContext) -> bool {
    ctx.wf() && ctx.catalog.names_ok()
}

/// The decompressed block that a request asks for is there.
pub open spec fn block_present(c: Catalog, r: CodecRequest) -> bool {
    &&& r.table < c.tables@.len()
    &&& r.part < c.tables@[r.table as int].parts@.len()
    &&& c.tables@[r.table as int].parts@[r.part as int].source.page(r.offset, r.len) is Some
}

/// What decompressing a block gives, or why it cannot be done.
pub open spec fn block_outcome(c: Catalog, hook: Option<Box<dyn CodecHook>>, r: CodecRequest) -> Result<Seq<u8>, Code> {
    if r.table >= c.tables@.len() || r.part >= c.tables@[r.table as int].parts@.len() {
        Err(Code::Internal)
    } else {
        let src = c.tables@[r.table as int].parts@[r.part as int].source;
        if r.offset + r.len > u64::MAX || !src.has_range(r.offset as int, r.len as int) {
            Err(Code::IoFailed)
        } else {
            let block = Seq::new(r.len as nat, |k: int| src.byte(r.offset + k)->0);
            match hook {
                None => Err(Code::UnsupportedCodec),
                Some(h) => match h.output(r.codec, block, r.out_len) {
                    Err(e) => Err(e.code),
                    Ok(data) => if data@.len() != r.out_len {
                        Err(Code::BadCompressedData)
                    } else {
                        Ok(data@)
                    },
                },
            }
        }
    }
}

proof fn lemma_block_filled(hook: Option<Box<dyn CodecHook>>, r: CodecRequest, before: Catalog, after: Catalog, data: Seq<u8>)
    requires
        only_part(before, after, r.table as int, r.part as int),
        block_outcome(before, hook, r) == Ok::<Seq<u8>, Code>(data),
        ({
            let b = before.tables@[r.table as int].parts@[r.part as int];
            let a = after.tables@[r.table as int].parts@[r.part as int];
            &&& a.path == b.path
            &&& a.source == (Source { decoded: a.source.decoded, ..b.source })
            &&& a.format == b.format
            &&& a.source.page(r.offset, r.len) == Some(data)
            &&& forall|o: u64, l: u32|
                (o, l) != (r.offset, r.len) ==> #[trigger] a.source.page(o, l) == b.source.page(o, l)
        }),
    ensures
        filled(hook, seq![r], before, after),
{
    assert forall|t: int| 0 <= t < before.tables@.len() implies {
        &&& (#[trigger] after.tables@[t]).name == before.tables@[t].name
        &&& after.tables@[t].unified == before.tables@[t].unified
        &&& after.tables@[t].parts@.len() == before.tables@[t].parts@.len()
    } by {
        if t != r.table {
            assert(after.tables@[t] == before.tables@[t]);
        }
    }
    assert forall|t: int, p: int|
        0 <= t < before.tables@.len() && 0 <= p < before.tables@[t].parts@.len() implies part_filled(
        hook,
        seq![r],
        before,
        (t, p),
        #[trigger] after.tables@[t].parts@[p],
    ) by {
        if t != r.table {
            assert(after.tables@[t] == before.tables@[t]);
        } else if p != r.part {
            assert(after.tables@[t].parts@[p] == before.tables@[t].parts@[p]);
        } else {
            let a = after.tables@[t].parts@[p].source;
            let b = before.tables@[t].parts@[p].source;
            assert forall|o: u64, l: u32| #[trigger] a.page(o, l) == b.page(o, l) || page_made(
                hook,
                seq![r],
                before,
                (t, p),
                o,
                l,
                a.page(o, l),
            ) by {
                assert(seq![r][0] == r);
            }
        }
    }
}

/// Has one block decompressed.
fn decompress_block(c: &mut Catalog, hook: &Option<Box<dyn CodecHook>>, r: CodecRequest) -> (res: Result<(), Error>)
    requires
        old(c).wf(),
        old(c).names_ok(),
        hook is Some,
    ensures
        final(c).wf(),
        final(c).names_ok(),
        only_part(*old(c), *final(c), r.table as int, r.part as int),
        filled(*hook, seq![r], *old(c), *final(c)),
        files_of(*final(c)) == files_of(*old(c)),
        table_names(*final(c)) == table_names(*old(c)),
        match block_outcome(*old(c), *hook, r) {
            Err(code) => (res matches Err(e) && e.code == code) && *final(c) == *old(c),
            Ok(data) => {
                &&& res is Ok
                &&& block_present(*final(c), r)
                &&& final(c).tables@[r.table as int].parts@[r.part as int].source.page(r.offset, r.len) == Some(data)
            },
        },
        forall|o: CodecRequest| block_present(*old(c), o) ==> #[trigger] block_present(*final(c), o),
        forall|o: CodecRequest| #[trigger] block_outcome(*final(c), *hook, o) == block_outcome(*old(c), *hook, o),
{
    if r.table >= c.tables.len() || r.part >= c.tables[r.table].parts.len() {
        return Err(Error::new(Code::Internal));
    }
    let part = &c.tables[r.table].parts[r.part];
    assert(c.tables@[r.table as int].parts@[r.part as int].source.wf());
    let block = match part.source.get(r.offset, r.len as usize) {
        Some(b) => b,
        None => {
            return Err(Error::new(Code::IoFailed));
        },
    };
    proof {
        let src = part.source;
        assert(block@ =~= Seq::new(r.len as nat, |k: int| src.byte(r.offset + k)->0));
    }
    let data = match hook {
        None => {
            return Err(Error::new(Code::UnsupportedCodec));
        },
        Some(h) => match h.decompress(r.codec, block, r.out_len) {
            Ok(d) => d,
            Err(e) => {
                return Err(e);
            },
        },
    };
    if data.len() as u64 != r.out_len as u64 {
        return Err(Error::new(Code::BadCompressedData));
    }
    let ghost before = *c;
    c.tables[r.table].parts[r.part].source.insert_decoded(r.offset, r.len, data);
    proof {
        assert(file_of(c.tables@[r.table as int].parts@[r.part as int]) =~= file_of(
            before.tables@[r.table as int].parts@[r.part as int],
        ));
        lemma_only_part(before, *c, r.table as int, r.part as int);
        assert(block_outcome(before, *hook, r) == Ok::<Seq<u8>, Code>(data@));
        lemma_block_filled(*hook, r, before, *c, data@);
        assert forall|o: CodecRequest| #[trigger] block_outcome(*c, *hook, o) == block_outcome(before, *hook, o) by {
            if o.table < before.tables@.len() && o.part < before.tables@[o.table as int].parts@.len() {
                let s0 = before.tables@[o.table as int].parts@[o.part as int].source;
                let s1 = c.tables@[o.table as int].parts@[o.part as int].source;
                assert(forall|k: int| #[trigger] s1.byte(k) == s0.byte(k));
                assert(forall|k: int| #[trigger] s1.touches(k) == s0.touches(k));
                let from = o.offset as int;
                let to = o.offset + o.len;
                assert((forall|k: int| from <= k < to ==> (#[trigger] s1.byte(k)) is Some) == (forall|k: int|
                    from <= k < to ==> (#[trigger] s0.byte(k)) is Some)) by {
                    assert(forall|k: int| #[trigger] s0.byte(k) == s1.byte(k));
                }
                assert(s1.has_range(from, o.len as int) == s0.has_range(from, o.len as int));
                assert(Seq::new(o.len as nat, |k: int| s1.byte(o.offset + k)->0) =~= Seq::new(
                    o.len as nat,
                    |k: int| s0.byte(o.offset + k)->0,
                ));
            }
        }
    }
    Ok(())
}

/// Has the blocks that a query waits for decompressed by the hook, up to the first one for which
/// that fails. Without a hook the query fails with `UnsupportedCodec`.
pub fn service_codec(ctx: &mut ExecContext) -> (res: Result<(), Error>)
    requires
        session_ok(*old(ctx)),
    ensures
        session_ok(*final(ctx)),
        final(ctx).same_data(*old(ctx)),
        only_catalog(*old(ctx), *final(ctx)),
        filled(old(ctx).hook, old(ctx).codec@, old(ctx).catalog, final(ctx).catalog),
        old(ctx).hook is None ==> (res matches Err(e) && e.code == Code::UnsupportedCodec) && *final(ctx) == *old(ctx),
        old(ctx).hook is Some ==> match res {
            Ok(_) => forall|k: int|
                0 <= k < old(ctx).codec@.len() ==> {
                    &&& block_outcome(old(ctx).catalog, old(ctx).hook, #[trigger] old(ctx).codec@[k]) is Ok
                    &&& block_present(final(ctx).catalog, old(ctx).codec@[k])
                },
            Err(e) => exists|k: int|
                0 <= k < old(ctx).codec@.len() && block_outcome(
                    old(ctx).catalog,
                    old(ctx).hook,
                    #[trigger] old(ctx).codec@[k],
                ) == Err::<Seq<u8>, Code>(e.code) && forall|j: int|
                    0 <= j < k ==> block_outcome(old(ctx).catalog, old(ctx).hook, #[trigger] old(ctx).codec@[j]) is Ok,
        },
{
    proof {
        lemma_filled_none(ctx.hook, ctx.codec@, ctx.catalog);
    }
    if ctx.hook.is_none() {
        return Err(Error::new(Code::UnsupportedCodec));
    }
    let mut k: usize = 0;
    while k < ctx.codec.len()
        invariant
            k <= ctx.codec@.len(),
            session_ok(*ctx),
            ctx.same_data(*old(ctx)),
            only_catalog(*old(ctx), *ctx),
            filled(old(ctx).hook, old(ctx).codec@, old(ctx).catalog, ctx.catalog),
            ctx.hook is Some,
            forall|o: CodecRequest| #[trigger]
                block_outcome(ctx.catalog, ctx.hook, o) == block_outcome(old(ctx).catalog, old(ctx).hook, o),
            forall|j: int|
                0 <= j < k ==> {
                    &&& block_outcome(old(ctx).catalog, old(ctx).hook, #[trigger] old(ctx).codec@[j]) is Ok
                    &&& block_present(ctx.catalog, old(ctx).codec@[j])
                },
        decreases ctx.codec@.len() - k,
    {
        let r: CodecRequest = ctx.codec[k];
        let ghost mid = ctx.catalog;
        let done = decompress_block(&mut ctx.catalog, &ctx.hook, r);
        proof {
            lemma_filled_more(ctx.hook, ctx.codec@, old(ctx).catalog, mid, ctx.catalog, k as int);
        }
        match done {
            Ok(_) => {},
            Err(e) => {
                assert(old(ctx).codec@[k as int] == r);
                return Err(e);
            },
        }
        k = k + 1;
    }
    Ok(())
}

/// Runs a query to the end and collects its rows. It is not resumed: where bytes would have to
/// be fetched it fails with `IoFailed` and leaves the requests in the context. Blocks that have to
/// be decompressed go to the context's hook.
pub fn run_query_to_rows(ctx: &mut ExecContext, plan: &Node, schema: &Vec<Field>) -> (r: Result<Vec<Vec<Value>>, Error>)
    requires
        session_ok(*old(ctx)),
    ensures
        session_ok(*final(ctx)),
        final(ctx).same_data(*old(ctx)),
        match r {
            Ok(rows) => {
                &&& build_fault(*plan, false) is None
                &&& rows_read(old(ctx).hook, old(ctx).catalog, final(ctx).catalog, *plan, table_rows(rows@))
                &&& all_fit(table_rows(rows@), fields_of(schema@))
                &&& reads_a_table(*plan) && sure_plan(*plan, old(ctx).catalog.mem@) ==> table_rows(rows@) == answer(
                    *plan,
                    old(ctx).catalog.mem@,
                )
            },
            Err(e) => {
                &&& build_fault(*plan, false) matches Some(c) ==> e.code == c && *final(ctx) == *old(ctx)
                &&& build_fault(*plan, false) is None ==> query_failed(
                    old(ctx).hook,
                    old(ctx).catalog,
                    final(ctx).catalog,
                    *plan,
                    fields_of(schema@),
                    e.code,
                )
            },
        },
{
    let mut c = match build(plan) {
        Ok(c) => c,
        Err(e) => {
            return Err(e);
        },
    };
    let ghost given = planned(*plan, None);
    let mut rows: Vec<Vec<Value>> = Vec::new();
    let mut fuel: u64 = u64::MAX;
    assert(table_rows(rows@) =~= Seq::empty());
    assert(flat(c.op.returned()) =~= Seq::empty());
    proof {
        reveal(always_supplied);
        reveal(as_sure);
        assert(supplied(c, ctx.catalog.mem@));
    }
    while fuel > 0
        invariant
            session_ok(*ctx),
            ctx.same_data(*old(ctx)),
            c.op.wf(),
            c.op.traced(),
            c.op.plan() == given,
            supplied(c, old(ctx).catalog.mem@),
            surely_given(*plan, old(ctx).catalog.mem@, fields_of(schema@)) ==> {
                let mem = old(ctx).catalog.mem@;
                &&& c.op.sure(mem)
                &&& c.op.tys(mem) == sure_types(*plan, mem)
                &&& c.op.bound(mem) < fuel
            },
            given == planned(*plan, None),
            build_fault(*plan, false) is None,
            toured(old(ctx).hook, old(ctx).catalog, c.op.looked(), ctx.catalog),
            c.op.returned().len() + c.op.looked().len() + fuel >= u64::MAX,
            table_rows(rows@) == flat(c.op.returned()),
            all_fit(table_rows(rows@), fields_of(schema@)),
        decreases fuel,
    {
        let ghost before = c.op.returned();
        let ghost was = c.op.looked();
        let ghost mid = ctx.catalog;
        ctx.io.clear();
        ctx.codec.clear();
        let pulled = c.op.next(ctx);
        proof {
            lemma_toured(ctx.hook, old(ctx).catalog, was, mid, c.op.looked(), ctx.catalog);
        }
        let step = match pulled {
            Ok(s) => s,
            Err(e) => {
                return Err(e);
            },
        };
        match step {
            Step::Ready(b) => {
                proof {
                    lemma_flat_push(before, chunk(b));
                }
                let mut flat_batch = b;
                flat_batch.materialize();
                if !check_storage(&flat_batch, schema) {
                    assert(gave(given, old(ctx).catalog.mem@, c.op.looked(), c.op.returned(), c.op.spent()));
                    return Err(Error::new(Code::Internal));
                }
                push_rows(&mut rows, &flat_batch, Ghost(fields_of(schema@)));
            },
            Step::NeedIo => {
                return Err(Error::new(Code::IoFailed));
            },
            Step::NeedCodec => {
                let ghost l = c.op.looked().last();
                assert(ctx.codec@ =~= blocks_asked(l));
                match service_codec(ctx) {
                    Ok(_) => {},
                    Err(e) => {
                        assert(blocks_fail(old(ctx).hook, l, e.code));
                        assert(toured(old(ctx).hook, old(ctx).catalog, c.op.looked(), ctx.catalog));
                        return Err(e);
                    },
                }
            },
            Step::Done => {
                proof {
                    let mem = old(ctx).catalog.mem@;
                    assert(gave(given, mem, c.op.looked(), c.op.returned(), true));
                    if reads_a_table(*plan) && sure_plan(*plan, mem) {
                        assert forall|i: int| 0 <= i < mem.len() implies (#[trigger] mem[i]).wf() by {
                            assert(ctx.catalog.mem@[i].wf());
                        }
                        a_table_gives_one_answer(*plan, mem, c.op.looked(), c.op.returned());
                    }
                }
                return Ok(rows);
            },
        }
        fuel = fuel - 1;
    }
    assert(gave(given, old(ctx).catalog.mem@, c.op.looked(), c.op.returned(), c.op.spent()));
    Err(Error::new(Code::LimitExceeded))
}

// --- Tables and views -------------------------------------------------------------------

/// Whether a name stands for a table or a view.
pub open spec fn name_taken(c: Catalog, name: Seq<char>) -> bool {
    let nm = name_bytes(name);
    !(none_named(table_names(c), nm) && none_named(mem_table_names(c), nm) && none_named(names_of_views(c), nm))
}

fn table_name_exists(c: &Catalog, name: &str) -> (r: bool)
    ensures
        r == name_taken(*c, name@),
{
    if let Some(i) = c.index_of(name) {
        assert(same_at(table_names(*c), name_bytes(name@), i as int));
        return true;
    }
    if let Some(i) = c.mem_index_of(name) {
        assert(same_at(mem_table_names(*c), name_bytes(name@), i as int));
        return true;
    }
    if let Some(i) = c.view_index_of(name) {
        assert(same_at(names_of_views(*c), name_bytes(name@), i as int));
        return true;
    }
    false
}

spec fn same_at(names: Seq<Seq<u8>>, name: Seq<u8>, i: int) -> bool {
    0 <= i < names.len() && crate::hash::same_name(names[i], name)
}

/// Why a table cannot be created, if it cannot.
pub open spec fn create_fault(c: Catalog, name: Seq<char>, schema: Seq<FieldV>, replace: bool) -> Option<Code> {
    let nm = name_bytes(name);
    if !(none_named(table_names(c), nm) && none_named(names_of_views(c), nm)) {
        Some(Code::DuplicateTable)
    } else if !names_unique(schema) {
        Some(Code::DuplicateColumn)
    } else if !none_named(mem_table_names(c), nm) && !replace {
        Some(Code::DuplicateTable)
    } else {
        None
    }
}

/// A table has been put into a catalog at a place: that of the table it replaces, or the last.
pub open spec fn table_put(
    before: Catalog,
    after: Catalog,
    name: Seq<char>,
    schema: Seq<FieldV>,
    rows: Seq<Seq<Val>>,
    i: int,
) -> bool {
    let nm = name_bytes(name);
    &&& 0 <= i < after.mem@.len()
    &&& if none_named(mem_table_names(before), nm) {
        i == before.mem@.len() && after.mem@ == before.mem@.push(after.mem@[i])
    } else {
        first_named(mem_table_names(before), nm, i) && after.mem@ == before.mem@.update(i, after.mem@[i])
    }
    &&& after.mem@[i].name@ == name
    &&& fields_of(after.mem@[i].schema@) == schema
    &&& table_rows(after.mem@[i].rows@) == rows
    &&& after.tables == before.tables
    &&& after.views == before.views
}

/// The rows that a table is created with are read from it.
pub proof fn created_rows_are_read(
    before: Catalog,
    after: Catalog,
    name: Seq<char>,
    schema: Seq<FieldV>,
    rows: Seq<Seq<Val>>,
    i: usize,
    looked: Seq<Look>,
    out: Seq<Chunk>,
)
    requires
        table_put(before, after, name, schema, rows, i as int),
        gave(NodeV::MemScan { table: i }, after.mem@, looked, out, true),
    ensures
        flat(out) == rows,
{
    reveal_with_fuel(gave, 1);
}

/// Creates a table that holds some rows.
pub fn create_filled(
    catalog: &mut Catalog,
    name: &str,
    schema: Vec<Field>,
    rows: Vec<Vec<Value>>,
    replace: bool,
) -> (r: Result<usize, Error>)
    requires
        old(catalog).wf(),
        old(catalog).names_ok(),
        all_fit(table_rows(rows@), fields_of(schema@)),
    ensures
        final(catalog).wf(),
        final(catalog).names_ok(),
        match create_fault(*old(catalog), name@, fields_of(schema@), replace) {
            Some(c) => (r matches Err(e) && e.code == c) && *final(catalog) == *old(catalog),
            None => r matches Ok(i) && table_put(
                *old(catalog),
                *final(catalog),
                name@,
                fields_of(schema@),
                table_rows(rows@),
                i as int,
            ),
        },
{
    let ghost fields = fields_of(schema@);
    let i: usize = match catalog.mem_create(name, schema, replace) {
        Ok(i) => i,
        Err(e) => {
            return Err(e);
        },
    };
    let ghost mid = *catalog;
    if let Some(t) = catalog.mem_get_mut(i) {
        t.rows = rows;
    }
    proof {
        let t = catalog.mem@[i as int];
        assert(mem_table_names(*catalog) =~= mem_table_names(mid));
        assert(mid.mem@[i as int].wf());
        assert(t.wf());
        assert forall|k: int| 0 <= k < catalog.mem@.len() implies (#[trigger] catalog.mem@[k]).wf() by {
            assert(mid.mem@[k].wf());
        }
        assert(table_names(*catalog) == table_names(mid));
        assert(names_of_views(*catalog) == names_of_views(mid));
        let nm = name_bytes(name@);
        if none_named(mem_table_names(*old(catalog)), nm) {
            assert(catalog.mem@ =~= old(catalog).mem@.push(t));
        } else {
            assert(catalog.mem@ =~= old(catalog).mem@.update(i as int, t));
        }
    }
    Ok(i)
}

/// The type in which a column is stored: a column of untyped NULLs is an `INTEGER` column.
pub open spec fn storable(f: FieldV) -> FieldV {
    if f.ty == Ty::Null {
        FieldV { ty: Ty::Int, ..f }
    } else {
        f
    }
}

pub open spec fn storable_schema(schema: Seq<FieldV>) -> Seq<FieldV> {
    Seq::new(schema.len(), |i: int| storable(schema[i]))
}

fn stored_schema(schema: &[Field]) -> (r: Vec<Field>)
    ensures
        fields_of(r@) == storable_schema(fields_of(schema@)),
{
    let mut r: Vec<Field> = Vec::new();
    let mut i: usize = 0;
    while i < schema.len()
        invariant
            i <= schema@.len(),
            r@.len() == i,
            forall|k: int| 0 <= k < i ==> (#[trigger] r@[k])@ == storable(fields_of(schema@)[k]),
        decreases schema@.len() - i,
    {
        let mut f = schema[i].dup();
        if f.ty == Ty::Null {
            f.ty = Ty::Int;
        }
        assert(f@ == storable(fields_of(schema@)[i as int]));
        r.push(f);
        i = i + 1;
    }
    assert(fields_of(r@) =~= storable_schema(fields_of(schema@)));
    r
}

/// A table has been created from a plan: it holds the rows that the plan gives. Running the plan may
/// have changed what formats know of files, and the pages held of these.
pub open spec fn created_from(
    hook: Option<Box<dyn CodecHook>>,
    before: Catalog,
    after: Catalog,
    name: Seq<char>,
    plan: Node,
    replace: bool,
    q: Query,
) -> bool {
    let fields = storable_schema(fields_of(plan.schema_spec()));
    let mid = Catalog { mem: before.mem, ..after };
    &&& create_fault(before, name, fields, replace) is None
    &&& exists|i: int, rows: Seq<Seq<Val>>| #[trigger]
        table_put(mid, after, name, fields, rows, i) && rows_read(hook, before, mid, plan, rows) && reports(
            q,
            rows.len() as int,
        )
}

/// `CREATE TABLE`, with columns or from a query.
pub fn create_table(
    ctx: &mut ExecContext,
    name: &str,
    or_replace: bool,
    if_not_exists: bool,
    columns: Vec<Field>,
    as_select: Option<&Node>,
) -> (r: Result<Query, Error>)
    requires
        session_ok(*old(ctx)),
    ensures
        session_ok(*final(ctx)),
        final(ctx).hook == old(ctx).hook,
        r is Err ==> final(ctx).same_data(*old(ctx)),
        if if_not_exists && !or_replace && name_taken(old(ctx).catalog, name@) {
            (r matches Ok(q) && reports(q, 0)) && *final(ctx) == *old(ctx)
        } else {
            match as_select {
                None => match create_fault(old(ctx).catalog, name@, fields_of(columns@), or_replace) {
                    Some(c) => (r matches Err(e) && e.code == c) && *final(ctx) == *old(ctx),
                    None => (r matches Ok(q) && reports(q, 0)) && exists|i: int| #[trigger]
                        table_put(
                            old(ctx).catalog,
                            final(ctx).catalog,
                            name@,
                            fields_of(columns@),
                            Seq::empty(),
                            i,
                        ),
                },
                Some(plan) => match build_fault(*plan, false) {
                    Some(c) => r matches Err(e) && e.code == c,
                    None => match r {
                        Ok(q) => created_from(
                            old(ctx).hook,
                            old(ctx).catalog,
                            final(ctx).catalog,
                            name@,
                            *plan,
                            or_replace,
                            q,
                        ) && files_of(final(ctx).catalog) == files_of(old(ctx).catalog),
                        Err(e) => {
                            let fields = storable_schema(fields_of(plan.schema_spec()));
                            let hook = old(ctx).hook;
                            let to = final(ctx).catalog;
                            ||| query_failed(hook, old(ctx).catalog, to, *plan, fields, e.code)
                            ||| create_fault(old(ctx).catalog, name@, fields, or_replace) == Some(e.code) && exists|
                                rows: Seq<Seq<Val>>,
                            | #[trigger] rows_read(hook, old(ctx).catalog, to, *plan, rows)
                        },
                    },
                },
            }
        },
{
    if if_not_exists && !or_replace && table_name_exists(&ctx.catalog, name) {
        return Ok(count_result(0));
    }
    match as_select {
        None => {
            let rows: Vec<Vec<Value>> = Vec::new();
            assert(table_rows(rows@) =~= Seq::empty());
            match create_filled(&mut ctx.catalog, name, columns, rows, or_replace) {
                Ok(i) => {
                    assert(table_put(
                        old(ctx).catalog,
                        ctx.catalog,
                        name@,
                        fields_of(columns@),
                        Seq::empty(),
                        i as int,
                    ));
                    Ok(count_result(0))
                },
                Err(e) => Err(e),
            }
        },
        Some(plan) => {
            let schema = stored_schema(plan.schema());
            let rows = match run_query_to_rows(ctx, plan, &schema) {
                Ok(rows) => rows,
                Err(e) => {
                    return Err(e);
                },
            };
            let ghost mid = *ctx;
            let n: usize = rows.len();
            assert(table_rows(rows@).len() == n);
            match create_filled(&mut ctx.catalog, name, schema, rows, or_replace) {
                Ok(i) => {
                    let q = count_result(n);
                    proof {
                        assert(mid.same_data(*old(ctx)));
                        assert(mid.catalog == (Catalog { mem: old(ctx).catalog.mem, ..ctx.catalog }));
                        assert(table_put(
                            mid.catalog,
                            ctx.catalog,
                            name@,
                            fields_of(schema@),
                            table_rows(rows@),
                            i as int,
                        ));
                        assert(created_from(old(ctx).hook, old(ctx).catalog, ctx.catalog, name@, *plan, or_replace, q));
                    }
                    Ok(q)
                },
                Err(e) => Err(e),
            }
        },
    }
}

/// `DROP TABLE`. With `if_exists`, a name that stands for nothing is no error; one that stands
/// for something else is.
pub fn drop_table(ctx: &mut ExecContext, name: &str, if_exists: bool) -> (r: Result<Query, Error>)
    requires
        session_ok(*old(ctx)),
    ensures
        session_ok(*final(ctx)),
        only_catalog(*old(ctx), *final(ctx)),
        match r {
            Ok(q) => reports(q, 0) && if none_named(mem_table_names(old(ctx).catalog), name_bytes(name@)) {
                if_exists && !name_taken(old(ctx).catalog, name@) && *final(ctx) == *old(ctx)
            } else {
                &&& mem_dropped(old(ctx).catalog, final(ctx).catalog, name@, Ok(()))
                &&& final(ctx).catalog.tables == old(ctx).catalog.tables
                &&& final(ctx).catalog.views == old(ctx).catalog.views
            },
            Err(e) => {
                &&& e.code == Code::TableNotFound
                &&& none_named(mem_table_names(old(ctx).catalog), name_bytes(name@))
                &&& !if_exists || name_taken(old(ctx).catalog, name@)
                &&& *final(ctx) == *old(ctx)
            },
        },
{
    let existed: bool = table_name_exists(&ctx.catalog, name);
    match ctx.catalog.mem_drop(name) {
        Ok(()) => {
            proof {
                let i = choose|i: int| #[trigger]
                    first_named(mem_table_names(old(ctx).catalog), name_bytes(name@), i) && ctx.catalog.mem@
                        == old(ctx).catalog.mem@.remove(i);
                assert(same_at(mem_table_names(old(ctx).catalog), name_bytes(name@), i));
            }
            Ok(count_result(0))
        },
        Err(e) => {
            if if_exists && !existed {
                return Ok(count_result(0));
            }
            Err(e)
        },
    }
}

/// `CREATE VIEW`.
pub fn create_view(ctx: &mut ExecContext, name: &str, query_sql: String, or_replace: bool) -> (r: Result<Query, Error>)
    requires
        session_ok(*old(ctx)),
    ensures
        session_ok(*final(ctx)),
        only_catalog(*old(ctx), *final(ctx)),
        final(ctx).catalog.tables == old(ctx).catalog.tables,
        final(ctx).catalog.mem == old(ctx).catalog.mem,
        match r {
            Ok(q) => reports(q, 0) && exists|i: usize| #[trigger]
                view_created(old(ctx).catalog, final(ctx).catalog, name@, query_sql, or_replace, Ok(i)),
            Err(e) => view_created(old(ctx).catalog, final(ctx).catalog, name@, query_sql, or_replace, Err(e)),
        },
{
    match ctx.catalog.view_create(name, query_sql, or_replace) {
        Ok(i) => Ok(count_result(0)),
        Err(e) => Err(e),
    }
}

/// `DROP VIEW`.
pub fn drop_view(ctx: &mut ExecContext, name: &str, if_exists: bool) -> (r: Result<Query, Error>)
    requires
        session_ok(*old(ctx)),
    ensures
        session_ok(*final(ctx)),
        only_catalog(*old(ctx), *final(ctx)),
        match r {
            Ok(q) => reports(q, 0) && if none_named(names_of_views(old(ctx).catalog), name_bytes(name@)) {
                if_exists && !name_taken(old(ctx).catalog, name@) && *final(ctx) == *old(ctx)
            } else {
                &&& view_dropped(old(ctx).catalog, final(ctx).catalog, name@, Ok(()))
                &&& final(ctx).catalog.tables == old(ctx).catalog.tables
                &&& final(ctx).catalog.mem == old(ctx).catalog.mem
            },
            Err(e) => {
                &&& e.code == Code::TableNotFound
                &&& none_named(names_of_views(old(ctx).catalog), name_bytes(name@))
                &&& !if_exists || name_taken(old(ctx).catalog, name@)
                &&& *final(ctx) == *old(ctx)
            },
        },
{
    let existed: bool = table_name_exists(&ctx.catalog, name);
    match ctx.catalog.view_drop(name) {
        Ok(()) => {
            proof {
                let i = choose|i: int| #[trigger]
                    first_named(names_of_views(old(ctx).catalog), name_bytes(name@), i) && ctx.catalog.views@
                        == old(ctx).catalog.views@.remove(i);
                assert(same_at(names_of_views(old(ctx).catalog), name_bytes(name@), i));
            }
            Ok(count_result(0))
        },
        Err(e) => {
            if if_exists && !existed {
                return Ok(count_result(0));
            }
            Err(e)
        },
    }
}

// --- ALTER TABLE ------------------------------------------------------------------------

/// What `ALTER TABLE` does to a table.
pub enum AlterTableAction {
    AddColumn { field: Field, default: Option<Cell> },
    DropColumn { name: String },
    RenameColumn { old: String, new: String },
    RenameTable { new_name: String },
}

/// What a new column holds in the rows there are.
pub open spec fn default_value(default: Option<Cell>, ty: Ty) -> Result<Val, Code> {
    match default {
        Some(c) => strict_value(c, ty),
        None => Ok(Val::Null),
    }
}

/// What `ADD COLUMN` comes to. A column that cannot be NULL needs a value if there are rows.
pub open spec fn add_column_done(
    before: Catalog,
    after: Catalog,
    idx: usize,
    field: Field,
    default: Option<Cell>,
    r: Result<(), Error>,
) -> bool {
    match default_value(default, field.ty) {
        Err(c) => (r matches Err(e) && e.code == c) && after == before,
        Ok(v) => if !field.nullable && v is Null && before.mem@[idx as int].rows@.len() > 0 {
            (r matches Err(e) && e.code == Code::TypeMismatch) && after == before
        } else {
            column_added(before, after, idx, field, v, r)
        },
    }
}

fn add_column(ctx: &mut ExecContext, idx: usize, field: Field, default: Option<Cell>) -> (r: Result<(), Error>)
    requires
        session_ok(*old(ctx)),
        idx < old(ctx).catalog.mem@.len(),
    ensures
        session_ok(*final(ctx)),
        only_catalog(*old(ctx), *final(ctx)),
        final(ctx).catalog.tables == old(ctx).catalog.tables,
        final(ctx).catalog.views == old(ctx).catalog.views,
        add_column_done(old(ctx).catalog, final(ctx).catalog, idx, field, default, r),
{
    let value = match &default {
        Some(c) => match eval_value_strict(&ctx.vm, c, field.ty) {
            Ok(v) => v,
            Err(e) => {
                return Err(e);
            },
        },
        None => Value::Null,
    };
    let has_rows: bool = match ctx.catalog.mem_get(idx) {
        Some(t) => t.rows.len() > 0,
        None => false,
    };
    if !field.nullable && value.is_null() && has_rows {
        return Err(Error::new(Code::TypeMismatch));
    }
    ctx.catalog.mem_add_column(idx, field, value)
}

/// What an action does to a table.
pub open spec fn altered(
    before: Catalog,
    after: Catalog,
    idx: usize,
    action: AlterTableAction,
    r: Result<(), Error>,
) -> bool {
    match action {
        AlterTableAction::AddColumn { field, default } => add_column_done(before, after, idx, field, default, r),
        AlterTableAction::DropColumn { name } => column_dropped(before, after, idx, name@, r),
        AlterTableAction::RenameColumn { old, new } => column_renamed(before, after, idx, old@, new@, r),
        AlterTableAction::RenameTable { new_name } => table_renamed(before, after, idx, new_name@, r),
    }
}

/// `ALTER TABLE`.
pub fn alter_table(ctx: &mut ExecContext, name: &str, action: AlterTableAction) -> (r: Result<Query, Error>)
    requires
        session_ok(*old(ctx)),
    ensures
        session_ok(*final(ctx)),
        only_catalog(*old(ctx), *final(ctx)),
        final(ctx).catalog.tables == old(ctx).catalog.tables,
        final(ctx).catalog.views == old(ctx).catalog.views,
        match r {
            Ok(q) => reports(q, 0) && exists|idx: usize| #[trigger]
                writable(old(ctx).catalog, name@, Ok(idx)) && altered(
                    old(ctx).catalog,
                    final(ctx).catalog,
                    idx,
                    action,
                    Ok(()),
                ),
            Err(e) => {
                ||| writable(old(ctx).catalog, name@, Err(e)) && *final(ctx) == *old(ctx)
                ||| exists|idx: usize| #[trigger]
                    writable(old(ctx).catalog, name@, Ok(idx)) && altered(
                        old(ctx).catalog,
                        final(ctx).catalog,
                        idx,
                        action,
                        Err(e),
                    )
            },
        },
{
    let idx: usize = match ctx.catalog.mem_index_writable(name) {
        Ok(i) => i,
        Err(e) => {
            return Err(e);
        },
    };
    let ghost before = ctx.catalog;
    let done: Result<(), Error> = match action {
        AlterTableAction::AddColumn { field, default } => add_column(ctx, idx, field, default),
        AlterTableAction::DropColumn { name: col } => ctx.catalog.mem_drop_column(idx, col.as_str()),
        AlterTableAction::RenameColumn { old: from, new: to } => ctx.catalog.mem_rename_column(
            idx,
            from.as_str(),
            to.as_str(),
        ),
        AlterTableAction::RenameTable { new_name } => ctx.catalog.mem_rename_table(idx, new_name.as_str()),
    };
    proof {
        assert(writable(before, name@, Ok(idx)));
        assert(altered(before, ctx.catalog, idx, action, done));
    }
    match done {
        Ok(()) => Ok(count_result(0)),
        Err(e) => Err(e),
    }
}

} // verus!
