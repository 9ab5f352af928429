//! Physical operators.
//!
//! Operators are pulled: one call of `next` gives a batch, or says that bytes
//! have to be fetched or decompressed first, or that there is no more. An
//! operator keeps all partial state in itself, so a pull that was interrupted is
//! simply repeated.
//!
//! An input may give batches of which nothing is returned. An operator pulls it again, as often
//! as 64 bits can count, before it gives up with `LimitExceeded`.

pub mod accum;
pub mod agg;
pub mod answers;
pub mod batching;
pub mod finished;
pub mod join;
pub mod joined;
pub mod looks;
pub mod meaning;
pub mod pairing;
pub mod range;
pub mod ranking;
pub mod recursive;
pub mod rowkey;
pub mod sample;
pub mod setop;
pub mod sort;
pub mod text;
pub mod total;
pub mod unnest;
pub mod window;

use crate::catalog::{
    file_of, files_of, lemma_only_part, lemma_only_part_twice, only_part, table_names, table_rows, Catalog, MemTable, Source, Table, TablePart,
};
use crate::error::{Code, Error};
use crate::exec::rowkey::{
    col_keys, column_refs, encode_key, fresh_flags, grown, index_bytes, lemma_col_key, lemma_grown_bounds, mark_fresh,
    HashIndex, max_keys,
};
use crate::exec::batching::typed;
use crate::exec::looks::{leads, led_on, lemma_looked_twice, lemma_no_look, looked_on};
use crate::exec::meaning::{all_taken, begins, gave, lemma_begins, lemma_taken_push, look_stops, scan_stops, stops, stuck, supplied, Why};
use crate::exec::recursive::{all_dense, chunks_of, indexed, lemma_grown_keys};
use crate::exec::sort::types_of;
use crate::expr::{
    dup_opt_program, dup_programs, cols_of, opt_prog, program_keep, programs_value, progs_of, ColV, Program,
    ProgramV, Vm,
};
use crate::format::{ranges_ok, CodecHook, CodecTask, Compression, Pruning};
use crate::plan::{
    aggs_of, dup_aggs, dup_keys, dup_windows, keys_of, planned, pruners_of, schema_types, windows_of, Agg, JoinKind,
    MemScanSpec, Node, NodeV, SampleSpec, ScanSpec, SetOpKind, SortKey, WindowSpec,
};
use crate::vector::{
    dup_fields, gather_columns, kept, lemma_kept_all, row_at, row_numbers, cols_wf, sat64, Batch, Field, Ty, Val, Vector, BATCH_SIZE, MAX_ROWS,
};
use std::rc::Rc;
use vstd::prelude::*;

verus! {

/// A byte range requested from the host.
#[derive(Clone, Copy, PartialEq, Eq, Structural, Debug)]
pub struct IoRequest {
    /// The table's number in the catalog.
    pub table: usize,
    /// Which file of the table.
    pub part: usize,
    pub offset: u64,
    pub len: u64,
}

/// A compressed block that the host is asked to decompress.
#[derive(Clone, Copy, PartialEq, Eq, Structural, Debug)]
pub struct CodecRequest {
    pub table: usize,
    pub part: usize,
    pub codec: Compression,
    pub offset: u64,
    pub len: u32,
    pub out_len: u32,
}

#[derive(Debug)]
pub enum Step {
    Ready(Batch),
    /// Bytes have to be fetched; the requests are in the context.
    NeedIo,
    /// Blocks have to be decompressed; the requests are in the context.
    NeedCodec,
    Done,
}

/// What operators work on.
pub struct ExecContext {
    pub catalog: Catalog,
    pub vm: Vm,
    pub io: Vec<IoRequest>,
    pub codec: Vec<CodecRequest>,
    /// Decompresses blocks for queries that cannot wait for the host.
    pub hook: Option<Box<dyn CodecHook>>,
}

impl ExecContext {
    pub open spec fn wf(&self) -> bool {
        self.catalog.wf()
    }

    /// The same in-memory tables, the same views, and the same files under the same names, with the
    /// same bytes fetched, and the same hook. What formats know of the files, and the pages held of
    /// them, may differ.
    pub open spec fn same_data(&self, other: ExecContext) -> bool {
        &&& self.hook == other.hook
        &&& self.catalog.mem == other.catalog.mem
        &&& self.catalog.views == other.catalog.views
        &&& files_of(self.catalog) == files_of(other.catalog)
        &&& table_names(self.catalog) == table_names(other.catalog)
    }

    pub fn new(catalog: Catalog) -> (c: ExecContext)
        ensures
            c.catalog == catalog,
            c.io@.len() == 0,
            c.codec@.len() == 0,
            c.hook is None,
    {
        ExecContext { catalog, vm: Vm::new(), io: Vec::new(), codec: Vec::new(), hook: None }
    }
}

/// A step gives a batch that is well-formed.
pub open spec fn step_ok(r: Result<Step, Error>) -> bool {
    r matches Ok(Step::Ready(b)) ==> b.wf()
}

/// A batch as a value: its columns' types and its rows.
#[verifier::ext_equal]
pub struct Chunk {
    pub types: Seq<Ty>,
    pub rows: Seq<Seq<Val>>,
}

pub open spec fn chunk(b: Batch) -> Chunk {
    Chunk { types: b.types(), rows: b.rows() }
}

/// What is kept of an operator's past.
pub struct Trace {
    /// The batches returned so far.
    pub out: Seq<Chunk>,
    /// Whether these still follow from the batches that came in. They no longer do once a
    /// batch could not be worked on.
    pub ok: bool,
}

/// The trace of an operator that has returned nothing, on an input that may have.
pub open spec fn fresh_trace(input: Seq<Chunk>) -> Trace {
    Trace { out: Seq::empty(), ok: input.len() == 0 }
}

pub open spec fn lost_trace(t: Trace) -> Trace {
    Trace { out: t.out, ok: false }
}

pub open spec fn grown_trace(t: Trace, c: Chunk) -> Trace {
    Trace { out: t.out.push(c), ok: t.ok }
}

/// Batches taken in one after another: the state after them, and what was returned.
pub open spec fn run<S>(step: spec_fn(S, Chunk) -> (S, Option<Chunk>), init: S, xs: Seq<Chunk>) -> (S, Seq<Chunk>)
    decreases xs.len(),
{
    if xs.len() == 0 {
        (init, Seq::empty())
    } else {
        let (s, out) = run(step, init, xs.drop_last());
        let (t, c) = step(s, xs.last());
        (
            t,
            match c {
                Some(c) => out.push(c),
                None => out,
            },
        )
    }
}

/// One more batch is one more step.
pub(crate) proof fn lemma_run_push<S>(step: spec_fn(S, Chunk) -> (S, Option<Chunk>), init: S, xs: Seq<Chunk>, c: Chunk)
    ensures
        run(step, init, xs.push(c)) == {
            let (s, out) = run(step, init, xs);
            let (t, x) = step(s, c);
            (
                t,
                match x {
                    Some(x) => out.push(x),
                    None => out,
                },
            )
        },
{
    assert(xs.push(c).drop_last() =~= xs);
}

/// The rows of batches, one after another.
pub open spec fn flat(xs: Seq<Chunk>) -> Seq<Seq<Val>>
    decreases xs.len(),
{
    if xs.len() == 0 {
        Seq::empty()
    } else {
        flat(xs.drop_last()) + xs.last().rows
    }
}

pub(crate) proof fn lemma_flat_push(xs: Seq<Chunk>, c: Chunk)
    ensures
        flat(xs.push(c)) == flat(xs) + c.rows,
{
    assert(xs.push(c).drop_last() =~= xs);
}

/// A batch as it is handed out: it has rows, at most [`BATCH_SIZE`] of them, in columns of these types.
pub open spec fn portion(c: Chunk, tys: Seq<Ty>) -> bool {
    0 < c.rows.len() <= BATCH_SIZE && c.types == tys
}

/// All batches are such ones.
pub open spec fn portions(out: Seq<Chunk>, tys: Seq<Ty>) -> bool {
    forall|k: int| 0 <= k < out.len() ==> portion(#[trigger] out[k], tys)
}

pub(crate) proof fn lemma_portions_push(out: Seq<Chunk>, tys: Seq<Ty>, c: Chunk)
    requires
        portions(out, tys),
        portion(c, tys),
    ensures
        portions(out.push(c), tys),
{
    assert forall|k: int| 0 <= k < out.push(c).len() implies portion(#[trigger] out.push(c)[k], tys) by {
        if k < out.len() {
            assert(portion(out[k], tys));
        }
    }
}

/// A batch as it is handed out, with the columns of one of some other batches before columns of
/// these types.
pub open spec fn wider_portion(c: Chunk, xs: Seq<Chunk>, more: Seq<Ty>) -> bool {
    exists|k: int| 0 <= k < xs.len() && portion(c, (#[trigger] xs[k]).types + more)
}

pub(crate) proof fn lemma_wider_portion(c: Chunk, xs: Seq<Chunk>, x: Chunk, more: Seq<Ty>)
    requires
        wider_portion(c, xs, more),
    ensures
        wider_portion(c, xs.push(x), more),
{
    let k = choose|k: int| 0 <= k < xs.len() && portion(c, (#[trigger] xs[k]).types + more);
    assert(xs.push(x)[k] == xs[k]);
}

/// A row has a value per column, and each fits its column's type.
pub open spec fn row_typed(tys: Seq<Ty>, row: Seq<Val>) -> bool {
    &&& row.len() == tys.len()
    &&& forall|c: int| 0 <= c < tys.len() ==> (#[trigger] row[c]).fits(tys[c].phys())
}

/// The rows fit the types of their columns.
pub open spec fn rows_typed(tys: Seq<Ty>, rows: Seq<Seq<Val>>) -> bool {
    forall|r: int| 0 <= r < rows.len() ==> row_typed(tys, #[trigger] rows[r])
}

pub(crate) proof fn lemma_batch_typed(b: Batch)
    requires
        b.wf(),
    ensures
        rows_typed(b.types(), b.rows()),
{
    assert forall|r: int| 0 <= r < b.rows().len() implies row_typed(b.types(), #[trigger] b.rows()[r]) by {
        let row = b.rows()[r];
        assert forall|c: int| 0 <= c < b.types().len() implies (#[trigger] row[c]).fits(b.types()[c].phys()) by {
            assert(b.cols@[c].wf());
            assert(b.cols@[c]@[b.phys_row(r)].fits(b.cols@[c].ty().phys()));
        }
    }
}

/// Whether a predicate can be evaluated on all rows of some types.
pub open spec fn always_kept(pred: ProgramV, tys: Seq<Ty>) -> bool {
    forall|rows: Seq<Seq<Val>>| rows_typed(tys, rows) ==> (#[trigger] program_keep(pred, tys, rows)) is Ok
}

/// The types that programs are meant to result in.
pub open spec fn meant_types(progs: Seq<ProgramV>) -> Seq<Ty> {
    Seq::new(progs.len(), |k: int| progs[k].result_ty)
}

/// Whether programs can be evaluated on all rows of some types, with results of the types meant.
pub open spec fn always_valued(progs: Seq<ProgramV>, tys: Seq<Ty>) -> bool {
    forall|rows: Seq<Seq<Val>>|
        rows_typed(tys, rows) ==> match #[trigger] programs_value(progs, tys, rows, progs.len() as int) {
            Ok(cols) => Seq::new(cols.len(), |k: int| cols[k].ty) == meant_types(progs),
            Err(_) => false,
        }
}

/// Some requests come first among others.
pub open spec fn extends<T>(before: Seq<T>, after: Seq<T>) -> bool {
    before.len() <= after.len() && after.take(before.len() as int) == before
}

/// The requests for bytes that a look has found to be missing.
pub open spec fn bytes_asked(l: Look) -> Seq<IoRequest> {
    match found(l.spec, l) {
        Some(Finding::Bytes(io)) => io,
        _ => Seq::empty(),
    }
}

/// The requests for blocks that a look has found to be missing.
pub open spec fn blocks_asked(l: Look) -> Seq<CodecRequest> {
    match found(l.spec, l) {
        Some(Finding::Blocks(codec)) => codec,
        _ => Seq::empty(),
    }
}

/// What a pull does to the requests in the context: it adds the bytes or the blocks that it waits
/// for, which are those that its last look has found to be missing, and nothing else.
pub open spec fn asks(
    before: ExecContext,
    r: Result<Step, Error>,
    after: ExecContext,
    was: Seq<Look>,
    now: Seq<Look>,
) -> bool {
    match r {
        Ok(Step::NeedIo) => {
            &&& was.len() < now.len()
            &&& after.io@ == before.io@ + bytes_asked(now.last())
            &&& before.io@.len() < after.io@.len()
            &&& after.codec == before.codec
        },
        Ok(Step::NeedCodec) => {
            &&& was.len() < now.len()
            &&& after.codec@ == before.codec@ + blocks_asked(now.last())
            &&& before.codec@.len() < after.codec@.len()
            &&& after.io == before.io
        },
        _ => after.io == before.io && after.codec == before.codec,
    }
}

/// Why a pull gave neither a batch nor the end, if it did not.
pub open spec fn why_of(r: Result<Step, Error>) -> Option<Why> {
    match r {
        Ok(Step::NeedIo) => Some(Why::Io),
        Ok(Step::NeedCodec) => Some(Why::Codec),
        Err(e) => Some(Why::Failed(e.code)),
        _ => None,
    }
}

/// Pulled for batches. An interrupted pull returns nothing and loses nothing: what has been
/// returned depends only on what has come in, not on the interruptions.
pub trait Operator {
    /// The operator's invariant.
    open spec fn wf(&self) -> bool {
        true
    }

    /// The plan that the operator carries out.
    open spec fn plan(&self) -> NodeV {
        NodeV::Other
    }

    /// The looks taken so far at the splits of tables in files.
    open spec fn looked(&self) -> Seq<Look> {
        Seq::empty()
    }

    /// Whether what has been returned is known to follow from what came in.
    open spec fn traced(&self) -> bool {
        false
    }

    /// The batches returned so far.
    open spec fn returned(&self) -> Seq<Chunk> {
        Seq::empty()
    }

    /// Whether there is no more to return.
    open spec fn spent(&self) -> bool {
        true
    }

    /// Whether what came in is what the plans of the inputs give, the in-memory tables being
    /// `mem`.
    open spec fn sound(&self, mem: Seq<MemTable>) -> bool {
        false
    }

    /// Whether no pull can fail or has to wait, the in-memory tables being `mem`.
    open spec fn sure(&self, mem: Seq<MemTable>) -> bool {
        false
    }

    /// The types of the columns, where no pull can fail.
    open spec fn tys(&self, mem: Seq<MemTable>) -> Seq<Ty> {
        Seq::empty()
    }

    /// How many batches are still to come at most, where no pull can fail.
    open spec fn bound(&self, mem: Seq<MemTable>) -> nat {
        0
    }

    fn next(&mut self, ctx: &mut ExecContext) -> (r: Result<Step, Error>)
        requires
            old(self).wf(),
            old(ctx).wf(),
        ensures
            final(self).wf(),
            final(ctx).wf(),
            final(ctx).same_data(*old(ctx)),
            asks(*old(ctx), r, *final(ctx), old(self).looked(), final(self).looked()),
            looked_on(old(self).looked(), old(ctx).catalog, final(self).looked(), final(ctx).catalog),
            step_ok(r),
            final(self).plan() == old(self).plan(),
            old(self).traced() && old(self).sound(old(ctx).catalog.mem@) ==> (why_of(r) matches Some(why) ==> stops(
                final(self).plan(),
                old(ctx).catalog.mem@,
                final(self).looked(),
                why,
            )),
            final(self).traced() ==> old(self).traced() && final(self).returned() == match r {
                Ok(Step::Ready(b)) => old(self).returned().push(chunk(b)),
                _ => old(self).returned(),
            },
            final(self).traced() && (r matches Ok(Step::Done)) ==> final(self).spent(),
            old(self).traced() && r is Ok ==> final(self).traced(),
            old(self).sound(old(ctx).catalog.mem@) && final(self).traced() ==> final(self).sound(
                old(ctx).catalog.mem@,
            ) && gave(
                final(self).plan(),
                old(ctx).catalog.mem@,
                final(self).looked(),
                final(self).returned(),
                final(self).spent(),
            ),
            old(self).sure(old(ctx).catalog.mem@) ==> {
                let mem = old(ctx).catalog.mem@;
                &&& final(self).sure(mem)
                &&& final(self).tys(mem) == old(self).tys(mem)
                &&& match r {
                    Ok(Step::Ready(b)) => b.types() == old(self).tys(mem) && final(self).bound(mem) < old(self).bound(
                        mem,
                    ),
                    Ok(Step::Done) => final(self).bound(mem) <= old(self).bound(mem),
                    _ => false,
                }
            },
    ;
}

/// What an operator was answered by its input.
pub enum Said {
    /// It has not been asked.
    Nothing,
    Batch,
    /// Bytes have to be fetched; these are the requests in the context.
    Io(Seq<IoRequest>),
    /// Blocks have to be decompressed; these are the requests in the context.
    Codec(Seq<CodecRequest>),
    End,
    Failed(Code),
}

impl Said {
    /// Whether the operator can go on with it.
    pub open spec fn goes_on(self) -> bool {
        self is Nothing || self is Batch || self is End
    }
}

pub open spec fn said_of(r: Result<Step, Error>, ctx: ExecContext) -> Said {
    match r {
        Ok(Step::Ready(_)) => Said::Batch,
        Ok(Step::NeedIo) => Said::Io(ctx.io@),
        Ok(Step::NeedCodec) => Said::Codec(ctx.codec@),
        Ok(Step::Done) => Said::End,
        Err(e) => Said::Failed(e.code),
    }
}

/// What is heard of two inputs: that one cannot go on, or else what the other says.
pub open spec fn heard(a: Said, b: Said) -> Said {
    if a.goes_on() {
        b
    } else {
        a
    }
}

/// What an input cannot go on with is passed on as it is: the interruption with the requests, and
/// the failure. Nothing else is an interruption.
pub open spec fn passes_on(said: Said, r: Result<Step, Error>, ctx: ExecContext) -> bool {
    match said {
        Said::Io(io) => (r matches Ok(Step::NeedIo)) && ctx.io@ == io,
        Said::Codec(codec) => (r matches Ok(Step::NeedCodec)) && ctx.codec@ == codec,
        Said::Failed(c) => r matches Err(e) && e.code == c,
        _ => !(r matches Ok(Step::NeedIo)) && !(r matches Ok(Step::NeedCodec)),
    }
}

/// What an operator makes of its inputs' answers: what they cannot go on with is passed on, and as
/// long as its past is known, it fails of itself only if it cannot go on with what they have given.
pub open spec fn answers(
    r: Result<Step, Error>,
    ctx: ExecContext,
    said: Said,
    traced: bool,
    plan: NodeV,
    ls: Seq<Chunk>,
    rs: Seq<Chunk>,
) -> bool {
    &&& passes_on(said, r, ctx)
    &&& r matches Err(e) ==> said.goes_on() && traced ==> stuck(plan, ls, rs, e.code)
}

/// An operator that another one holds.
pub struct Held<T> {
    pub op: T,
    /// What it answered last in the current pull.
    pub said: Ghost<Said>,
}

/// The input of an operator.
pub type Child = Held<Box<dyn Operator>>;

/// Makes an operator the input of another.
pub fn child(op: Box<dyn Operator>) -> (c: Child)
    requires
        op.wf(),
    ensures
        c.op.wf(),
        c.op.plan() == op.plan(),
        c.op.looked() == op.looked(),
        c.op.traced() == op.traced(),
        c.op.returned() == op.returned(),
        c.op.spent() == op.spent(),
        forall|mem: Seq<MemTable>| #[trigger] c.op.sound(mem) == op.sound(mem),
        forall|mem: Seq<MemTable>| #[trigger] c.op.sure(mem) == op.sure(mem),
        forall|mem: Seq<MemTable>| #[trigger] c.op.tys(mem) == op.tys(mem),
        forall|mem: Seq<MemTable>| #[trigger] c.op.bound(mem) == op.bound(mem),
{
    let c = Held { op, said: Ghost(Said::Nothing) };
    c
}

impl Held<Box<dyn Operator>> {
    /// Pulls the operator and keeps in mind what it answered.
    pub fn pull(&mut self, ctx: &mut ExecContext) -> (r: Result<Step, Error>)
        requires
            old(self).op.wf(),
            old(ctx).wf(),
        ensures
            final(self).said@ == said_of(r, *final(ctx)),
            final(self).op.wf(),
            final(ctx).wf(),
            final(ctx).same_data(*old(ctx)),
            asks(*old(ctx), r, *final(ctx), old(self).op.looked(), final(self).op.looked()),
            looked_on(old(self).op.looked(), old(ctx).catalog, final(self).op.looked(), final(ctx).catalog),
            forall|was: Seq<Look>, from: Catalog| #[trigger]
                looked_on(was, from, old(self).op.looked(), old(ctx).catalog) ==> looked_on(
                    was,
                    from,
                    final(self).op.looked(),
                    final(ctx).catalog,
                ),
            step_ok(r),
            final(self).op.plan() == old(self).op.plan(),
            old(self).op.traced() && old(self).op.sound(old(ctx).catalog.mem@) ==> (why_of(r) matches Some(why) ==> stops(
                final(self).op.plan(),
                old(ctx).catalog.mem@,
                final(self).op.looked(),
                why,
            )),
            final(self).op.traced() ==> old(self).op.traced() && final(self).op.returned() == match r {
                Ok(Step::Ready(b)) => old(self).op.returned().push(chunk(b)),
                _ => old(self).op.returned(),
            },
            final(self).op.traced() && (r matches Ok(Step::Done)) ==> final(self).op.spent(),
            old(self).op.traced() && r is Ok ==> final(self).op.traced(),
            old(self).op.sound(old(ctx).catalog.mem@) && final(self).op.traced() ==> final(self).op.sound(
                old(ctx).catalog.mem@,
            ) && gave(
                final(self).op.plan(),
                old(ctx).catalog.mem@,
                final(self).op.looked(),
                final(self).op.returned(),
                final(self).op.spent(),
            ),
            old(self).op.sure(old(ctx).catalog.mem@) ==> {
                let mem = old(ctx).catalog.mem@;
                &&& final(self).op.sure(mem)
                &&& final(self).op.tys(mem) == old(self).op.tys(mem)
                &&& match r {
                    Ok(Step::Ready(b)) => b.types() == old(self).op.tys(mem) && final(self).op.bound(mem)
                        < old(self).op.bound(mem),
                    Ok(Step::Done) => final(self).op.bound(mem) <= old(self).op.bound(mem),
                    _ => false,
                }
            },
    {
        let ghost before = self.op.looked();
        let r = self.op.next(ctx);
        self.said = Ghost(said_of(r, *ctx));
        proof {
            assert forall|was: Seq<Look>, from: Catalog| #[trigger]
                looked_on(was, from, before, old(ctx).catalog) implies looked_on(
                was,
                from,
                self.op.looked(),
                ctx.catalog,
            ) by {
                lemma_looked_twice(was, from, before, old(ctx).catalog, self.op.looked(), ctx.catalog);
            }
        }
        r
    }
}

// --- Scan -------------------------------------------------------------------------

/// A split that has been read.
pub struct Decoded {
    cols: Vec<Vector>,
    rows: usize,
    /// The next row to return.
    pos: usize,
}

/// Reads a table split by split.
pub struct Scan {
    spec: ScanSpec,
    /// The part being read.
    part: usize,
    /// The next split within the part.
    split: usize,
    cur: Option<Decoded>,
    /// The splits looked at so far.
    looks: Ghost<Seq<Look>>,
    trace: Ghost<Trace>,
}

/// The first split at or after a position, as a part and a split in it.
pub open spec fn sought(table: Table, part: int, split: int) -> (int, int)
    decreases table.parts@.len() - part,
{
    if part < 0 || part >= table.parts@.len() || split < table.parts@[part].format.told(Seq::empty()).split_count {
        (part, split)
    } else {
        sought(table, part + 1, 0)
    }
}

/// The next rows of those that are left, at most a batch of them.
pub open spec fn next_rows(left: Seq<Seq<Val>>, b: Batch, rest: Seq<Seq<Val>>) -> bool {
    let n = if left.len() < BATCH_SIZE {
        left.len() as int
    } else {
        BATCH_SIZE as int
    };
    n > 0 && b.rows() == left.take(n) && rest == left.skip(n)
}

/// The requests for those byte ranges that have not been fetched yet.
pub open spec fn range_requests(src: Source, ranges: Seq<(u64, u64)>, table: usize, part: usize, k: int) -> Seq<
    IoRequest,
>
    decreases k,
{
    if k <= 0 {
        Seq::empty()
    } else {
        let before = range_requests(src, ranges, table, part, k - 1);
        match src.absent(ranges[k - 1].0, (ranges[k - 1].1 - ranges[k - 1].0) as u64) {
            Some((offset, len)) => before.push(IoRequest { table, part, offset, len }),
            None => before,
        }
    }
}

/// The requests for those blocks that have not been decompressed yet.
pub open spec fn block_requests(src: Source, tasks: Seq<CodecTask>, table: usize, part: usize, k: int) -> Seq<
    CodecRequest,
>
    decreases k,
{
    if k <= 0 {
        Seq::empty()
    } else {
        let before = block_requests(src, tasks, table, part, k - 1);
        let t = tasks[k - 1];
        if src.page(t.offset, t.len) is Some {
            before
        } else {
            before.push(
                CodecRequest {
                    table,
                    part,
                    codec: t.codec,
                    offset: t.offset,
                    len: t.len,
                    out_len: t.out_len,
                },
            )
        }
    }
}

/// What looking at a split gives.
pub enum Finding {
    Failed(Code),
    /// No row of it can matter.
    Skipped,
    /// Bytes have to be fetched first.
    Bytes(Seq<IoRequest>),
    /// Blocks have to be decompressed first.
    Blocks(Seq<CodecRequest>),
    Rows(Chunk),
}

/// What the columns that a format read are worth: as many as were asked for, and equally long.
pub open spec fn columns_finding(cols: Seq<Vector>, wanted: nat) -> Finding {
    let n = if cols.len() > 0 {
        cols[0]@.len()
    } else {
        0
    };
    if cols.len() != wanted || exists|c: int| 0 <= c < cols.len() && (#[trigger] cols[c])@.len() != n {
        Finding::Failed(Code::Internal)
    } else if n > MAX_ROWS {
        Finding::Failed(Code::LimitExceeded)
    } else {
        Finding::Rows(Chunk { types: types_of(cols), rows: Seq::new(n, |i: int| row_at(cols, i)) })
    }
}

/// What reading a split gives that pruning has left.
pub open spec fn read_finding(src: Source, f: TablePart, spec: ScanSpec, part: usize, split: usize) -> Finding {
    match f.format.told(Seq::empty()).split_bytes(split, spec.columns@) {
        Err(e) => Finding::Failed(e.code),
        Ok(ranges) => {
            let io = range_requests(src, ranges@, spec.table, part, ranges@.len() as int);
            if io.len() > 0 {
                Finding::Bytes(io)
            } else {
                match f.format.told(Seq::empty()).blocks(src, split, spec.columns@) {
                    Err(e) => Finding::Failed(e.code),
                    Ok(tasks) => {
                        let codec = block_requests(src, tasks@, spec.table, part, tasks@.len() as int);
                        if codec.len() > 0 {
                            Finding::Blocks(codec)
                        } else {
                            match f.format.told(Seq::empty()).contents(src, split, spec.columns@) {
                                Err(e) => Finding::Failed(e.code),
                                Ok(cols) => columns_finding(cols@, spec.columns@.len()),
                            }
                        }
                    },
                }
            }
        },
    }
}

/// The page-level pruning of a split.
pub open spec fn pruning(f: TablePart, spec: ScanSpec, split: usize) -> Pruning {
    Pruning { src: f.source, split, pruners: spec.pruners@, projection: spec.columns@ }
}

/// Whether looking at a split settles its page-level pruning: it is not ruled out, and the bytes needed
/// for that are there.
pub open spec fn settles_pruning(f: TablePart, spec: ScanSpec, part: usize, split: usize) -> bool {
    let known = f.format.told(Seq::empty());
    &&& known.matching(split, spec.pruners@, spec.columns@)
    &&& known.index_bytes(split, spec.pruners@, spec.columns@) matches Ok(ranges) && range_requests(
        f.source,
        ranges@,
        spec.table,
        part,
        ranges@.len() as int,
    ).len() == 0
}

/// All that a format tells after a pruning has been settled, if it was.
pub open spec fn pruned(before: TablePart, after: TablePart, spec: ScanSpec, part: usize, split: usize) -> bool {
    if settles_pruning(before, spec, part, split) {
        forall|more: Seq<Pruning>| #[trigger]
            after.format.told(more) == before.format.told(seq![pruning(before, spec, split)] + more)
    } else {
        after.format == before.format
    }
}

/// What pruning a split gives; `None` means that it has to be read.
pub open spec fn prune_finding(f: TablePart, spec: ScanSpec, part: usize, split: usize) -> Option<Finding> {
    if !f.format.told(Seq::empty()).matching(split, spec.pruners@, spec.columns@) {
        Some(Finding::Skipped)
    } else {
        match f.format.told(Seq::empty()).index_bytes(split, spec.pruners@, spec.columns@) {
            Err(e) => Some(Finding::Failed(e.code)),
            Ok(ranges) => {
                let io = range_requests(f.source, ranges@, spec.table, part, ranges@.len() as int);
                if io.len() > 0 {
                    Some(Finding::Bytes(io))
                } else {
                    match f.format.told(Seq::empty()).refinement(pruning(f, spec, split)) {
                        Err(e) => Some(Finding::Failed(e.code)),
                        Ok(false) => Some(Finding::Skipped),
                        Ok(true) => None,
                    }
                }
            },
        }
    }
}

/// What looking at a split gives. Pruning may change the state of the format, so that the split
/// is read by the one in `after`.
pub open spec fn finding(before: TablePart, after: TablePart, spec: ScanSpec, part: usize, split: usize) -> Finding {
    match prune_finding(before, spec, part, split) {
        Some(f) => f,
        None => read_finding(before.source, after, spec, part, split),
    }
}

/// A look at a split, or past the last one. Looking may change the state of the table's formats and
/// the pages that are held.
pub struct Look {
    /// What is read.
    pub spec: ScanSpec,
    pub before: Catalog,
    pub after: Catalog,
    pub part: int,
    pub split: int,
}

/// What a look gives; `None` past the last split.
pub open spec fn found(spec: ScanSpec, l: Look) -> Option<Finding> {
    let parts = l.before.tables@[spec.table as int].parts@;
    if spec.table >= l.before.tables@.len() {
        Some(Finding::Failed(Code::TableNotFound))
    } else if l.part >= parts.len() {
        None
    } else {
        Some(
            finding(
                parts[l.part],
                l.after.tables@[spec.table as int].parts@[l.part],
                spec,
                l.part as usize,
                l.split as usize,
            ),
        )
    }
}

/// The rows that a look gives.
pub open spec fn look_rows(spec: ScanSpec, l: Look) -> Seq<Seq<Val>> {
    match found(spec, l) {
        Some(Finding::Rows(c)) => c.rows,
        _ => Seq::empty(),
    }
}

/// The rows that looks give, one after another.
pub open spec fn looks_rows(spec: ScanSpec, ls: Seq<Look>) -> Seq<Seq<Val>>
    decreases ls.len(),
{
    if ls.len() == 0 {
        Seq::empty()
    } else {
        looks_rows(spec, ls.drop_last()) + look_rows(spec, ls.last())
    }
}

/// Where to look after some looks: at the next split if the last one was read or ruled out, at the same
/// one otherwise.
pub open spec fn place_after(spec: ScanSpec, ls: Seq<Look>) -> (int, int) {
    if ls.len() == 0 {
        (0, 0)
    } else {
        let l = ls.last();
        match found(spec, l) {
            Some(Finding::Rows(_)) => (l.part, l.split + 1),
            Some(Finding::Skipped) => (l.part, l.split + 1),
            _ => (l.part, l.split),
        }
    }
}

/// Where the first split at or after a place is.
pub open spec fn place_of(spec: ScanSpec, at: Catalog, from: (int, int)) -> (int, int) {
    if spec.table < at.tables@.len() {
        sought(at.tables@[spec.table as int], from.0, from.1)
    } else {
        from
    }
}

/// No row of the split looked at can satisfy the predicates.
pub open spec fn ruled_out(spec: ScanSpec, l: Look) -> bool {
    let parts = l.before.tables@[spec.table as int].parts@;
    spec.table < l.before.tables@.len() && l.part < parts.len() && !parts[l.part].format.told(Seq::empty()).matching(
        l.split as usize,
        spec.pruners@,
        spec.columns@,
    )
}

/// A look leaves the catalog as it is, but for what the part's format knows and the pages held of it.
/// It leaves these too where there is no table or no split, or where it is ruled out without reading. The
/// format comes to know what a pruning gives that is settled. The pages are discarded once the split has been
/// read, and not before.
pub open spec fn careful(spec: ScanSpec, l: Look) -> bool {
    &&& only_part(l.before, l.after, spec.table as int, l.part)
    &&& found(spec, l) is None || ruled_out(spec, l) || spec.table >= l.before.tables@.len() ==> l.after == l.before
    &&& found(spec, l) is Some && spec.table < l.before.tables@.len() ==> {
        let before = l.before.tables@[spec.table as int].parts@[l.part];
        let after = l.after.tables@[spec.table as int].parts@[l.part];
        &&& pruned(before, after, spec, l.part as usize, l.split as usize)
        &&& if found(spec, l)->0 is Rows {
            after.source == (Source { decoded: after.source.decoded, ..before.source }) && after.source.decoded@.len() == 0
        } else {
            after.source == before.source
        }
    }
}

/// The splits have been looked at in order, none being left out, and nothing else was touched.
pub open spec fn in_order(spec: ScanSpec, ls: Seq<Look>) -> bool
    decreases ls.len(),
{
    ls.len() > 0 ==> {
        let l = ls.last();
        let from = place_after(spec, ls.drop_last());
        &&& in_order(spec, ls.drop_last())
        &&& l.spec == spec
        &&& careful(spec, l)
        &&& (l.part, l.split) == place_of(spec, l.before, from)
    }
}

/// The last look was past the last split.
pub open spec fn looked_through(spec: ScanSpec, ls: Seq<Look>) -> bool {
    ls.len() > 0 && found(spec, ls.last()) is None
}

/// Looks that follow one another at once, all but the last giving no rows.
pub open spec fn straight(spec: ScanSpec, from: Catalog, ls: Seq<Look>, to: Catalog) -> bool
    decreases ls.len(),
{
    if ls.len() == 0 {
        from == to
    } else {
        let l = ls.last();
        &&& l.after == to
        &&& straight(spec, from, ls.drop_last(), l.before)
        &&& ls.drop_last().len() > 0 ==> idle_look(spec, ls.drop_last().last())
    }
}

/// A split was ruled out or has no rows.
pub open spec fn idle_look(spec: ScanSpec, l: Look) -> bool {
    match found(spec, l) {
        Some(Finding::Skipped) => true,
        Some(Finding::Rows(c)) => c.rows.len() == 0,
        _ => false,
    }
}

/// A batch has the columns of a split looked at.
pub open spec fn split_portion(spec: ScanSpec, ls: Seq<Look>, c: Chunk) -> bool {
    exists|k: int| 0 <= k < ls.len() && (found(spec, #[trigger] ls[k]) matches Some(Finding::Rows(r)) && portion(c, r.types))
}

pub open spec fn scan_shaped(spec: ScanSpec, ls: Seq<Look>, out: Seq<Chunk>) -> bool {
    forall|k: int| 0 <= k < out.len() ==> split_portion(spec, ls, #[trigger] out[k])
}

proof fn lemma_scan_shaped_more(spec: ScanSpec, ls: Seq<Look>, l: Look, out: Seq<Chunk>)
    requires
        scan_shaped(spec, ls, out),
    ensures
        scan_shaped(spec, ls.push(l), out),
{
    assert forall|k: int| 0 <= k < out.len() implies split_portion(spec, ls.push(l), #[trigger] out[k]) by {
        assert(split_portion(spec, ls, out[k]));
        let j = choose|j: int|
            0 <= j < ls.len() && (found(spec, #[trigger] ls[j]) matches Some(Finding::Rows(r)) && portion(out[k], r.types));
        assert(ls.push(l)[j] == ls[j]);
    }
}

/// The batches that reading a table in files has given so far, or, with `done`, all of them: the rows of
/// the splits looked at.
pub open spec fn scan_gave(spec: ScanSpec, ls: Seq<Look>, out: Seq<Chunk>, done: bool) -> bool {
    &&& in_order(spec, ls)
    &&& scan_shaped(spec, ls, out)
    &&& begins(flat(out), looks_rows(spec, ls), done)
    &&& done ==> looked_through(spec, ls)
}

/// Which of the byte ranges have to be fetched.
pub fn missing_ranges(src: &Source, ranges: &Vec<(u64, u64)>, table: usize, part: usize) -> (r: Vec<IoRequest>)
    requires
        src.wf(),
        ranges_ok(ranges@),
    ensures
        r@ == range_requests(*src, ranges@, table, part, ranges@.len() as int),
{
    let mut r: Vec<IoRequest> = Vec::new();
    let mut k: usize = 0;
    while k < ranges.len()
        invariant
            src.wf(),
            ranges_ok(ranges@),
            k <= ranges@.len(),
            r@ == range_requests(*src, ranges@, table, part, k as int),
        decreases ranges@.len() - k,
    {
        let start: u64 = ranges[k].0;
        let end: u64 = ranges[k].1;
        if let Some((offset, len)) = src.missing(start, end - start) {
            r.push(IoRequest { table, part, offset, len });
        }
        k = k + 1;
    }
    r
}

/// Which of the blocks have to be decompressed.
pub fn pending_blocks(src: &Source, tasks: &Vec<CodecTask>, table: usize, part: usize) -> (r: Vec<CodecRequest>)
    requires
        src.wf(),
    ensures
        r@ == block_requests(*src, tasks@, table, part, tasks@.len() as int),
{
    let mut r: Vec<CodecRequest> = Vec::new();
    let mut k: usize = 0;
    while k < tasks.len()
        invariant
            src.wf(),
            k <= tasks@.len(),
            r@ == block_requests(*src, tasks@, table, part, k as int),
        decreases tasks@.len() - k,
    {
        let t: CodecTask = tasks[k];
        if !src.has_decoded(t.offset, t.len) {
            r.push(
                CodecRequest {
                    table,
                    part,
                    codec: t.codec,
                    offset: t.offset,
                    len: t.len,
                    out_len: t.out_len,
                },
            );
        }
        k = k + 1;
    }
    r
}

/// Whether all columns have the same number of rows.
fn equally_long(cols: &Vec<Vector>, rows: usize) -> (r: bool)
    ensures
        r == forall|c: int| 0 <= c < cols@.len() ==> (#[trigger] cols@[c])@.len() == rows,
{
    let mut c: usize = 0;
    while c < cols.len()
        invariant
            c <= cols@.len(),
            forall|d: int| 0 <= d < c ==> (#[trigger] cols@[d])@.len() == rows,
        decreases cols@.len() - c,
    {
        if cols[c].len() != rows {
            return false;
        }
        c = c + 1;
    }
    true
}

fn extend_io(io: &mut Vec<IoRequest>, more: &Vec<IoRequest>)
    ensures
        final(io)@ == old(io)@ + more@,
{
    let mut i: usize = 0;
    while i < more.len()
        invariant
            i <= more@.len(),
            io@ == old(io)@ + more@.take(i as int),
        decreases more@.len() - i,
    {
        io.push(more[i]);
        i = i + 1;
        assert(io@ =~= old(io)@ + more@.take(i as int));
    }
    assert(more@.take(i as int) =~= more@);
}

fn extend_codec(codec: &mut Vec<CodecRequest>, more: &Vec<CodecRequest>)
    ensures
        final(codec)@ == old(codec)@ + more@,
{
    let mut i: usize = 0;
    while i < more.len()
        invariant
            i <= more@.len(),
            codec@ == old(codec)@ + more@.take(i as int),
        decreases more@.len() - i,
    {
        codec.push(more[i]);
        i = i + 1;
        assert(codec@ =~= old(codec)@ + more@.take(i as int));
    }
    assert(more@.take(i as int) =~= more@);
}

impl Scan {
    pub closed spec fn spec_of(&self) -> ScanSpec {
        self.spec
    }

    pub closed spec fn at_part(&self) -> int {
        self.part as int
    }

    pub closed spec fn at_split(&self) -> int {
        self.split as int
    }

    /// The rows of the split being returned that have not been returned yet.
    pub closed spec fn left_over(&self) -> Seq<Seq<Val>> {
        match self.cur {
            Some(d) => Seq::new((d.rows - d.pos) as nat, |i: int| row_at(d.cols@, d.pos + i)),
            None => Seq::empty(),
        }
    }

    /// The types of that split's columns.
    pub closed spec fn left_types(&self) -> Seq<Ty> {
        match self.cur {
            Some(d) => types_of(d.cols@),
            None => Seq::empty(),
        }
    }

    pub closed spec fn trace(&self) -> Trace {
        self.trace@
    }

    /// The splits looked at so far.
    pub closed spec fn looks(&self) -> Seq<Look> {
        self.looks@
    }

    pub closed spec fn inv(&self) -> bool {
        self.cur matches Some(d) ==> cols_wf(d.cols@, d.rows as int) && d.pos <= d.rows <= MAX_ROWS
    }

    /// What has been returned, and what is left of the split being returned, are the rows of the
    /// splits looked at.
    pub open spec fn accounted(&self) -> bool {
        &&& in_order(self.spec_of(), self.looks())
        &&& (self.at_part(), self.at_split()) == place_after(self.spec_of(), self.looks())
        &&& flat(self.trace().out) + self.left_over() == looks_rows(self.spec_of(), self.looks())
        &&& scan_shaped(self.spec_of(), self.looks(), self.trace().out)
        &&& self.left_over().len() > 0 ==> self.looks().len() > 0 && (found(self.spec_of(), self.looks().last()) matches Some(
            Finding::Rows(r),
        ) && r.types == self.left_types())
        &&& looked_through(self.spec_of(), self.looks()) ==> self.left_over().len() == 0
    }

    pub fn new(spec: ScanSpec) -> (s: Scan)
        ensures
            s.inv(),
            s.accounted(),
            s.looks().len() == 0,
            s.spec_of() == spec,
            s.at_part() == 0,
            s.at_split() == 0,
            s.left_over().len() == 0,
            s.trace() == fresh_trace(Seq::empty()),
    {
        let s = Scan {
            spec,
            part: 0,
            split: 0,
            cur: None,
            looks: Ghost(Seq::empty()),
            trace: Ghost(fresh_trace(Seq::empty())),
        };
        assert(flat(s.trace().out) + s.left_over() =~= Seq::empty());
        s
    }

    /// The next rows of the split that has been read, at most a batch of them.
    pub fn take_chunk(&mut self) -> (r: Option<Batch>)
        requires
            old(self).inv(),
        ensures
            final(self).inv(),
            final(self).spec_of() == old(self).spec_of(),
            final(self).at_part() == old(self).at_part(),
            final(self).at_split() == old(self).at_split(),
            final(self).trace() == old(self).trace(),
            final(self).looks() == old(self).looks(),
            match r {
                Some(b) => {
                    &&& b.wf()
                    &&& next_rows(old(self).left_over(), b, final(self).left_over())
                    &&& b.types() == old(self).left_types()
                    &&& final(self).left_types() == old(self).left_types()
                },
                None => old(self).left_over().len() == 0 && final(self).left_over().len() == 0,
            },
    {
        let ghost left = self.left_over();
        let mut emptied: bool = false;
        if let Some(d) = &mut self.cur {
            if d.pos < d.rows {
                let rest: usize = d.rows - d.pos;
                let n: usize = if rest < BATCH_SIZE {
                    rest
                } else {
                    BATCH_SIZE
                };
                let idx: Vec<u32> = row_numbers(d.pos, d.pos + n);
                let cols = gather_columns(&d.cols, idx.as_slice(), d.rows);
                let b = Batch::of_columns(cols, n);
                d.pos = d.pos + n;
                proof {
                    assert(b.rows() =~= left.take(n as int));
                    assert(self.left_over() =~= left.skip(n as int));
                    assert(b.types() =~= old(self).left_types());
                }
                return Some(b);
            }
            emptied = true;
        }
        if emptied {
            self.cur = None;
        }
        None
    }

    /// Moves on from parts that have no split left, and tells whether a split is left.
    pub fn seek(&mut self, table: &Table) -> (r: bool)
        requires
            old(self).inv(),
        ensures
            final(self).inv(),
            final(self).spec_of() == old(self).spec_of(),
            final(self).left_over() == old(self).left_over(),
            final(self).left_types() == old(self).left_types(),
            final(self).trace() == old(self).trace(),
            final(self).looks() == old(self).looks(),
            (final(self).at_part(), final(self).at_split()) == sought(*table, old(self).at_part(), old(self).at_split()),
            r == (final(self).at_part() < table.parts@.len()),
            r ==> final(self).at_split() < table.parts@[final(self).at_part()].format.told(Seq::empty()).split_count,
    {
        while self.part < table.parts.len() && self.split >= table.parts[self.part].format.num_splits()
            invariant
                self.inv(),
                self.spec == old(self).spec,
                self.cur == old(self).cur,
                self.trace == old(self).trace,
                self.looks == old(self).looks,
                sought(*table, self.part as int, self.split as int) == sought(
                    *table,
                    old(self).part as int,
                    old(self).split as int,
                ),
            decreases table.parts@.len() - self.part,
        {
            self.part = self.part + 1;
            self.split = 0;
        }
        self.part < table.parts.len()
    }

    /// One attempt at the next rows. `None` means that the position has moved on.
    pub fn attempt(&mut self, ctx: &mut ExecContext) -> (r: Result<Option<Step>, Error>)
        requires
            old(self).inv(),
            old(ctx).wf(),
        ensures
            final(self).inv(),
            final(ctx).wf(),
            final(ctx).same_data(*old(ctx)),
            final(self).spec_of() == old(self).spec_of(),
            final(self).trace() == old(self).trace(),
            final(self).looks() == old(self).looks(),
            if old(self).left_over().len() > 0 {
                &&& r matches Ok(Some(Step::Ready(b))) && next_rows(old(self).left_over(), b, final(self).left_over())
                    && b.types() == old(self).left_types()
                &&& final(self).left_types() == old(self).left_types()
                &&& *final(ctx) == *old(ctx)
                &&& final(self).at_part() == old(self).at_part()
                &&& final(self).at_split() == old(self).at_split()
            } else if old(self).spec_of().table >= old(ctx).catalog.tables@.len() {
                &&& r matches Err(e) && e.code == Code::TableNotFound
                &&& *final(ctx) == *old(ctx)
                &&& final(self).at_part() == old(self).at_part()
                &&& final(self).at_split() == old(self).at_split()
                &&& final(self).left_over().len() == 0
            } else {
                let ti = old(self).spec_of().table;
                let t = old(ctx).catalog.tables@[ti as int];
                let (p, s) = sought(t, old(self).at_part(), old(self).at_split());
                &&& final(self).at_part() == p
                &&& careful(
                    old(self).spec_of(),
                    Look { spec: old(self).spec_of(), before: old(ctx).catalog, after: final(ctx).catalog, part: p, split: s },
                )
                &&& if p >= t.parts@.len() {
                    &&& r matches Ok(Some(Step::Done))
                    &&& *final(ctx) == *old(ctx)
                    &&& final(self).at_split() == s
                    &&& final(self).left_over().len() == 0
                } else {
                    let part = t.parts@[p];
                    let after = final(ctx).catalog.tables@[ti as int].parts@[p];
                    match finding(part, after, old(self).spec_of(), p as usize, s as usize) {
                        Finding::Failed(c) => {
                            &&& r matches Err(e) && e.code == c
                            &&& final(self).at_split() == s
                            &&& final(self).left_over().len() == 0
                        },
                        Finding::Skipped => {
                            &&& r matches Ok(None)
                            &&& final(self).at_split() == s + 1
                            &&& final(self).left_over().len() == 0
                        },
                        Finding::Bytes(io) => {
                            &&& r matches Ok(Some(Step::NeedIo))
                            &&& final(ctx).io@ == old(ctx).io@ + io
                            &&& final(self).at_split() == s
                            &&& final(self).left_over().len() == 0
                        },
                        Finding::Blocks(codec) => {
                            &&& r matches Ok(Some(Step::NeedCodec))
                            &&& final(ctx).codec@ == old(ctx).codec@ + codec
                            &&& final(self).at_split() == s
                            &&& final(self).left_over().len() == 0
                        },
                        Finding::Rows(c) => {
                            &&& r matches Ok(None)
                            &&& final(self).at_split() == s + 1
                            &&& final(self).left_over() == c.rows
                            &&& c.rows.len() > 0 ==> final(self).left_types() == c.types
                            &&& after.source.decoded_total() == 0
                        },
                    }
                }
            },
            r matches Ok(Some(s)) ==> {
                &&& s matches Step::Ready(b) ==> b.wf() && b.rows().len() > 0
                &&& s is NeedIo ==> final(ctx).io@.len() > old(ctx).io@.len() && final(ctx).codec == old(ctx).codec
                &&& s is NeedCodec ==> final(ctx).codec@.len() > old(ctx).codec@.len() && final(ctx).io == old(ctx).io
            },
            r matches Ok(None) ==> final(ctx).io == old(ctx).io && final(ctx).codec == old(ctx).codec,
            r is Err ==> final(ctx).io == old(ctx).io && final(ctx).codec == old(ctx).codec,
    {
        if let Some(b) = self.take_chunk() {
            assert(b.rows().len() > 0);
            return Ok(Some(Step::Ready(b)));
        }
        let ti: usize = self.spec.table;
        let keep: bool;
        {
            let table = match ctx.catalog.get(ti) {
                Some(t) => t,
                None => {
                    return Err(Error::new(Code::TableNotFound));
                },
            };
            if !self.seek(table) {
                return Ok(Some(Step::Done));
            }
            let pi: usize = self.part;
            assert(ctx.catalog.tables@[ti as int].parts@[pi as int].source.wf());
            let part = &table.parts[pi];
            if !part.format.may_match(self.split, self.spec.pruners.as_slice(), self.spec.columns.as_slice()) {
                self.split = self.split + 1;
                return Ok(None);
            }
            let ranges = match part.format.index_ranges(
                self.split,
                self.spec.pruners.as_slice(),
                self.spec.columns.as_slice(),
            ) {
                Ok(r) => r,
                Err(e) => {
                    return Err(e);
                },
            };
            let missing = missing_ranges(&part.source, &ranges, ti, pi);
            if missing.len() > 0 {
                extend_io(&mut ctx.io, &missing);
                return Ok(Some(Step::NeedIo));
            }
        }
        let pi: usize = self.part;
        match refine(&mut ctx.catalog, ti, pi, self.split, &self.spec) {
            Ok(k) => {
                keep = k;
            },
            Err(e) => {
                proof {
                    lemma_only_part(old(ctx).catalog, ctx.catalog, ti as int, pi as int);
                }
                return Err(e);
            },
        }
        let ghost mid = ctx.catalog;
        proof {
            lemma_only_part(old(ctx).catalog, mid, ti as int, pi as int);
        }
        if !keep {
            self.split = self.split + 1;
            return Ok(None);
        }
        let cols: Vec<Vector>;
        {
            let table = match ctx.catalog.get(ti) {
                Some(t) => t,
                None => {
                    return Err(Error::new(Code::TableNotFound));
                },
            };
            if pi >= table.parts.len() {
                return Err(Error::new(Code::Internal));
            }
            assert(ctx.catalog.tables@[ti as int].parts@[pi as int].source.wf());
            let part = &table.parts[pi];
            let ranges = match part.format.split_ranges(self.split, self.spec.columns.as_slice()) {
                Ok(r) => r,
                Err(e) => {
                    return Err(e);
                },
            };
            let missing = missing_ranges(&part.source, &ranges, ti, pi);
            if missing.len() > 0 {
                extend_io(&mut ctx.io, &missing);
                return Ok(Some(Step::NeedIo));
            }
            let tasks = match part.format.codec_tasks(&part.source, self.split, self.spec.columns.as_slice()) {
                Ok(t) => t,
                Err(e) => {
                    return Err(e);
                },
            };
            let pending = pending_blocks(&part.source, &tasks, ti, pi);
            if pending.len() > 0 {
                extend_codec(&mut ctx.codec, &pending);
                return Ok(Some(Step::NeedCodec));
            }
            match part.format.read_split(&part.source, self.split, self.spec.columns.as_slice()) {
                Ok(c) => {
                    cols = c;
                },
                Err(e) => {
                    return Err(e);
                },
            }
        }
        if cols.len() != self.spec.columns.len() {
            return Err(Error::new(Code::Internal));
        }
        let rows: usize = if cols.len() > 0 {
            cols[0].len()
        } else {
            0
        };
        if !equally_long(&cols, rows) {
            return Err(Error::new(Code::Internal));
        }
        if rows > MAX_ROWS {
            return Err(Error::new(Code::LimitExceeded));
        }
        discard_pages(&mut ctx.catalog, ti, pi);
        proof {
            lemma_only_part_twice(old(ctx).catalog, mid, ctx.catalog, ti as int, pi as int);
            lemma_only_part(old(ctx).catalog, ctx.catalog, ti as int, pi as int);
        }
        self.split = self.split + 1;
        if rows > 0 {
            self.cur = Some(Decoded { cols, rows, pos: 0 });
        }
        Ok(None)
    }
}

/// Settles page-level pruning of a split with the index bytes at hand.
fn refine(catalog: &mut Catalog, ti: usize, pi: usize, split: usize, spec: &ScanSpec) -> (r: Result<bool, Error>)
    requires
        old(catalog).wf(),
    ensures
        final(catalog).wf(),
        only_part(*old(catalog), *final(catalog), ti as int, pi as int),
        if ti >= old(catalog).tables@.len() {
            r matches Err(e) && e.code == Code::TableNotFound
        } else if pi >= old(catalog).tables@[ti as int].parts@.len() {
            r matches Err(e) && e.code == Code::Internal
        } else {
            let before = old(catalog).tables@[ti as int].parts@;
            let after = final(catalog).tables@[ti as int].parts@;
            &&& r == before[pi as int].format.told(Seq::empty()).refinement(pruning(before[pi as int], *spec, split))
            &&& forall|more: Seq<Pruning>| #[trigger]
                after[pi as int].format.told(more) == before[pi as int].format.told(
                    seq![pruning(before[pi as int], *spec, split)] + more,
                )
            &&& after.len() == before.len()
            &&& after[pi as int].source == before[pi as int].source
        },
{
    if ti >= catalog.tables.len() {
        return Err(Error::new(Code::TableNotFound));
    }
    if pi >= catalog.tables[ti].parts.len() {
        return Err(Error::new(Code::Internal));
    }
    let ghost before = catalog.tables@;
    let t = &mut catalog.tables[ti];
    let p = &mut t.parts[pi];
    let r = p.format.refine_with_index(&p.source, split, spec.pruners.as_slice(), spec.columns.as_slice());
    proof {
        assert forall|a: int, b: int| 0 <= a < catalog.tables@.len() && 0 <= b < catalog.tables@[a].parts@.len() implies (
        #[trigger] catalog.tables@[a].parts@[b]).source.wf() by {
            assert(before[a].parts@[b].source.wf());
        }
        assert(file_of(catalog.tables@[ti as int].parts@[pi as int]) =~= file_of(before[ti as int].parts@[pi as int]));
    }
    r
}

/// Discards the decompressed pages of a part.
fn discard_pages(catalog: &mut Catalog, ti: usize, pi: usize)
    requires
        old(catalog).wf(),
    ensures
        final(catalog).wf(),
        only_part(*old(catalog), *final(catalog), ti as int, pi as int),
        ti < old(catalog).tables@.len() && pi < old(catalog).tables@[ti as int].parts@.len() ==> {
            let part = final(catalog).tables@[ti as int].parts@[pi as int];
            &&& part.source.decoded_total() == 0
            &&& part.source.decoded@.len() == 0
            &&& part.source == (Source {
                decoded: part.source.decoded,
                ..old(catalog).tables@[ti as int].parts@[pi as int].source
            })
            &&& part.format == old(catalog).tables@[ti as int].parts@[pi as int].format
        },
{
    if ti >= catalog.tables.len() {
        return;
    }
    if pi >= catalog.tables[ti].parts.len() {
        return;
    }
    let ghost before = catalog.tables@;
    assert(before[ti as int].parts@[pi as int].source.wf());
    let t = &mut catalog.tables[ti];
    t.parts[pi].source.clear_decoded();
    proof {
        assert forall|a: int, b: int| 0 <= a < catalog.tables@.len() && 0 <= b < catalog.tables@[a].parts@.len() implies (
        #[trigger] catalog.tables@[a].parts@[b]).source.wf() by {
            assert(before[a].parts@[b].source.wf());
        }
        assert(file_of(catalog.tables@[ti as int].parts@[pi as int]) =~= file_of(before[ti as int].parts@[pi as int]));
    }
}

impl Scan {
    /// What has been returned is what the plan gives.
    pub(crate) proof fn lemma_gave(&self, mem: Seq<MemTable>)
        requires
            self.wf(),
        ensures
            gave(self.plan(), mem, self.looked(), self.returned(), self.spent()),
            forall|why: Why| #[trigger]
                scan_stops(self.spec_of(), self.looked(), why) ==> stops(self.plan(), mem, self.looked(), why),
    {
        reveal_with_fuel(gave, 1);
        reveal_with_fuel(stops, 1);
        let out = flat(self.trace().out);
        lemma_begins(out, self.left_over(), self.spent());
        assert(scan_gave(self.spec_of(), self.looks(), self.returned(), self.spent()));
    }
}

impl Scan {
    /// A last look that does not give rows stops the reading.
    proof fn lemma_look_stops(&self)
        requires
            self.wf(),
        ensures
            forall|why: Why|
                self.looks().len() > 0 && #[trigger] look_stops(found(self.spec_of(), self.looks().last()), why)
                    ==> scan_stops(self.spec_of(), self.looked(), why),
    {
        let ls = self.looks();
        assert forall|why: Why|
            ls.len() > 0 && #[trigger] look_stops(found(self.spec_of(), ls.last()), why) implies scan_stops(
            self.spec_of(),
            self.looked(),
            why,
        ) by {
            assert(look_stops(found(self.spec_of(), ls[ls.len() - 1]), why));
        }
    }
}

/// Looks that follow one another at once lead from the first catalog to the last.
proof fn lemma_straight_leads(s: Scan, now: Seq<Look>, fresh: Seq<Look>, from: Catalog, to: Catalog)
    requires
        now == s.looks() + fresh,
        straight(s.spec_of(), from, fresh, to),
    ensures
        looked_on(s.looks(), from, now, to),
{
    reveal(led_on);
    lemma_leads(s.spec_of(), from, fresh, to);
    assert(now.take(s.looks().len() as int) =~= s.looks());
    assert(now.skip(s.looks().len() as int) =~= fresh);
}

proof fn lemma_leads(spec: ScanSpec, from: Catalog, ls: Seq<Look>, to: Catalog)
    requires
        straight(spec, from, ls, to),
    ensures
        leads(from, ls, to),
    decreases ls.len(),
{
    if ls.len() > 0 {
        lemma_leads(spec, from, ls.drop_last(), ls.last().before);
    }
}

/// One more look leaves the rows accounted for.
proof fn lemma_looked(was: Scan, now: Scan, l: Look)
    requires
        was.accounted(),
        was.left_over().len() == 0,
        now.spec_of() == was.spec_of(),
        now.trace() == was.trace(),
        now.looks() == was.looks().push(l),
        l.spec == was.spec_of(),
        careful(was.spec_of(), l),
        found(was.spec_of(), l) matches Some(Finding::Rows(c)) ==> c.rows.len() > 0 ==> now.left_types() == c.types,
        (l.part, l.split) == place_of(was.spec_of(), l.before, (was.at_part(), was.at_split())),
        now.left_over() == look_rows(was.spec_of(), l),
        (now.at_part(), now.at_split()) == match found(was.spec_of(), l) {
            Some(Finding::Rows(_)) => (l.part, l.split + 1),
            Some(Finding::Skipped) => (l.part, l.split + 1),
            _ => (l.part, l.split),
        },
    ensures
        now.accounted(),
{
    assert(now.looks().drop_last() =~= was.looks());
    assert(flat(was.trace().out) + was.left_over() =~= flat(was.trace().out));
    lemma_scan_shaped_more(was.spec_of(), was.looks(), l, was.trace().out);
}

/// A batch of the split being returned has its columns.
proof fn lemma_split_portion(s: Scan, b: Batch)
    requires
        s.accounted(),
        s.left_over().len() > 0,
        0 < b.rows().len() <= BATCH_SIZE,
        b.types() == s.left_types(),
    ensures
        scan_shaped(s.spec_of(), s.looks(), s.trace().out.push(chunk(b))),
{
    let ls = s.looks();
    let out = s.trace().out.push(chunk(b));
    assert(found(s.spec_of(), ls[ls.len() - 1]) is Some);
    assert forall|k: int| 0 <= k < out.len() implies split_portion(s.spec_of(), ls, #[trigger] out[k]) by {
        if k < s.trace().out.len() {
            assert(split_portion(s.spec_of(), ls, s.trace().out[k]));
        }
    }
}

/// What the splits looked at in one pull come to.
pub open spec fn scanned(s: Scan, before: ExecContext, r: Result<Step, Error>, now: Scan, after: ExecContext) -> bool {
    let spec = s.spec_of();
    if s.left_over().len() > 0 {
        &&& r matches Ok(Step::Ready(b)) && next_rows(s.left_over(), b, now.left_over()) && b.types() == s.left_types()
        &&& now.looks() == s.looks()
        &&& after == before
    } else {
        let fresh = now.looks().skip(s.looks().len() as int);
        &&& now.looks() == s.looks() + fresh
        &&& fresh.len() > 0
        &&& straight(spec, before.catalog, fresh, after.catalog)
        &&& match found(spec, fresh.last()) {
            None => r matches Ok(Step::Done),
            Some(Finding::Failed(c)) => r matches Err(e) && e.code == c,
            Some(Finding::Bytes(io)) => (r matches Ok(Step::NeedIo)) && after.io@ == before.io@ + io,
            Some(Finding::Blocks(codec)) => (r matches Ok(Step::NeedCodec)) && after.codec@ == before.codec@ + codec,
            Some(f) => match r {
                Ok(Step::Ready(b)) => {
                    &&& next_rows(look_rows(spec, fresh.last()), b, now.left_over())
                    &&& f matches Finding::Rows(c) && b.types() == c.types
                },
                Err(e) => e.code == Code::LimitExceeded && fresh.len() >= u64::MAX,
                _ => false,
            },
        }
    }
}

impl Operator for Scan {
    open spec fn wf(&self) -> bool {
        self.inv() && self.accounted()
    }

    open spec fn plan(&self) -> NodeV {
        NodeV::Scan {
            table: self.spec_of().table,
            columns: self.spec_of().columns@,
            pruners: pruners_of(self.spec_of().pruners@),
        }
    }

    open spec fn looked(&self) -> Seq<Look> {
        self.looks()
    }

    open spec fn traced(&self) -> bool {
        true
    }

    open spec fn returned(&self) -> Seq<Chunk> {
        self.trace().out
    }

    open spec fn spent(&self) -> bool {
        looked_through(self.spec_of(), self.looks())
    }

    open spec fn sound(&self, mem: Seq<MemTable>) -> bool {
        true
    }

    fn next(&mut self, ctx: &mut ExecContext) -> (r: Result<Step, Error>)
        ensures
            final(self).spec_of() == old(self).spec_of(),
            scanned(*old(self), *old(ctx), r, *final(self), *final(ctx)),
            r matches Ok(Step::Ready(b)) ==> portion(chunk(b), final(self).left_types()),
    {
        let mut fuel: u64 = u64::MAX;
        let ghost mut fresh: Seq<Look> = Seq::empty();
        assert(self.looks() + fresh =~= self.looks());
        while fuel > 0
            invariant
                self.wf(),
                self.spec_of() == old(self).spec_of(),
                self.trace() == old(self).trace(),
                self.looks() == old(self).looks() + fresh,
                fresh.len() == 0 ==> *self == *old(self) && *ctx == *old(ctx),
                fresh.len() + fuel >= u64::MAX,
                fresh.len() > 0 ==> old(self).left_over().len() == 0,
                straight(self.spec_of(), old(ctx).catalog, fresh, ctx.catalog),
                fresh.len() > 0 ==> self.left_over() == look_rows(self.spec_of(), fresh.last()) && (found(
                    self.spec_of(),
                    fresh.last(),
                ) matches Some(f) && (f is Rows || f is Skipped)),
                ctx.wf(),
                ctx.same_data(*old(ctx)),
                ctx.io == old(ctx).io,
                ctx.codec == old(ctx).codec,
            decreases fuel,
        {
            let ghost was = *self;
            let ghost seen = ctx.catalog;
            let ghost left = self.left_over();
            let ghost at = place_of(self.spec_of(), seen, (self.at_part(), self.at_split()));
            let res = self.attempt(ctx);
            let ghost look = Look { spec: self.spec_of(), before: seen, after: ctx.catalog, part: at.0, split: at.1 };
            proof {
                assert(fresh.skip(0) =~= fresh);
            }
            if let Ok(Some(Step::Ready(b))) = &res {
                self.trace = Ghost(grown_trace(self.trace@, chunk(*b)));
                proof {
                    lemma_flat_push(was.trace().out, chunk(*b));
                    assert(flat(was.trace().out) + b.rows() + self.left_over() =~= flat(was.trace().out) + left);
                    assert(self.looks().skip(old(self).looks().len() as int) =~= fresh);
                    lemma_split_portion(was, *b);
                }
            } else {
                proof {
                    let now = fresh.push(look);
                    assert(now.drop_last() =~= fresh);
                    assert(self.looks().push(look) =~= old(self).looks() + now);
                    fresh = now;
                }
                self.looks = Ghost(self.looks@.push(look));
                proof {
                    assert(self.left_over() =~= look_rows(self.spec_of(), look));
                    lemma_looked(was, *self, look);
                    assert(self.looks().skip(old(self).looks().len() as int) =~= fresh);
                }
            }
            match res {
                Ok(Some(s)) => {
                    proof {
                        lemma_straight_leads(*old(self), self.looks(), fresh, old(ctx).catalog, ctx.catalog);
                        self.lemma_gave(old(ctx).catalog.mem@);
                        self.lemma_look_stops();
                        if s is NeedIo {
                            assert(look_stops(found(self.spec_of(), self.looks().last()), Why::Io));
                        }
                        if s is NeedCodec {
                            assert(look_stops(found(self.spec_of(), self.looks().last()), Why::Codec));
                        }
                    }
                    return Ok(s);
                },
                Ok(None) => {},
                Err(e) => {
                    proof {
                        lemma_straight_leads(*old(self), self.looks(), fresh, old(ctx).catalog, ctx.catalog);
                        self.lemma_gave(old(ctx).catalog.mem@);
                        self.lemma_look_stops();
                        assert(look_stops(found(self.spec_of(), self.looks().last()), Why::Failed(e.code)));
                    }
                    return Err(e);
                },
            }
            fuel = fuel - 1;
        }
        proof {
            assert(self.looks().skip(old(self).looks().len() as int) =~= fresh);
            lemma_straight_leads(*old(self), self.looks(), fresh, old(ctx).catalog, ctx.catalog);
            self.lemma_gave(old(ctx).catalog.mem@);
            assert(scan_stops(self.spec_of(), self.looked(), Why::Failed(Code::LimitExceeded)));
        }
        Err(Error::new(Code::LimitExceeded))
    }
}

// --- MemScan ----------------------------------------------------------------------

/// Reads an in-memory table. It is never interrupted.
pub struct MemScan {
    pub spec: MemScanSpec,
    pub pos: usize,
    pub trace: Ghost<Trace>,
    /// Whether the end has been reached.
    pub ended: Ghost<bool>,
}

/// What reading on from a row of an in-memory table gives, and the row to read from next.
pub open spec fn read_on(catalog: Catalog, table: usize, pos: int, r: Result<Step, Error>, to: int) -> bool {
    if table >= catalog.mem@.len() {
        (r matches Err(e) && e.code == Code::TableNotFound) && to == pos
    } else {
        let mt = catalog.mem@[table as int];
        let rows = table_rows(mt.rows@);
        let end = if rows.len() - pos < BATCH_SIZE {
            rows.len() as int
        } else {
            pos + BATCH_SIZE
        };
        match r {
            Ok(Step::Ready(b)) => {
                &&& pos < rows.len()
                &&& b.rows() == rows.subrange(pos, end)
                &&& b.types() == Seq::new(mt.schema@.len(), |c: int| mt.schema@[c].ty)
                &&& to == end
            },
            Ok(Step::Done) => pos >= rows.len() && to == pos,
            _ => false,
        }
    }
}

impl MemScan {
    pub fn new(spec: MemScanSpec) -> (s: MemScan)
        ensures
            s.spec == spec,
            s.pos == 0,
            s.trace@ == fresh_trace(Seq::empty()),
            !s.ended@,
    {
        MemScan { spec, pos: 0, trace: Ghost(fresh_trace(Seq::empty())), ended: Ghost(false) }
    }

    /// The next rows of the table, at most a batch of them.
    pub fn advance(&mut self, catalog: &Catalog) -> (r: Result<Step, Error>)
        requires
            catalog.wf(),
        ensures
            final(self).spec == old(self).spec,
            final(self).trace == old(self).trace,
            final(self).ended == old(self).ended,
            step_ok(r),
            read_on(*catalog, old(self).spec.table, old(self).pos as int, r, final(self).pos as int),
    {
        let mt = match catalog.mem_get(self.spec.table) {
            Some(t) => t,
            None => {
                return Err(Error::new(Code::TableNotFound));
            },
        };
        if self.pos >= mt.rows.len() {
            return Ok(Step::Done);
        }
        let rest: usize = mt.rows.len() - self.pos;
        let end: usize = if rest < BATCH_SIZE {
            mt.rows.len()
        } else {
            self.pos + BATCH_SIZE
        };
        let batch = mt.batch(self.pos, end);
        self.pos = end;
        Ok(Step::Ready(batch))
    }
}

impl MemScan {
    /// What has been returned is what the plan gives.
    pub(crate) proof fn lemma_gave(&self, mem: Seq<MemTable>)
        ensures
            self.sound(mem) ==> gave(self.plan(), mem, self.looked(), self.returned(), self.spent()),
            self.spec.table >= mem.len() ==> stops(self.plan(), mem, self.looked(), Why::Failed(Code::TableNotFound)),
    {
        reveal_with_fuel(gave, 1);
        reveal_with_fuel(stops, 1);
        if self.sound(mem) && self.spec.table < mem.len() {
            let rows = table_rows(mem[self.spec.table as int].rows@);
            assert(rows.take(rows.len() as int) =~= rows);
        }
    }
}

impl Operator for MemScan {
    open spec fn wf(&self) -> bool {
        true
    }

    open spec fn plan(&self) -> NodeV {
        NodeV::MemScan { table: self.spec.table }
    }

    open spec fn traced(&self) -> bool {
        true
    }

    open spec fn returned(&self) -> Seq<Chunk> {
        self.trace@.out
    }

    open spec fn spent(&self) -> bool {
        self.ended@
    }

    open spec fn sound(&self, mem: Seq<MemTable>) -> bool {
        if self.spec.table < mem.len() {
            let rows = table_rows(mem[self.spec.table as int].rows@);
            &&& self.pos <= rows.len()
            &&& typed(self.trace@.out, schema_types(mem[self.spec.table as int].schema@))
            &&& flat(self.trace@.out) == rows.take(self.pos as int)
            &&& self.ended@ ==> self.pos == rows.len()
        } else {
            self.trace@.out.len() == 0 && !self.ended@
        }
    }

    open spec fn sure(&self, mem: Seq<MemTable>) -> bool {
        self.spec.table < mem.len()
    }

    open spec fn tys(&self, mem: Seq<MemTable>) -> Seq<Ty> {
        schema_types(mem[self.spec.table as int].schema@)
    }

    open spec fn bound(&self, mem: Seq<MemTable>) -> nat {
        let n = mem[self.spec.table as int].rows@.len();
        if self.pos < n {
            ((n - self.pos) as nat + BATCH_SIZE as nat - 1) as nat / BATCH_SIZE as nat
        } else {
            0
        }
    }

    fn next(&mut self, ctx: &mut ExecContext) -> (r: Result<Step, Error>)
        ensures
            *final(ctx) == *old(ctx),
            final(self).spec == old(self).spec,
            read_on(old(ctx).catalog, old(self).spec.table, old(self).pos as int, r, final(self).pos as int),
    {
        let r = self.advance(&ctx.catalog);
        match &r {
            Ok(Step::Ready(b)) => {
                self.trace = Ghost(grown_trace(self.trace@, chunk(*b)));
            },
            Ok(Step::Done) => {
                self.ended = Ghost(true);
            },
            _ => {},
        }
        proof {
            lemma_no_look(self.looked(), ctx.catalog);
            let mem = old(ctx).catalog.mem@;
            if old(self).sound(mem) {
                if r is Ok && r->Ok_0 is Ready {
                    let rows = table_rows(mem[self.spec.table as int].rows@);
                    lemma_flat_push(old(self).trace@.out, chunk(r->Ok_0->Ready_0));
                    assert(rows.take(old(self).pos as int) + rows.subrange(old(self).pos as int, self.pos as int)
                        =~= rows.take(self.pos as int));
                }
                self.lemma_gave(mem);
            }
        }
        r
    }
}

// --- Filter -----------------------------------------------------------------------

/// Whether any flag is set.
pub open spec fn any_set(flags: Seq<bool>) -> bool {
    exists|i: int| 0 <= i < flags.len() && #[trigger] flags[i]
}

/// Something is kept exactly when a flag is set.
pub(crate) proof fn lemma_kept_some<T>(xs: Seq<T>, keep: Seq<bool>)
    requires
        xs.len() == keep.len(),
    ensures
        kept(xs, keep).len() > 0 <==> any_set(keep),
    decreases xs.len(),
{
    if xs.len() > 0 {
        lemma_kept_some(xs.drop_last(), keep.drop_last());
        if any_set(keep.drop_last()) {
            let i = choose|i: int| 0 <= i < keep.drop_last().len() && #[trigger] keep.drop_last()[i];
            assert(keep[i]);
        }
        if keep.last() {
            assert(keep[keep.len() - 1]);
        }
        if any_set(keep) && !keep.last() {
            let i = choose|i: int| 0 <= i < keep.len() && #[trigger] keep[i];
            assert(keep.drop_last()[i]);
        }
    }
}

/// Passes the rows on for which a predicate holds.
pub struct Filter {
    pub input: Child,
    pub pred: Program,
    pub trace: Ghost<Trace>,
}

/// What a filter makes of one batch.
pub open spec fn filter_step(pred: ProgramV) -> spec_fn((), Chunk) -> ((), Option<Chunk>) {
    |s: (), c: Chunk|
        (
            (),
            match program_keep(pred, c.types, c.rows) {
                Ok(keep) => if any_set(keep) {
                    Some(Chunk { types: c.types, rows: kept(c.rows, keep) })
                } else {
                    None
                },
                Err(_) => None,
            },
        )
}

impl Filter {
    pub fn new(input: Child, pred: Program) -> (f: Filter)
        requires
            input.op.wf(),
        ensures
            f.wf(),
            f.input == input,
            f.pred == pred,
            f.trace@ == fresh_trace(input.op.returned()),
    {
        let f = Filter { input, pred, trace: Ghost(fresh_trace(input.op.returned())) };
        assert(f.input == input);
        f
    }

    /// Narrows one batch to the rows for which the predicate holds; `None` if there
    /// are none.
    pub fn accept(&self, vm: &Vm, batch: Batch) -> (r: Result<Option<Batch>, Error>)
        requires
            batch.wf(),
        ensures
            match program_keep(self.pred@, batch.types(), batch.rows()) {
                Err(c) => r matches Err(e) && e.code == c,
                Ok(keep) => match r {
                    Ok(Some(b)) => {
                        &&& any_set(keep)
                        &&& b.wf()
                        &&& b.types() == batch.types()
                        &&& b.rows() == kept(batch.rows(), keep)
                    },
                    Ok(None) => !any_set(keep),
                    Err(_) => false,
                },
            },
    {
        let sel = match vm.eval_filter(&self.pred, &batch) {
            Ok(s) => s,
            Err(e) => {
                return Err(e);
            },
        };
        let ghost keep = program_keep(self.pred@, batch.types(), batch.rows())->Ok_0;
        proof {
            lemma_kept_some(crate::vector::phys_rows(batch), keep);
        }
        if sel.len() == 0 {
            return Ok(None);
        }
        let b = Batch { cols: batch.cols, sel: Some(sel), empty_rows: batch.empty_rows };
        proof {
            crate::vector::lemma_selected(batch, b, keep);
        }
        Ok(Some(b))
    }
}

impl Filter {
    /// What has been returned is what the plan gives.
    pub(crate) proof fn lemma_gave(&self, mem: Seq<MemTable>)
        requires
            self.wf(),
        ensures
            self.traced() && self.sound(mem) ==> gave(self.plan(), mem, self.looked(), self.returned(), self.spent()),
            forall|why: Why| #[trigger]
                stops(self.input.op.plan(), mem, self.input.op.looked(), why) ==> stops(self.plan(), mem, self.looked(), why),
            forall|code: Code|
                supplied(self.input, mem) && #[trigger] stuck(self.plan(), self.input.op.returned(), Seq::empty(), code) ==> stops(
                    self.plan(),
                    mem,
                    self.looked(),
                    Why::Failed(code),
                ),
    {
        reveal_with_fuel(gave, 1);
        reveal_with_fuel(stops, 1);
    }
}

impl Operator for Filter {
    open spec fn wf(&self) -> bool {
        &&& self.input.op.wf()
        &&& self.traced() ==> all_taken(self.plan(), self.input.op.returned())
        &&& self.traced() ==> run(filter_step(self.pred@), (), self.input.op.returned()).1 == self.trace@.out
    }

    open spec fn plan(&self) -> NodeV {
        NodeV::Filter { input: Box::new(self.input.op.plan()), pred: self.pred@ }
    }

    open spec fn looked(&self) -> Seq<Look> {
        self.input.op.looked()
    }

    open spec fn traced(&self) -> bool {
        self.trace@.ok && self.input.op.traced()
    }

    open spec fn returned(&self) -> Seq<Chunk> {
        self.trace@.out
    }

    open spec fn spent(&self) -> bool {
        self.input.op.spent()
    }

    open spec fn sound(&self, mem: Seq<MemTable>) -> bool {
        supplied(self.input, mem)
    }

    open spec fn sure(&self, mem: Seq<MemTable>) -> bool {
        &&& self.input.op.sure(mem)
        &&& self.input.op.bound(mem) < u64::MAX
        &&& always_kept(self.pred@, self.input.op.tys(mem))
    }

    open spec fn tys(&self, mem: Seq<MemTable>) -> Seq<Ty> {
        self.input.op.tys(mem)
    }

    open spec fn bound(&self, mem: Seq<MemTable>) -> nat {
        self.input.op.bound(mem)
    }

    fn next(&mut self, ctx: &mut ExecContext) -> (r: Result<Step, Error>)
        ensures
            answers(
                r,
                *final(ctx),
                final(self).input.said@,
                old(self).traced(),
                final(self).plan(),
                final(self).input.op.returned(),
                Seq::empty(),
            ),
    {
        self.input.said = Ghost(Said::Nothing);
        let mut fuel: u64 = u64::MAX;
        proof {
            lemma_no_look(self.looked(), ctx.catalog);
        }
        while fuel > 0
            invariant
                self.wf(),
                ctx.wf(),
                ctx.same_data(*old(ctx)),
                looked_on(old(self).looked(), old(ctx).catalog, self.looked(), ctx.catalog),
                ctx.io == old(ctx).io,
                ctx.codec == old(ctx).codec,
                self.input.said@.goes_on(),
                self.input.op.traced() ==> self.input.op.returned().len() + fuel >= u64::MAX,
                old(self).sound(old(ctx).catalog.mem@) && self.traced() ==> self.sound(old(ctx).catalog.mem@),
                old(self).sure(old(ctx).catalog.mem@) ==> {
                    let mem = old(ctx).catalog.mem@;
                    &&& self.sure(mem)
                    &&& self.tys(mem) == old(self).tys(mem)
                    &&& self.bound(mem) <= old(self).bound(mem)
                    &&& self.bound(mem) < fuel
                },
                self.pred == old(self).pred,
                self.trace == old(self).trace,
                self.input.op.plan() == old(self).input.op.plan(),
                self.input.op.traced() <==> old(self).input.op.traced(),
            decreases fuel,
        {
            let ghost before = self.input.op.returned();
            let batch = match self.input.pull(ctx) {
                Ok(Step::Ready(b)) => b,
                Ok(other) => {
                    proof {
                        self.lemma_gave(old(ctx).catalog.mem@);
                    }
                    return Ok(other);
                },
                Err(e) => {
                    proof {
                        self.lemma_gave(old(ctx).catalog.mem@);
                    }
                    return Err(e);
                },
            };
            proof {
                lemma_batch_typed(batch);
                lemma_run_push(filter_step(self.pred@), (), before, chunk(batch));
            }
            let ghost c = chunk(batch);
            match self.accept(&ctx.vm, batch) {
                Ok(Some(b)) => {
                    proof {
                        if self.traced() {
                            lemma_taken_push(self.plan(), before, c);
                        }
                    }
                    self.trace = Ghost(grown_trace(self.trace@, chunk(b)));
                    proof {
                        self.lemma_gave(old(ctx).catalog.mem@);
                    }
                    return Ok(Step::Ready(b));
                },
                Ok(None) => {
                    proof {
                        if self.traced() {
                            lemma_taken_push(self.plan(), before, c);
                        }
                    }
                },
                Err(e) => {
                    self.trace = Ghost(lost_trace(self.trace@));
                    proof {
                        if old(self).traced() {
                            assert(self.input.op.returned() == before.push(c));
                            assert(before.push(c).drop_last() =~= before);
                            assert(stuck(self.plan(), self.input.op.returned(), Seq::empty(), e.code));
                        }
                        self.lemma_gave(old(ctx).catalog.mem@);
                    }
                    return Err(e);
                },
            }
            fuel = fuel - 1;
        }
        proof {
            if old(self).traced() {
                assert(stuck(self.plan(), self.input.op.returned(), Seq::empty(), Code::LimitExceeded));
            }
            self.lemma_gave(old(ctx).catalog.mem@);
        }
        Err(Error::new(Code::LimitExceeded))
    }
}

// --- DistinctOn -------------------------------------------------------------------

/// The bytes that the keys seen may use.
pub const MAX_DISTINCT_ON_BYTES: u64 = 0x400_0000;

/// Passes on, in the order of arrival, the first row of each key.
pub struct DistinctOn {
    input: Child,
    keys: Vec<Program>,
    seen: HashIndex,
    trace: Ghost<Trace>,
}

/// What one batch does to the keys seen, and what is passed on of it.
pub open spec fn distinct_step(progs: Seq<ProgramV>) -> spec_fn(Seq<(Seq<u8>, u32)>, Chunk) -> (
    Seq<(Seq<u8>, u32)>,
    Option<Chunk>,
) {
    |s: Seq<(Seq<u8>, u32)>, c: Chunk|
        {
            match programs_value(progs, c.types, c.rows, progs.len() as int) {
                Err(_) => (s, None),
                Ok(cols) => {
                    let keys = col_keys(cols, c.rows.len());
                    (
                        grown(s, keys, keys.len() as int),
                        if any_set(fresh_flags(s, keys)) {
                            Some(Chunk { types: c.types, rows: kept(c.rows, fresh_flags(s, keys)) })
                        } else {
                            None
                        },
                    )
                },
            }
        }
}

/// Why the last of some batches cannot be narrowed to the rows whose key is new.
pub open spec fn distinct_stuck(progs: Seq<ProgramV>, xs: Seq<Chunk>, code: Code) -> bool {
    xs.len() > 0 && match programs_value(progs, xs.last().types, xs.last().rows, progs.len() as int) {
        Err(c) => code == c,
        Ok(cols) => {
            let keys = col_keys(cols, xs.last().rows.len());
            let seen = run(distinct_step(progs), Seq::empty(), xs.drop_last()).0;
            code == Code::Oom && index_bytes(grown(seen, keys, keys.len() as int)) > MAX_DISTINCT_ON_BYTES
        },
    }
}

/// Whether every flag is set.
pub open spec fn all_set(flags: Seq<bool>) -> bool {
    forall|i: int| 0 <= i < flags.len() ==> #[trigger] flags[i]
}

fn some_set(flags: &Vec<bool>) -> (r: bool)
    ensures
        r == any_set(flags@),
{
    let mut i: usize = 0;
    while i < flags.len()
        invariant
            i <= flags@.len(),
            forall|j: int| 0 <= j < i ==> !#[trigger] flags@[j],
        decreases flags@.len() - i,
    {
        if flags[i] {
            return true;
        }
        i = i + 1;
    }
    false
}

/// Looks up the keys of a batch's rows, unless the index is full already. `None` if
/// the index is over its limit before or after; it stays so.
pub fn note_keys(index: &mut HashIndex, cols: &Vec<Vector>, n: usize, limit: u64) -> (r: Option<Vec<bool>>)
    requires
        old(index).wf(),
        cols_wf(cols@, n as int),
        limit <= 0x1000_0000,
    ensures
        final(index).wf(),
        ({
            let keys = col_keys(cols_of(cols@), n as nat);
            let after = grown(old(index)@, keys, n as int);
            match r {
                Some(flags) => {
                    &&& index_bytes(after) <= limit
                    &&& flags@ == fresh_flags(old(index)@, keys)
                    &&& final(index)@ == after
                },
                None => index_bytes(after) > limit && index_bytes(final(index)@) > limit,
            }
        }),
{
    let ghost keys = col_keys(cols_of(cols@), n as nat);
    proof {
        lemma_grown_bounds(index@, keys, n as int);
        crate::exec::rowkey::lemma_key_total_positive(index@);
    }
    if index.approx_bytes() > limit {
        return None;
    }
    let r = mark_fresh(index, cols, n);
    if r.is_none() {
        proof {
            crate::exec::rowkey::lemma_full_index(grown(old(index)@, keys, n as int));
            crate::exec::rowkey::lemma_full_index(index@);
        }
        return None;
    }
    if index.approx_bytes() > limit {
        return None;
    }
    r
}

impl DistinctOn {
    pub closed spec fn input_of(&self) -> Child {
        self.input
    }

    pub closed spec fn keys_of(&self) -> Seq<Program> {
        self.keys@
    }

    /// The keys seen so far.
    pub closed spec fn seen(&self) -> Seq<(Seq<u8>, u32)> {
        self.seen@
    }

    pub closed spec fn trace(&self) -> Trace {
        self.trace@
    }

    pub closed spec fn inv(&self) -> bool {
        self.seen.wf()
    }

    pub fn new(input: Child, keys: Vec<Program>) -> (d: DistinctOn)
        requires
            input.op.wf(),
        ensures
            d.wf(),
            d.input_of() == input,
            d.keys_of() == keys@,
            d.seen().len() == 0,
            d.trace() == fresh_trace(input.op.returned()),
    {
        let d = DistinctOn { input, keys, seen: HashIndex::new(), trace: Ghost(fresh_trace(input.op.returned())) };
        assert(d.input_of() == input);
        assert(d.seen() =~= Seq::empty());
        d
    }

    /// Narrows one batch to the rows whose key has not been seen; `None` if there are
    /// none.
    pub fn accept(&mut self, vm: &Vm, batch: Batch) -> (r: Result<Option<Batch>, Error>)
        requires
            old(self).inv(),
            batch.wf(),
        ensures
            final(self).inv(),
            final(self).input_of() == old(self).input_of(),
            final(self).keys_of() == old(self).keys_of(),
            final(self).trace() == old(self).trace(),
            match programs_value(
                progs_of(old(self).keys_of()),
                batch.types(),
                batch.rows(),
                old(self).keys_of().len() as int,
            ) {
                Err(c) => (r matches Err(e) && e.code == c) && final(self).seen() == old(self).seen(),
                Ok(cols) => {
                    let keys = col_keys(cols, batch.rows().len());
                    let fresh = fresh_flags(old(self).seen(), keys);
                    let after = grown(old(self).seen(), keys, keys.len() as int);
                    if index_bytes(after) > MAX_DISTINCT_ON_BYTES {
                        (r matches Err(e) && e.code == Code::Oom) && index_bytes(final(self).seen()) > MAX_DISTINCT_ON_BYTES
                    } else {
                        &&& final(self).seen() == after
                        &&& match r {
                            Ok(Some(b)) => {
                                &&& any_set(fresh)
                                &&& b.wf()
                                &&& b.types() == batch.types()
                                &&& b.rows() == kept(batch.rows(), fresh)
                            },
                            Ok(None) => !any_set(fresh),
                            Err(_) => false,
                        }
                    }
                },
            },
    {
        let n: usize = batch.card();
        let cols = match vm.eval_all(&self.keys, &batch) {
            Ok(c) => c,
            Err(e) => {
                return Err(e);
            },
        };
        assert(batch.rows().len() == n);
        match note_keys(&mut self.seen, &cols, n, MAX_DISTINCT_ON_BYTES) {
            None => Err(Error::new(Code::Oom)),
            Some(flags) => {
                if !some_set(&flags) {
                    return Ok(None);
                }
                Ok(Some(batch.narrowed(&flags)))
            },
        }
    }
}

impl DistinctOn {
    /// What has been returned is what the plan gives.
    pub(crate) proof fn lemma_gave(&self, mem: Seq<MemTable>)
        requires
            self.wf(),
        ensures
            self.traced() && self.sound(mem) ==> gave(self.plan(), mem, self.looked(), self.returned(), self.spent()),
            forall|why: Why| #[trigger]
                stops(self.input_of().op.plan(), mem, self.input_of().op.looked(), why) ==> stops(self.plan(), mem, self.looked(), why),
            forall|code: Code|
                supplied(self.input_of(), mem) && #[trigger] stuck(self.plan(), self.input_of().op.returned(), Seq::empty(), code) ==> stops(
                    self.plan(),
                    mem,
                    self.looked(),
                    Why::Failed(code),
                ),
    {
        reveal_with_fuel(gave, 1);
        reveal_with_fuel(stops, 1);
        let p = self.plan();
        let xs = self.input_of().op.returned();
        assert(run(distinct_step(p->DistinctOn_keys), Seq::empty(), xs) == run(
            distinct_step(progs_of(self.keys_of())),
            Seq::empty(),
            xs,
        ));
    }
}

impl Operator for DistinctOn {
    open spec fn wf(&self) -> bool {
        &&& self.input_of().op.wf()
        &&& self.traced() ==> all_taken(self.plan(), self.input_of().op.returned())
        &&& self.inv()
        &&& self.traced() ==> index_bytes(self.seen()) <= MAX_DISTINCT_ON_BYTES
        &&& self.traced() ==> run(
            distinct_step(progs_of(self.keys_of())),
            Seq::empty(),
            self.input_of().op.returned(),
        ) == (self.seen(), self.trace().out)
    }

    open spec fn plan(&self) -> NodeV {
        NodeV::DistinctOn { input: Box::new(self.input_of().op.plan()), keys: progs_of(self.keys_of()) }
    }

    open spec fn looked(&self) -> Seq<Look> {
        self.input_of().op.looked()
    }

    open spec fn traced(&self) -> bool {
        self.trace().ok && self.input_of().op.traced()
    }

    open spec fn returned(&self) -> Seq<Chunk> {
        self.trace().out
    }

    open spec fn spent(&self) -> bool {
        self.input_of().op.spent()
    }

    open spec fn sound(&self, mem: Seq<MemTable>) -> bool {
        supplied(self.input_of(), mem)
    }

    fn next(&mut self, ctx: &mut ExecContext) -> (r: Result<Step, Error>)
        ensures
            answers(
                r,
                *final(ctx),
                final(self).input_of().said@,
                old(self).traced(),
                final(self).plan(),
                final(self).input_of().op.returned(),
                Seq::empty(),
            ),
    {
        self.input.said = Ghost(Said::Nothing);
        let mut fuel: u64 = u64::MAX;
        proof {
            lemma_no_look(self.looked(), ctx.catalog);
        }
        while fuel > 0
            invariant
                self.wf(),
                ctx.wf(),
                ctx.same_data(*old(ctx)),
                looked_on(old(self).looked(), old(ctx).catalog, self.looked(), ctx.catalog),
                ctx.io == old(ctx).io,
                ctx.codec == old(ctx).codec,
                self.input_of().said@.goes_on(),
                self.input_of().op.traced() ==> self.input_of().op.returned().len() + fuel >= u64::MAX,
                old(self).sound(old(ctx).catalog.mem@) && self.traced() ==> self.sound(old(ctx).catalog.mem@),
                self.keys_of() == old(self).keys_of(),
                self.trace() == old(self).trace(),
                self.input_of().op.plan() == old(self).input_of().op.plan(),
                self.input_of().op.traced() <==> old(self).input_of().op.traced(),
            decreases fuel,
        {
            let ghost before = self.input_of().op.returned();
            let batch = match self.input.pull(ctx) {
                Ok(Step::Ready(b)) => b,
                Ok(other) => {
                    proof {
                        self.lemma_gave(old(ctx).catalog.mem@);
                    }
                    return Ok(other);
                },
                Err(e) => {
                    proof {
                        self.lemma_gave(old(ctx).catalog.mem@);
                    }
                    return Err(e);
                },
            };
            proof {
                lemma_run_push(distinct_step(progs_of(self.keys_of())), Seq::empty(), before, chunk(batch));
            }
            let ghost c = chunk(batch);
            match self.accept(&ctx.vm, batch) {
                Ok(Some(b)) => {
                    proof {
                        if self.traced() {
                            lemma_taken_push(self.plan(), before, c);
                        }
                    }
                    self.trace = Ghost(grown_trace(self.trace@, chunk(b)));
                    proof {
                        self.lemma_gave(old(ctx).catalog.mem@);
                    }
                    return Ok(Step::Ready(b));
                },
                Ok(None) => {
                    proof {
                        if self.traced() {
                            lemma_taken_push(self.plan(), before, c);
                        }
                    }
                },
                Err(e) => {
                    self.trace = Ghost(lost_trace(self.trace@));
                    proof {
                        if old(self).traced() {
                            assert(self.input_of().op.returned() == before.push(c));
                            assert(before.push(c).drop_last() =~= before);
                            assert(stuck(self.plan(), self.input_of().op.returned(), Seq::empty(), e.code));
                        }
                        self.lemma_gave(old(ctx).catalog.mem@);
                    }
                    return Err(e);
                },
            }
            fuel = fuel - 1;
        }
        proof {
            if old(self).traced() {
                assert(stuck(self.plan(), self.input_of().op.returned(), Seq::empty(), Code::LimitExceeded));
            }
            self.lemma_gave(old(ctx).catalog.mem@);
        }
        Err(Error::new(Code::LimitExceeded))
    }
}

// --- AssertMaxOneRow --------------------------------------------------------------

/// Passes rows on as long as no key comes twice; with no keys, as long as there is
/// only one row.
pub struct AssertMaxOneRow {
    input: Child,
    keys: Vec<Program>,
    seen: HashIndex,
    trace: Ghost<Trace>,
}

/// What one batch does to the keys seen; its rows are passed on.
pub open spec fn at_most_one_step(progs: Seq<ProgramV>) -> spec_fn(Seq<(Seq<u8>, u32)>, Chunk) -> (
    Seq<(Seq<u8>, u32)>,
    Option<Chunk>,
) {
    |s: Seq<(Seq<u8>, u32)>, c: Chunk|
        {
            match programs_value(progs, c.types, c.rows, progs.len() as int) {
                Err(_) => (s, None),
                Ok(cols) => {
                    let keys = col_keys(cols, c.rows.len());
                    (
                        grown(s, keys, keys.len() as int),
                        if c.rows.len() > 0 {
                            Some(c)
                        } else {
                            None
                        },
                    )
                },
            }
        }
}

/// The first of some keys that has been seen.
pub open spec fn first_repeat(seen: Seq<(Seq<u8>, u32)>, keys: Seq<Seq<u8>>, k: int) -> bool {
    &&& 0 <= k < keys.len()
    &&& !fresh_flags(seen, keys)[k]
    &&& forall|j: int| 0 <= j < k ==> #[trigger] fresh_flags(seen, keys)[j]
}

/// Keys were looked up until the first that has been seen.
pub open spec fn stopped_at_repeat(
    seen: Seq<(Seq<u8>, u32)>,
    keys: Seq<Seq<u8>>,
    now: Seq<(Seq<u8>, u32)>,
) -> bool {
    exists|k: int| #[trigger] first_repeat(seen, keys, k) && now == grown(seen, keys, k)
}

/// Why the last of some batches is not passed on: a key comes again, or there are too many.
pub open spec fn max_one_stuck(progs: Seq<ProgramV>, xs: Seq<Chunk>, code: Code) -> bool {
    xs.len() > 0 && match programs_value(progs, xs.last().types, xs.last().rows, progs.len() as int) {
        Err(c) => code == c,
        Ok(cols) => {
            let keys = col_keys(cols, xs.last().rows.len());
            let seen = run(at_most_one_step(progs), Seq::empty(), xs.drop_last()).0;
            let after = grown(seen, keys, keys.len() as int);
            ||| code == Code::MultipleRowsSubquery && !all_set(fresh_flags(seen, keys))
            ||| code == Code::Oom && all_set(fresh_flags(seen, keys)) && index_bytes(after) > MAX_DISTINCT_ON_BYTES
            ||| code == Code::Oom && after.len() >= max_keys()
        },
    }
}

impl AssertMaxOneRow {
    pub closed spec fn input_of(&self) -> Child {
        self.input
    }

    pub closed spec fn keys_of(&self) -> Seq<Program> {
        self.keys@
    }

    /// The keys seen so far.
    pub closed spec fn seen(&self) -> Seq<(Seq<u8>, u32)> {
        self.seen@
    }

    pub closed spec fn trace(&self) -> Trace {
        self.trace@
    }

    pub closed spec fn inv(&self) -> bool {
        self.seen.wf()
    }

    pub fn new(input: Child, keys: Vec<Program>) -> (d: AssertMaxOneRow)
        requires
            input.op.wf(),
        ensures
            d.wf(),
            d.input_of() == input,
            d.keys_of() == keys@,
            d.seen().len() == 0,
            d.trace() == fresh_trace(input.op.returned()),
    {
        let d = AssertMaxOneRow { input, keys, seen: HashIndex::new(), trace: Ghost(fresh_trace(input.op.returned())) };
        assert(d.input_of() == input);
        assert(d.seen() =~= Seq::empty());
        d
    }

    /// Checks one batch; `None` if it has no rows. It stops at the first row whose key has been
    /// seen.
    pub fn accept(&mut self, vm: &Vm, batch: Batch) -> (r: Result<Option<Batch>, Error>)
        requires
            old(self).inv(),
            batch.wf(),
        ensures
            final(self).inv(),
            final(self).input_of() == old(self).input_of(),
            final(self).keys_of() == old(self).keys_of(),
            final(self).trace() == old(self).trace(),
            match programs_value(
                progs_of(old(self).keys_of()),
                batch.types(),
                batch.rows(),
                old(self).keys_of().len() as int,
            ) {
                Err(c) => (r matches Err(e) && e.code == c) && final(self).seen() == old(self).seen(),
                Ok(cols) => {
                    let keys = col_keys(cols, batch.rows().len());
                    let fresh = fresh_flags(old(self).seen(), keys);
                    let after = grown(old(self).seen(), keys, keys.len() as int);
                    match r {
                        Ok(b) => {
                            &&& all_set(fresh)
                            &&& index_bytes(after) <= MAX_DISTINCT_ON_BYTES
                            &&& final(self).seen() == after
                            &&& match b {
                                Some(b) => b == batch && batch.rows().len() > 0,
                                None => batch.rows().len() == 0,
                            }
                        },
                        Err(e) => if e.code == Code::MultipleRowsSubquery {
                            stopped_at_repeat(old(self).seen(), keys, final(self).seen())
                        } else {
                            &&& e.code == Code::Oom
                            &&& {
                                ||| all_set(fresh) && index_bytes(after) > MAX_DISTINCT_ON_BYTES && final(self).seen()
                                    == after
                                ||| after.len() >= max_keys()
                            }
                        },
                    }
                },
            },
    {
        let n: usize = batch.card();
        let cols = match vm.eval_all(&self.keys, &batch) {
            Ok(c) => c,
            Err(e) => {
                return Err(e);
            },
        };
        assert(batch.rows().len() == n);
        let refs = column_refs(&cols);
        let ghost keys = col_keys(cols_of(cols@), n as nat);
        let ghost e = self.seen@;
        let ghost fresh = fresh_flags(e, keys);
        let mut key: Vec<u8> = Vec::new();
        let mut i: usize = 0;
        while i < n
            invariant
                i <= n,
                self.inv(),
                self.input_of() == old(self).input_of(),
                self.keys_of() == old(self).keys_of(),
                self.trace() == old(self).trace(),
                e == old(self).seen(),
                n == batch.rows().len(),
                programs_value(
                    progs_of(old(self).keys_of()),
                    batch.types(),
                    batch.rows(),
                    old(self).keys_of().len() as int,
                ) == Ok::<Seq<ColV>, Code>(cols_of(cols@)),
                cols_wf(cols@, n as int),
                refs@.unref() == cols@,
                refs@.len() == cols@.len(),
                forall|c: int| 0 <= c < refs@.len() ==> *(#[trigger] refs@[c]) == cols@[c],
                keys == col_keys(cols_of(cols@), n as nat),
                fresh == fresh_flags(e, keys),
                self.seen() == grown(e, keys, i as int),
                forall|j: int| 0 <= j < i ==> #[trigger] fresh[j],
            decreases n - i,
        {
            assert forall|c: int| 0 <= c < refs@.len() implies i < (#[trigger] refs@[c])@.len() by {
                assert(cols@[c]@.len() == n);
            }
            encode_key(refs.as_slice(), i, &mut key);
            proof {
                lemma_col_key(cols@, n as nat, i as int);
                lemma_grown_more(e, keys, i as int, n as int);
            }
            if self.seen.len() >= max_keys() {
                return Err(Error::new(Code::Oom));
            }
            let (_, new) = self.seen.get_or_insert(key.as_slice());
            if !new {
                assert(!fresh[i as int] && self.seen() == grown(e, keys, i as int));
                assert(first_repeat(e, keys, i as int));
                assert(stopped_at_repeat(e, keys, self.seen()));
                return Err(Error::new(Code::MultipleRowsSubquery));
            }
            assert(fresh[i as int]);
            i = i + 1;
        }
        if self.seen.approx_bytes() > MAX_DISTINCT_ON_BYTES {
            return Err(Error::new(Code::Oom));
        }
        if n == 0 {
            return Ok(None);
        }
        Ok(Some(batch))
    }
}

/// Looking up more keys leaves no fewer in the index.
proof fn lemma_grown_more(e: Seq<(Seq<u8>, u32)>, keys: Seq<Seq<u8>>, i: int, n: int)
    requires
        i <= n,
    ensures
        grown(e, keys, i).len() <= grown(e, keys, n).len(),
    decreases n - i,
{
    if i < n {
        lemma_grown_more(e, keys, i, n - 1);
    }
}

impl AssertMaxOneRow {
    /// What has been returned is what the plan gives.
    pub(crate) proof fn lemma_gave(&self, mem: Seq<MemTable>)
        requires
            self.wf(),
        ensures
            self.traced() && self.sound(mem) ==> gave(self.plan(), mem, self.looked(), self.returned(), self.spent()),
            forall|why: Why| #[trigger]
                stops(self.input_of().op.plan(), mem, self.input_of().op.looked(), why) ==> stops(self.plan(), mem, self.looked(), why),
            forall|code: Code|
                supplied(self.input_of(), mem) && #[trigger] stuck(self.plan(), self.input_of().op.returned(), Seq::empty(), code) ==> stops(
                    self.plan(),
                    mem,
                    self.looked(),
                    Why::Failed(code),
                ),
    {
        reveal_with_fuel(gave, 1);
        reveal_with_fuel(stops, 1);
        let p = self.plan();
        let xs = self.input_of().op.returned();
        assert(run(at_most_one_step(p->AssertMaxOneRow_keys), Seq::empty(), xs) == run(
            at_most_one_step(progs_of(self.keys_of())),
            Seq::empty(),
            xs,
        ));
    }
}

/// Every row that came in has a key of its own.
proof fn lemma_all_fresh(was: AssertMaxOneRow, now: AssertMaxOneRow, before: Seq<Chunk>, c: Chunk)
    requires
        was.seen().len() == flat(before).len(),
        match programs_value(progs_of(was.keys_of()), c.types, c.rows, was.keys_of().len() as int) {
            Err(_) => false,
            Ok(cols) => {
                let keys = col_keys(cols, c.rows.len());
                &&& all_set(fresh_flags(was.seen(), keys))
                &&& now.seen() == grown(was.seen(), keys, keys.len() as int)
            },
        },
    ensures
        now.seen().len() == flat(before.push(c)).len(),
{
    let cols = programs_value(progs_of(was.keys_of()), c.types, c.rows, was.keys_of().len() as int)->Ok_0;
    let keys = col_keys(cols, c.rows.len());
    let n = keys.len() as int;
    let flags = fresh_flags(was.seen(), keys);
    lemma_flat_push(before, c);
    lemma_grown_keys(was.seen(), keys, n);
    assert(keys.take(n) =~= keys);
    assert(flags.take(n) =~= flags);
    lemma_kept_all(keys, flags);
    assert(indexed(now.seen()).len() == now.seen().len());
    assert(indexed(was.seen()).len() == was.seen().len());
}

impl Operator for AssertMaxOneRow {
    open spec fn wf(&self) -> bool {
        &&& self.input_of().op.wf()
        &&& self.traced() ==> all_taken(self.plan(), self.input_of().op.returned())
        &&& self.traced() ==> self.seen().len() == flat(self.input_of().op.returned()).len()
        &&& self.inv()
        &&& self.traced() ==> index_bytes(self.seen()) <= MAX_DISTINCT_ON_BYTES
        &&& self.traced() ==> run(
            at_most_one_step(progs_of(self.keys_of())),
            Seq::empty(),
            self.input_of().op.returned(),
        ) == (self.seen(), self.trace().out)
    }

    open spec fn plan(&self) -> NodeV {
        NodeV::AssertMaxOneRow { input: Box::new(self.input_of().op.plan()), keys: progs_of(self.keys_of()) }
    }

    open spec fn looked(&self) -> Seq<Look> {
        self.input_of().op.looked()
    }

    open spec fn traced(&self) -> bool {
        self.trace().ok && self.input_of().op.traced()
    }

    open spec fn returned(&self) -> Seq<Chunk> {
        self.trace().out
    }

    open spec fn spent(&self) -> bool {
        self.input_of().op.spent()
    }

    open spec fn sound(&self, mem: Seq<MemTable>) -> bool {
        supplied(self.input_of(), mem)
    }

    fn next(&mut self, ctx: &mut ExecContext) -> (r: Result<Step, Error>)
        ensures
            answers(
                r,
                *final(ctx),
                final(self).input_of().said@,
                old(self).traced(),
                final(self).plan(),
                final(self).input_of().op.returned(),
                Seq::empty(),
            ),
    {
        self.input.said = Ghost(Said::Nothing);
        let mut fuel: u64 = u64::MAX;
        proof {
            lemma_no_look(self.looked(), ctx.catalog);
        }
        while fuel > 0
            invariant
                self.wf(),
                ctx.wf(),
                ctx.same_data(*old(ctx)),
                looked_on(old(self).looked(), old(ctx).catalog, self.looked(), ctx.catalog),
                ctx.io == old(ctx).io,
                ctx.codec == old(ctx).codec,
                self.input_of().said@.goes_on(),
                self.input_of().op.traced() ==> self.input_of().op.returned().len() + fuel >= u64::MAX,
                old(self).sound(old(ctx).catalog.mem@) && self.traced() ==> self.sound(old(ctx).catalog.mem@),
                self.keys_of() == old(self).keys_of(),
                self.trace() == old(self).trace(),
                self.input_of().op.plan() == old(self).input_of().op.plan(),
                self.input_of().op.traced() <==> old(self).input_of().op.traced(),
            decreases fuel,
        {
            let ghost before = self.input_of().op.returned();
            let batch = match self.input.pull(ctx) {
                Ok(Step::Ready(b)) => b,
                Ok(other) => {
                    proof {
                        self.lemma_gave(old(ctx).catalog.mem@);
                    }
                    return Ok(other);
                },
                Err(e) => {
                    proof {
                        self.lemma_gave(old(ctx).catalog.mem@);
                    }
                    return Err(e);
                },
            };
            proof {
                lemma_run_push(at_most_one_step(progs_of(self.keys_of())), Seq::empty(), before, chunk(batch));
            }
            let ghost c = chunk(batch);
            let ghost was = *self;
            match self.accept(&ctx.vm, batch) {
                Ok(Some(b)) => {
                    proof {
                        if self.traced() {
                            lemma_taken_push(self.plan(), before, c);
                            lemma_all_fresh(was, *self, before, c);
                        }
                    }
                    self.trace = Ghost(grown_trace(self.trace@, chunk(b)));
                    proof {
                        self.lemma_gave(old(ctx).catalog.mem@);
                    }
                    return Ok(Step::Ready(b));
                },
                Ok(None) => {
                    proof {
                        if self.traced() {
                            lemma_taken_push(self.plan(), before, c);
                            lemma_all_fresh(was, *self, before, c);
                        }
                    }
                },
                Err(e) => {
                    self.trace = Ghost(lost_trace(self.trace@));
                    proof {
                        if old(self).traced() {
                            assert(self.input_of().op.returned() == before.push(c));
                            assert(before.push(c).drop_last() =~= before);
                            assert(stuck(self.plan(), self.input_of().op.returned(), Seq::empty(), e.code));
                        }
                        self.lemma_gave(old(ctx).catalog.mem@);
                    }
                    return Err(e);
                },
            }
            fuel = fuel - 1;
        }
        proof {
            if old(self).traced() {
                assert(stuck(self.plan(), self.input_of().op.returned(), Seq::empty(), Code::LimitExceeded));
            }
            self.lemma_gave(old(ctx).catalog.mem@);
        }
        Err(Error::new(Code::LimitExceeded))
    }
}

// --- Project ----------------------------------------------------------------------

/// Computes a column per expression.
pub struct Project {
    pub input: Child,
    pub exprs: Vec<Program>,
    pub trace: Ghost<Trace>,
}

/// What a projection makes of one batch.
pub open spec fn project_step(exprs: Seq<ProgramV>) -> spec_fn((), Chunk) -> ((), Option<Chunk>) {
    |s: (), c: Chunk|
        (
            (),
            match programs_value(exprs, c.types, c.rows, exprs.len() as int) {
                Ok(cols) => Some(
                    Chunk { types: Seq::new(cols.len(), |k: int| cols[k].ty), rows: rows_of(cols, c.rows.len()) },
                ),
                Err(_) => None,
            },
        )
}

/// Columns read row by row.
pub open spec fn rows_of(cols: Seq<ColV>, n: nat) -> Seq<Seq<Val>> {
    Seq::new(n, |i: int| Seq::new(cols.len(), |c: int| cols[c].cells[i]))
}

impl Project {
    pub fn new(input: Child, exprs: Vec<Program>) -> (p: Project)
        requires
            input.op.wf(),
        ensures
            p.wf(),
            p.input == input,
            p.exprs == exprs,
            p.trace@ == fresh_trace(input.op.returned()),
    {
        let p = Project { input, exprs, trace: Ghost(fresh_trace(input.op.returned())) };
        assert(p.input == input);
        p
    }

    /// Computes the expressions on one batch. The row count stays the same, even
    /// without expressions.
    pub fn accept(&self, vm: &Vm, batch: Batch) -> (r: Result<Batch, Error>)
        requires
            batch.wf(),
        ensures
            match programs_value(progs_of(self.exprs@), batch.types(), batch.rows(), self.exprs@.len() as int) {
                Err(c) => r matches Err(e) && e.code == c,
                Ok(cols) => match r {
                    Ok(b) => {
                        &&& b.wf()
                        &&& b.rows() == rows_of(cols, batch.rows().len())
                        &&& b.types() == Seq::new(cols.len(), |c: int| cols[c].ty)
                    },
                    Err(_) => false,
                },
            },
    {
        let n: usize = batch.card();
        match vm.eval_all(&self.exprs, &batch) {
            Ok(cols) => {
                let b = Batch::of_columns(cols, n);
                proof {
                    let vs = cols_of(cols@);
                    assert forall|i: int| 0 <= i < n implies #[trigger] b.rows()[i] == rows_of(vs, n as nat)[i] by {
                        assert(b.rows()[i] =~= rows_of(vs, n as nat)[i]);
                    }
                    assert(b.rows() =~= rows_of(vs, batch.rows().len()));
                    assert(b.types() =~= Seq::new(vs.len(), |c: int| vs[c].ty));
                }
                Ok(b)
            },
            Err(e) => Err(e),
        }
    }
}

impl Project {
    /// What has been returned is what the plan gives.
    pub(crate) proof fn lemma_gave(&self, mem: Seq<MemTable>)
        requires
            self.wf(),
        ensures
            self.traced() && self.sound(mem) ==> gave(self.plan(), mem, self.looked(), self.returned(), self.spent()),
            forall|why: Why| #[trigger]
                stops(self.input.op.plan(), mem, self.input.op.looked(), why) ==> stops(self.plan(), mem, self.looked(), why),
            forall|code: Code|
                supplied(self.input, mem) && #[trigger] stuck(self.plan(), self.input.op.returned(), Seq::empty(), code) ==> stops(
                    self.plan(),
                    mem,
                    self.looked(),
                    Why::Failed(code),
                ),
    {
        reveal_with_fuel(gave, 1);
        reveal_with_fuel(stops, 1);
        let p = self.plan();
        assert(run(project_step(p->Project_exprs), (), self.input.op.returned()) == run(
            project_step(progs_of(self.exprs@)),
            (),
            self.input.op.returned(),
        ));
    }
}

impl Operator for Project {
    open spec fn wf(&self) -> bool {
        &&& self.input.op.wf()
        &&& self.traced() ==> all_taken(self.plan(), self.input.op.returned())
        &&& self.traced() ==> run(project_step(progs_of(self.exprs@)), (), self.input.op.returned()).1
            == self.trace@.out
    }

    open spec fn plan(&self) -> NodeV {
        NodeV::Project { input: Box::new(self.input.op.plan()), exprs: progs_of(self.exprs@) }
    }

    open spec fn looked(&self) -> Seq<Look> {
        self.input.op.looked()
    }

    open spec fn traced(&self) -> bool {
        self.trace@.ok && self.input.op.traced()
    }

    open spec fn returned(&self) -> Seq<Chunk> {
        self.trace@.out
    }

    open spec fn spent(&self) -> bool {
        self.input.op.spent()
    }

    open spec fn sound(&self, mem: Seq<MemTable>) -> bool {
        supplied(self.input, mem)
    }

    open spec fn sure(&self, mem: Seq<MemTable>) -> bool {
        self.input.op.sure(mem) && always_valued(progs_of(self.exprs@), self.input.op.tys(mem))
    }

    open spec fn tys(&self, mem: Seq<MemTable>) -> Seq<Ty> {
        meant_types(progs_of(self.exprs@))
    }

    open spec fn bound(&self, mem: Seq<MemTable>) -> nat {
        self.input.op.bound(mem)
    }

    fn next(&mut self, ctx: &mut ExecContext) -> (r: Result<Step, Error>)
        ensures
            answers(
                r,
                *final(ctx),
                final(self).input.said@,
                old(self).traced(),
                final(self).plan(),
                final(self).input.op.returned(),
                Seq::empty(),
            ),
    {
        self.input.said = Ghost(Said::Nothing);
        let ghost before = self.input.op.returned();
        let batch = match self.input.pull(ctx) {
            Ok(Step::Ready(b)) => b,
            Ok(other) => {
                proof {
                    self.lemma_gave(old(ctx).catalog.mem@);
                }
                return Ok(other);
            },
            Err(e) => {
                proof {
                    self.lemma_gave(old(ctx).catalog.mem@);
                }
                return Err(e);
            },
        };
        proof {
            lemma_batch_typed(batch);
            lemma_run_push(project_step(progs_of(self.exprs@)), (), before, chunk(batch));
        }
        let ghost c = chunk(batch);
        match self.accept(&ctx.vm, batch) {
            Ok(b) => {
                proof {
                    if self.traced() {
                        lemma_taken_push(self.plan(), before, c);
                    }
                }
                self.trace = Ghost(grown_trace(self.trace@, chunk(b)));
                proof {
                    self.lemma_gave(old(ctx).catalog.mem@);
                }
                Ok(Step::Ready(b))
            },
            Err(e) => {
                self.trace = Ghost(lost_trace(self.trace@));
                proof {
                    if old(self).traced() {
                        assert(self.input.op.returned() == before.push(c));
                        assert(stuck(self.plan(), self.input.op.returned(), Seq::empty(), e.code));
                    }
                    self.lemma_gave(old(ctx).catalog.mem@);
                }
                Err(e)
            },
        }
    }
}

// --- Limit ------------------------------------------------------------------------

/// Skips the first `offset` rows and passes on at most `limit` after them.
pub struct Limit {
    pub input: Child,
    pub limit: Option<u64>,
    pub offset: u64,
    /// How many rows have come in.
    pub seen: u64,
    /// How many rows have been passed on.
    pub emitted: u64,
    pub trace: Ghost<Trace>,
}

/// How many of the next `n` rows are still skipped.
pub open spec fn limit_skip(offset: int, seen: int, n: int) -> int {
    if offset <= seen {
        0
    } else if offset - seen < n {
        offset - seen
    } else {
        n
    }
}

/// How many of `n` rows are passed on.
pub open spec fn limit_take(limit: Option<u64>, emitted: int, n: int) -> int {
    match limit {
        None => n,
        Some(l) => if l - emitted < n {
            l - emitted
        } else {
            n
        },
    }
}

/// What one batch adds to the rows counted, those that came in and those passed on, and what
/// is passed on of it.
pub open spec fn limit_step(limit: Option<u64>, offset: int) -> spec_fn((int, int), Chunk) -> (
    (int, int),
    Option<Chunk>,
) {
    |s: (int, int), c: Chunk|
        {
            let n = c.rows.len() as int;
            let skip = limit_skip(offset, s.0, n);
            let take = limit_take(limit, s.1, n - skip);
            (
                (sat64(s.0 + n), sat64(s.1 + take)),
                if take > 0 {
                    Some(Chunk { types: c.types, rows: c.rows.subrange(skip, skip + take) })
                } else {
                    None
                },
            )
        }
}

/// How many rows are passed on of the first `seen`.
pub open spec fn limit_total(limit: Option<u64>, offset: int, seen: int) -> int {
    let past = if seen <= offset {
        0
    } else {
        seen - offset
    };
    match limit {
        None => past,
        Some(l) => if past < l {
            past
        } else {
            l as int
        },
    }
}

/// Over all batches, the rows passed on are those at the positions from `offset` up to
/// `offset + limit`, and no others.
pub proof fn limit_passes_on_a_window(limit: Option<u64>, offset: int, seen: int, n: int, k: int)
    requires
        0 <= offset,
        0 <= seen,
        0 <= k < n,
    ensures
        ({
            let emitted = limit_total(limit, offset, seen);
            let skip = limit_skip(offset, seen, n);
            let take = limit_take(limit, emitted, n - skip);
            &&& emitted + take == limit_total(limit, offset, seen + n)
            &&& skip <= k < skip + take <==> offset <= seen + k && (limit matches Some(l) ==> seen + k < offset + l)
        }),
{
}

impl Limit {
    pub fn new(input: Child, limit: Option<u64>, offset: u64) -> (l: Limit)
        requires
            input.op.wf(),
        ensures
            l.wf(),
            l.input == input,
            l.limit == limit,
            l.offset == offset,
            l.seen == 0,
            l.emitted == 0,
            l.trace@ == fresh_trace(input.op.returned()),
    {
        let l = Limit { input, limit, offset, seen: 0, emitted: 0, trace: Ghost(fresh_trace(input.op.returned())) };
        assert(l.input == input);
        l
    }

    pub open spec fn counts_ok(&self) -> bool {
        self.limit matches Some(l) ==> self.emitted <= l
    }

    /// Whether everything asked for has been passed on.
    pub fn is_done(&self) -> (r: bool)
        ensures
            r == (self.limit matches Some(l) && self.emitted >= l),
    {
        match self.limit {
            Some(l) => self.emitted >= l,
            None => false,
        }
    }

    /// Narrows one batch to the rows inside the window; `None` if there are none.
    pub fn accept(&mut self, batch: Batch) -> (r: Option<Batch>)
        requires
            old(self).counts_ok(),
            batch.wf(),
        ensures
            final(self).counts_ok(),
            final(self).input == old(self).input,
            final(self).limit == old(self).limit,
            final(self).offset == old(self).offset,
            final(self).trace == old(self).trace,
            ({
                let n = batch.rows().len() as int;
                let skip = limit_skip(old(self).offset as int, old(self).seen as int, n);
                let take = limit_take(old(self).limit, old(self).emitted as int, n - skip);
                &&& final(self).seen == sat64(old(self).seen + n)
                &&& final(self).emitted == sat64(old(self).emitted + take)
                &&& match r {
                    Some(b) => {
                        &&& take > 0
                        &&& b.wf()
                        &&& b.types() == batch.types()
                        &&& b.rows() == batch.rows().subrange(skip, skip + take)
                    },
                    None => take == 0,
                }
            }),
    {
        let card: usize = batch.card();
        let n: u64 = card as u64;
        let ahead: u64 = self.offset.saturating_sub(self.seen);
        let skip: u64 = if ahead < n {
            ahead
        } else {
            n
        };
        self.seen = self.seen.saturating_add(n);
        let mut take: u64 = n - skip;
        if let Some(l) = self.limit {
            if l - self.emitted < take {
                take = l - self.emitted;
            }
        }
        self.emitted = self.emitted.saturating_add(take);
        if take == 0 {
            return None;
        }
        if skip == 0 && take == n {
            assert(batch.rows().subrange(0, n as int) =~= batch.rows());
            return Some(batch);
        }
        let mut sel: Vec<u32> = Vec::new();
        let mut k: usize = 0;
        while k < take as usize
            invariant
                batch.wf(),
                k <= take,
                skip + take <= n,
                n == card,
                card == batch.spec_card(),
                sel@.len() == k,
                forall|j: int|
                    0 <= j < k ==> (#[trigger] sel@[j]) == batch.phys_row(skip + j) && sel@[j] < batch.spec_num_rows(),
            decreases take - k,
        {
            sel.push(batch.phys_index(skip as usize + k));
            k = k + 1;
        }
        let b = Batch { cols: batch.cols, sel: Some(sel), empty_rows: batch.empty_rows };
        proof {
            assert(b.types() =~= batch.types());
            assert forall|j: int| 0 <= j < take implies #[trigger] b.rows()[j] == batch.rows()[skip + j] by {
                assert(sel@[j] == batch.phys_row(skip + j));
            }
            assert(b.rows() =~= batch.rows().subrange(skip as int, skip + take));
        }
        Some(b)
    }
}

impl Limit {
    /// What has been returned is what the plan gives.
    pub(crate) proof fn lemma_gave(&self, mem: Seq<MemTable>)
        requires
            self.wf(),
        ensures
            self.traced() && self.sound(mem) ==> gave(self.plan(), mem, self.looked(), self.returned(), self.spent()),
            forall|why: Why| #[trigger]
                stops(self.input.op.plan(), mem, self.input.op.looked(), why) ==> stops(self.plan(), mem, self.looked(), why),
            forall|code: Code|
                supplied(self.input, mem) && #[trigger] stuck(self.plan(), self.input.op.returned(), Seq::empty(), code) ==> stops(
                    self.plan(),
                    mem,
                    self.looked(),
                    Why::Failed(code),
                ),
    {
        reveal_with_fuel(gave, 1);
        reveal_with_fuel(stops, 1);
        let p = self.plan();
        assert(run(limit_step(p->Limit_limit, p->Limit_offset as int), (0int, 0int), self.input.op.returned()) == run(
            limit_step(self.limit, self.offset as int),
            (0int, 0int),
            self.input.op.returned(),
        ));
    }
}

impl Operator for Limit {
    open spec fn wf(&self) -> bool {
        &&& self.input.op.wf()
        &&& self.counts_ok()
        &&& self.traced() ==> run(limit_step(self.limit, self.offset as int), (0int, 0int), self.input.op.returned())
            == ((self.seen as int, self.emitted as int), self.trace@.out)
    }

    open spec fn plan(&self) -> NodeV {
        NodeV::Limit { input: Box::new(self.input.op.plan()), limit: self.limit, offset: self.offset }
    }

    open spec fn looked(&self) -> Seq<Look> {
        self.input.op.looked()
    }

    open spec fn traced(&self) -> bool {
        self.trace@.ok && self.input.op.traced()
    }

    open spec fn returned(&self) -> Seq<Chunk> {
        self.trace@.out
    }

    open spec fn spent(&self) -> bool {
        self.input.op.spent() || (self.limit matches Some(l) && self.emitted >= l)
    }

    open spec fn sound(&self, mem: Seq<MemTable>) -> bool {
        supplied(self.input, mem)
    }

    open spec fn sure(&self, mem: Seq<MemTable>) -> bool {
        self.input.op.sure(mem) && self.input.op.bound(mem) < u64::MAX
    }

    open spec fn tys(&self, mem: Seq<MemTable>) -> Seq<Ty> {
        self.input.op.tys(mem)
    }

    open spec fn bound(&self, mem: Seq<MemTable>) -> nat {
        self.input.op.bound(mem)
    }

    fn next(&mut self, ctx: &mut ExecContext) -> (r: Result<Step, Error>)
        ensures
            answers(
                r,
                *final(ctx),
                final(self).input.said@,
                old(self).traced(),
                final(self).plan(),
                final(self).input.op.returned(),
                Seq::empty(),
            ),
            (old(self).limit matches Some(l) && old(self).emitted >= l) ==> (r matches Ok(Step::Done)) && *final(ctx)
                == *old(ctx) && final(self).input.op == old(self).input.op,
    {
        self.input.said = Ghost(Said::Nothing);
        let mut fuel: u64 = u64::MAX;
        proof {
            lemma_no_look(self.looked(), ctx.catalog);
        }
        while fuel > 0
            invariant
                self.wf(),
                ctx.wf(),
                ctx.same_data(*old(ctx)),
                looked_on(old(self).looked(), old(ctx).catalog, self.looked(), ctx.catalog),
                ctx.io == old(ctx).io,
                ctx.codec == old(ctx).codec,
                self.input.said@.goes_on(),
                self.input.op.traced() ==> self.input.op.returned().len() + fuel >= u64::MAX,
                old(self).sound(old(ctx).catalog.mem@) && self.traced() ==> self.sound(old(ctx).catalog.mem@),
                old(self).sure(old(ctx).catalog.mem@) ==> {
                    let mem = old(ctx).catalog.mem@;
                    &&& self.sure(mem)
                    &&& self.tys(mem) == old(self).tys(mem)
                    &&& self.bound(mem) <= old(self).bound(mem)
                    &&& self.bound(mem) < fuel
                },
                self.limit == old(self).limit,
                self.offset == old(self).offset,
                self.trace == old(self).trace,
                self.input.op.plan() == old(self).input.op.plan(),
                self.input.op.traced() <==> old(self).input.op.traced(),
                fuel < u64::MAX ==> !(old(self).limit matches Some(l) && old(self).emitted >= l),
                fuel == u64::MAX ==> self.emitted == old(self).emitted && *ctx == *old(ctx) && self.input.op == old(self).input.op,
            decreases fuel,
        {
            if self.is_done() {
                proof {
                    self.lemma_gave(old(ctx).catalog.mem@);
                }
                return Ok(Step::Done);
            }
            let ghost before = self.input.op.returned();
            let batch = match self.input.pull(ctx) {
                Ok(Step::Ready(b)) => b,
                Ok(other) => {
                    proof {
                        self.lemma_gave(old(ctx).catalog.mem@);
                    }
                    return Ok(other);
                },
                Err(e) => {
                    proof {
                        self.lemma_gave(old(ctx).catalog.mem@);
                    }
                    return Err(e);
                },
            };
            proof {
                lemma_run_push(
                    limit_step(self.limit, self.offset as int),
                    (0int, 0int),
                    before,
                    chunk(batch),
                );
            }
            if let Some(b) = self.accept(batch) {
                self.trace = Ghost(grown_trace(self.trace@, chunk(b)));
                proof {
                    self.lemma_gave(old(ctx).catalog.mem@);
                }
                return Ok(Step::Ready(b));
            }
            fuel = fuel - 1;
        }
        proof {
            if old(self).traced() {
                assert(stuck(self.plan(), self.input.op.returned(), Seq::empty(), Code::LimitExceeded));
            }
            self.lemma_gave(old(ctx).catalog.mem@);
        }
        Err(Error::new(Code::LimitExceeded))
    }
}

// --- Values -----------------------------------------------------------------------

/// Returns one given batch, once.
pub struct Values {
    pub batch: Option<Batch>,
    pub trace: Ghost<Trace>,
}

impl Values {
    pub fn new(batch: Batch) -> (v: Values)
        ensures
            v.batch == Some(batch),
            v.trace@ == fresh_trace(Seq::empty()),
    {
        Values { batch: Some(batch), trace: Ghost(fresh_trace(Seq::empty())) }
    }
}

impl Operator for Values {
    open spec fn wf(&self) -> bool {
        self.batch matches Some(b) ==> b.wf()
    }

    open spec fn plan(&self) -> NodeV {
        NodeV::Other
    }

    open spec fn traced(&self) -> bool {
        true
    }

    open spec fn returned(&self) -> Seq<Chunk> {
        self.trace@.out
    }

    open spec fn spent(&self) -> bool {
        self.batch is None
    }

    fn next(&mut self, ctx: &mut ExecContext) -> (r: Result<Step, Error>)
        ensures
            *final(ctx) == *old(ctx),
            final(self).batch is None,
            match old(self).batch {
                Some(b) => r matches Ok(Step::Ready(x)) && x == b,
                None => r matches Ok(Step::Done),
            },
    {
        proof {
            lemma_no_look(self.looked(), ctx.catalog);
        }
        match self.batch.take() {
            Some(b) => {
                self.trace = Ghost(grown_trace(self.trace@, chunk(b)));
                Ok(Step::Ready(b))
            },
            None => Ok(Step::Done),
        }
    }
}

// --- From a plan to operators -------------------------------------------------------

/// What stops a plan from being carried out, if anything. A reference to a working table needs
/// one.
pub open spec fn build_fault(node: Node, has_working: bool) -> Option<Code>
    decreases node,
{
    match node {
        Node::Scan(_) => None,
        Node::MemScan(_) => None,
        Node::Filter { input, pred } => build_fault(*input, has_working),
        Node::Project { input, exprs, schema } => build_fault(*input, has_working),
        Node::Limit { input, limit, offset } => build_fault(*input, has_working),
        Node::Aggregate { input, groups, aggs, having, schema } => match build_fault(*input, has_working) {
            Some(c) => Some(c),
            None => agg::agg_fault(aggs_of(aggs@), 0),
        },
        Node::Sort { input, keys, limit } => build_fault(*input, has_working),
        Node::Join { left, right, kind, left_keys, right_keys, residual, schema } => match build_fault(
            *left,
            has_working,
        ) {
            Some(c) => Some(c),
            None => match build_fault(*right, has_working) {
                Some(c) => Some(c),
                None => if left_keys@.len() != right_keys@.len() {
                    Some(Code::Internal)
                } else {
                    None
                },
            },
        },
        Node::Window { input, windows, schema } => build_fault(*input, has_working),
        Node::SetOp { left, right, op, all, schema } => match build_fault(*left, has_working) {
            Some(c) => Some(c),
            None => build_fault(*right, has_working),
        },
        Node::DistinctOn { input, keys } => build_fault(*input, has_working),
        Node::RecursiveCte { anchor, recursive_term, union_all, schema } => build_fault(*anchor, has_working),
        Node::WorkingTable { schema } => if has_working {
            None
        } else {
            Some(Code::Internal)
        },
        Node::Unnest { input, expr, elem_ty, schema } => build_fault(*input, has_working),
        Node::GenerateSeries { start, stop, step, inclusive, schema } => None,
        Node::Sample { input, spec } => build_fault(*input, has_working),
        Node::AssertMaxOneRow { input, keys } => build_fault(*input, has_working),
    }
}

fn column_types(schema: &[Field]) -> (r: Vec<Ty>)
    ensures
        r@ == schema_types(schema@),
{
    let mut r: Vec<Ty> = Vec::new();
    let mut i: usize = 0;
    while i < schema.len()
        invariant
            i <= schema@.len(),
            r@ == schema_types(schema@).take(i as int),
        decreases schema@.len() - i,
    {
        r.push(schema[i].ty);
        i = i + 1;
        assert(r@ =~= schema_types(schema@).take(i as int));
    }
    assert(r@ =~= schema_types(schema@));
    r
}

/// The working table of a recursion, as a value.
pub open spec fn working_table(working: Option<&Vec<Batch>>) -> Option<Seq<Chunk>> {
    match working {
        Some(w) => Some(chunks_of(w@)),
        None => None,
    }
}

/// An operator that carries out a plan and has not been pulled yet.
pub open spec fn starts(c: Child, plan: NodeV) -> bool {
    &&& c.op.wf()
    &&& c.op.plan() == plan
    &&& c.op.traced()
    &&& c.op.returned().len() == 0
    &&& c.op.looked().len() == 0
    &&& always_supplied(c)
}

/// Whatever the in-memory tables are, what has come from an input is what its plan gives.
#[verifier::opaque]
pub open spec fn always_supplied(c: Child) -> bool {
    forall|mem: Seq<MemTable>| #[trigger] supplied(c, mem)
}

/// Whether a plan can be carried out without a failure, the in-memory tables being `mem`: it reads
/// nothing but in-memory tables and series, and what it computes can be computed of every row.
pub open spec fn sure_plan(node: Node, mem: Seq<MemTable>) -> bool
    decreases node,
{
    match node {
        Node::MemScan(s) => s.table < mem.len(),
        Node::GenerateSeries { step, .. } => step != 0,
        Node::Filter { input, pred } => sure_plan(*input, mem) && always_kept(pred@, sure_types(*input, mem)),
        Node::Project { input, exprs, .. } => sure_plan(*input, mem) && always_valued(
            progs_of(exprs@),
            sure_types(*input, mem),
        ),
        Node::Limit { input, .. } => sure_plan(*input, mem),
        _ => false,
    }
}

/// The types of the columns of such a plan.
pub open spec fn sure_types(node: Node, mem: Seq<MemTable>) -> Seq<Ty>
    decreases node,
{
    match node {
        Node::MemScan(s) => schema_types(mem[s.table as int].schema@),
        Node::GenerateSeries { .. } => seq![Ty::BigInt],
        Node::Filter { input, .. } => sure_types(*input, mem),
        Node::Project { exprs, .. } => meant_types(progs_of(exprs@)),
        Node::Limit { input, .. } => sure_types(*input, mem),
        _ => Seq::empty(),
    }
}

/// An operator carries out without a failure what can be carried out so.
#[verifier::opaque]
pub open spec fn as_sure(c: Child, node: Node) -> bool {
    forall|mem: Seq<MemTable>| #[trigger]
        sure_plan(node, mem) ==> c.op.sure(mem) && c.op.tys(mem) == sure_types(node, mem) && c.op.bound(mem) < u64::MAX
}

/// Turns a plan into operators.
pub fn build(node: &Node) -> (r: Result<Child, Error>)
    ensures
        match r {
            Ok(c) => build_fault(*node, false) is None && starts(c, planned(*node, None)) && as_sure(c, *node),
            Err(e) => build_fault(*node, false) == Some(e.code),
        },
{
    build_ctx(node, None)
}

fn start_filter(c: Child, pred: &Program) -> (r: Child)
    requires
        starts(c, c.op.plan()),
    ensures
        starts(r, NodeV::Filter { input: Box::new(c.op.plan()), pred: pred@ }),
        forall|mem: Seq<MemTable>| #[trigger]
            c.op.sure(mem) && c.op.bound(mem) < u64::MAX && always_kept(pred@, c.op.tys(mem)) ==> r.op.sure(mem)
                && r.op.tys(mem) == c.op.tys(mem) && r.op.bound(mem) == c.op.bound(mem),
{
    let op = Filter::new(c, pred.dup());
    let ghost o = op;
    let r = child(Box::new(op));
    proof {
        reveal(always_supplied);
        assert forall|mem: Seq<MemTable>| #[trigger] supplied(r, mem) by {
            assert(supplied(c, mem));
            o.lemma_gave(mem);
        }
    }
    r
}

fn start_project(c: Child, exprs: &Vec<Program>) -> (r: Child)
    requires
        starts(c, c.op.plan()),
    ensures
        starts(r, NodeV::Project { input: Box::new(c.op.plan()), exprs: progs_of(exprs@) }),
        forall|mem: Seq<MemTable>| #[trigger]
            c.op.sure(mem) && always_valued(progs_of(exprs@), c.op.tys(mem)) ==> r.op.sure(mem) && r.op.tys(mem)
                == meant_types(progs_of(exprs@)) && r.op.bound(mem) == c.op.bound(mem),
{
    let op = Project::new(c, dup_programs(exprs));
    let ghost o = op;
    let r = child(Box::new(op));
    proof {
        reveal(always_supplied);
        assert forall|mem: Seq<MemTable>| #[trigger] supplied(r, mem) by {
            assert(supplied(c, mem));
            o.lemma_gave(mem);
        }
    }
    r
}

fn start_limit(c: Child, limit: Option<u64>, offset: u64) -> (r: Child)
    requires
        starts(c, c.op.plan()),
    ensures
        starts(r, NodeV::Limit { input: Box::new(c.op.plan()), limit, offset }),
        forall|mem: Seq<MemTable>| #[trigger]
            c.op.sure(mem) && c.op.bound(mem) < u64::MAX ==> r.op.sure(mem) && r.op.tys(mem) == c.op.tys(mem)
                && r.op.bound(mem) == c.op.bound(mem),
{
    let op = Limit::new(c, limit, offset);
    let ghost o = op;
    let r = child(Box::new(op));
    proof {
        reveal(always_supplied);
        assert forall|mem: Seq<MemTable>| #[trigger] supplied(r, mem) by {
            assert(supplied(c, mem));
            o.lemma_gave(mem);
        }
    }
    r
}

fn start_distinct(c: Child, keys: &Vec<Program>) -> (r: Child)
    requires
        starts(c, c.op.plan()),
    ensures
        starts(r, NodeV::DistinctOn { input: Box::new(c.op.plan()), keys: progs_of(keys@) }),
{
    let op = DistinctOn::new(c, dup_programs(keys));
    let ghost o = op;
    let r = child(Box::new(op));
    proof {
        reveal(always_supplied);
        assert forall|mem: Seq<MemTable>| #[trigger] supplied(r, mem) by {
            assert(supplied(c, mem));
            o.lemma_gave(mem);
        }
    }
    r
}

fn start_max_one_row(c: Child, keys: &Vec<Program>) -> (r: Child)
    requires
        starts(c, c.op.plan()),
    ensures
        starts(r, NodeV::AssertMaxOneRow { input: Box::new(c.op.plan()), keys: progs_of(keys@) }),
{
    let op = AssertMaxOneRow::new(c, dup_programs(keys));
    let ghost o = op;
    let r = child(Box::new(op));
    proof {
        reveal(always_supplied);
        assert forall|mem: Seq<MemTable>| #[trigger] supplied(r, mem) by {
            assert(supplied(c, mem));
            o.lemma_gave(mem);
        }
    }
    r
}

fn start_unnest(c: Child, expr: &Program, elem_ty: Ty) -> (r: Child)
    requires
        starts(c, c.op.plan()),
    ensures
        starts(r, NodeV::Unnest { input: Box::new(c.op.plan()), expr: expr@, elem_ty }),
{
    let op = unnest::Unnest::new(c, expr.dup(), elem_ty);
    let ghost o = op;
    let r = child(Box::new(op));
    proof {
        reveal(always_supplied);
        assert forall|mem: Seq<MemTable>| #[trigger] supplied(r, mem) by {
            assert(supplied(c, mem));
            o.lemma_gave(mem);
        }
    }
    r
}

fn start_sample(c: Child, spec: &SampleSpec) -> (r: Child)
    requires
        starts(c, c.op.plan()),
    ensures
        starts(r, NodeV::Sample { input: Box::new(c.op.plan()), spec: *spec }),
{
    if spec.is_rows {
        let op = sample::RowSample::new(c, spec);
        let ghost o = op;
        let r = child(Box::new(op));
        proof {
            reveal(always_supplied);
            assert forall|mem: Seq<MemTable>| #[trigger] supplied(r, mem) by {
                assert(supplied(c, mem));
                o.lemma_gave(mem);
            }
        }
        r
    } else {
        let op = sample::Bernoulli::new(c, spec);
        let ghost o = op;
        let r = child(Box::new(op));
        proof {
            reveal(always_supplied);
            assert forall|mem: Seq<MemTable>| #[trigger] supplied(r, mem) by {
                assert(supplied(c, mem));
                o.lemma_gave(mem);
            }
        }
        r
    }
}

fn start_sort(c: Child, keys: &Vec<SortKey>, limit: Option<usize>) -> (r: Result<Child, Error>)
    requires
        starts(c, c.op.plan()),
    ensures
        r matches Ok(op) && starts(op, NodeV::Sort { input: Box::new(c.op.plan()), keys: keys_of(keys@), limit }),
{
    match sort::Sort::new(c, dup_keys(keys), limit) {
        Err(e) => Err(e),
        Ok(op) => {
            let ghost o = op;
            let held = child(Box::new(op));
            proof {
                reveal(always_supplied);
                assert forall|mem: Seq<MemTable>| #[trigger] supplied(held, mem) by {
                    assert(supplied(c, mem));
                    o.lemma_gave(mem);
                }
            }
            Ok(held)
        },
    }
}

fn start_window(c: Child, windows: &Vec<WindowSpec>) -> (r: Result<Child, Error>)
    requires
        starts(c, c.op.plan()),
    ensures
        r matches Ok(op) && starts(op, NodeV::Window { input: Box::new(c.op.plan()), windows: windows_of(windows@) }),
{
    match window::Window::new(c, dup_windows(windows)) {
        Err(e) => Err(e),
        Ok(op) => {
            let ghost o = op;
            let held = child(Box::new(op));
            proof {
                reveal(always_supplied);
                assert forall|mem: Seq<MemTable>| #[trigger] supplied(held, mem) by {
                    assert(supplied(c, mem));
                    o.lemma_gave(mem);
                }
            }
            Ok(held)
        },
    }
}

fn start_aggregate(
    c: Child,
    groups: &Vec<Program>,
    aggs: &Vec<Agg>,
    having: &Option<Program>,
) -> (r: Result<Child, Error>)
    requires
        starts(c, c.op.plan()),
    ensures
        match agg::agg_fault(aggs_of(aggs@), 0) {
            Some(code) => r matches Err(e) && e.code == code,
            None => r matches Ok(op) && starts(
                op,
                NodeV::Aggregate {
                    input: Box::new(c.op.plan()),
                    groups: progs_of(groups@),
                    aggs: aggs_of(aggs@),
                    having: opt_prog(*having),
                },
            ),
        },
{
    match agg::HashAggregate::new(c, dup_programs(groups), dup_aggs(aggs), dup_opt_program(having)) {
        Err(e) => Err(e),
        Ok(op) => {
            let ghost o = op;
            let held = child(Box::new(op));
            proof {
                reveal(always_supplied);
                assert forall|mem: Seq<MemTable>| #[trigger] supplied(held, mem) by {
                    assert(supplied(c, mem));
                    o.lemma_gave(mem);
                }
            }
            Ok(held)
        },
    }
}

fn start_set_op(l: Child, r: Child, op: SetOpKind, all: bool) -> (res: Result<Child, Error>)
    requires
        starts(l, l.op.plan()),
        starts(r, r.op.plan()),
    ensures
        res matches Ok(c) && starts(
            c,
            NodeV::SetOp { left: Box::new(l.op.plan()), right: Box::new(r.op.plan()), op, all },
        ),
{
    match setop::SetOp::new(l, r, op, all) {
        Err(e) => Err(e),
        Ok(op) => {
            let ghost o = op;
            let held = child(Box::new(op));
            proof {
                reveal(always_supplied);
                assert forall|mem: Seq<MemTable>| #[trigger] supplied(held, mem) by {
                    assert(supplied(l, mem));
                    assert(supplied(r, mem));
                    o.lemma_gave(mem);
                }
            }
            Ok(held)
        },
    }
}

fn start_join(
    l: Child,
    r: Child,
    kind: JoinKind,
    left_keys: &Vec<Program>,
    right_keys: &Vec<Program>,
    residual: &Option<Program>,
    left_types: Vec<Ty>,
    right_types: Vec<Ty>,
) -> (res: Result<Child, Error>)
    requires
        starts(l, l.op.plan()),
        starts(r, r.op.plan()),
    ensures
        if left_keys@.len() != right_keys@.len() {
            res matches Err(e) && e.code == Code::Internal
        } else {
            res matches Ok(c) && starts(
                c,
                NodeV::Join {
                    left: Box::new(l.op.plan()),
                    right: Box::new(r.op.plan()),
                    kind,
                    left_keys: progs_of(left_keys@),
                    right_keys: progs_of(right_keys@),
                    residual: opt_prog(*residual),
                    left_types: left_types@,
                    right_types: right_types@,
                },
            )
        },
{
    let lk = dup_programs(left_keys);
    let rk = dup_programs(right_keys);
    proof {
        assert(progs_of(lk@).len() == progs_of(left_keys@).len());
        assert(progs_of(rk@).len() == progs_of(right_keys@).len());
    }
    match join::HashJoin::new(l, r, kind, lk, rk, dup_opt_program(residual), left_types, right_types) {
        Err(e) => Err(e),
        Ok(op) => {
            let ghost o = op;
            let held = child(Box::new(op));
            proof {
                reveal(always_supplied);
                assert forall|mem: Seq<MemTable>| #[trigger] supplied(held, mem) by {
                    assert(supplied(l, mem));
                    assert(supplied(r, mem));
                    o.lemma_gave(mem);
                }
            }
            Ok(held)
        },
    }
}

fn start_recursion(c: Child, term: &Rc<Node>, union_all: bool) -> (r: Child)
    requires
        starts(c, c.op.plan()),
    ensures
        starts(r, NodeV::RecursiveCte { anchor: Box::new(c.op.plan()), recursive_term: **term, union_all }),
{
    let op = recursive::RecursiveCte::new(c, term.clone(), union_all);
    let ghost o = op;
    let r = child(Box::new(op));
    proof {
        reveal(always_supplied);
        assert forall|mem: Seq<MemTable>| #[trigger] supplied(r, mem) by {
            assert(supplied(c, mem));
            o.lemma_gave(mem);
        }
    }
    r
}

fn start_scan(spec: &ScanSpec) -> (r: Child)
    ensures
        starts(r, NodeV::Scan { table: spec.table, columns: spec.columns@, pruners: pruners_of(spec.pruners@) }),
{
    let op = Scan::new(spec.dup());
    let ghost o = op;
    let r = child(Box::new(op));
    proof {
        reveal(always_supplied);
        assert forall|mem: Seq<MemTable>| #[trigger] supplied(r, mem) by {
            o.lemma_gave(mem);
        }
    }
    r
}

fn start_mem_scan(spec: &MemScanSpec) -> (r: Child)
    ensures
        starts(r, NodeV::MemScan { table: spec.table }),
        forall|mem: Seq<MemTable>|
            spec.table < mem.len() ==> #[trigger] r.op.sure(mem) && r.op.tys(mem) == schema_types(
                mem[spec.table as int].schema@,
            ) && r.op.bound(mem) < u64::MAX,
{
    let op = MemScan::new(MemScanSpec { table: spec.table, schema: dup_fields(spec.schema.as_slice()) });
    let ghost o = op;
    let r = child(Box::new(op));
    proof {
        reveal(always_supplied);
        assert forall|mem: Seq<MemTable>| #[trigger] supplied(r, mem) by {
            if o.spec.table < mem.len() {
                assert(flat(o.trace@.out) =~= table_rows(mem[o.spec.table as int].rows@).take(0));
            }
            o.lemma_gave(mem);
        }
    }
    proof {
        assert forall|mem: Seq<MemTable>| spec.table < mem.len() implies #[trigger] r.op.sure(mem) && r.op.tys(mem)
            == schema_types(mem[spec.table as int].schema@) && r.op.bound(mem) < u64::MAX by {
            assert(mem[spec.table as int].rows.len() == mem[spec.table as int].rows@.len());
        }
    }
    r
}

fn start_series(start: i64, stop: i64, step: i64, inclusive: bool) -> (r: Child)
    ensures
        starts(r, NodeV::GenerateSeries { start, stop, step, inclusive }),
        forall|mem: Seq<MemTable>|
            step != 0 ==> #[trigger] r.op.sure(mem) && r.op.tys(mem) == seq![Ty::BigInt] && r.op.bound(mem) < u64::MAX,
{
    let op = range::GenerateSeries::new(start, stop, step, inclusive);
    let ghost o = op;
    let r = child(Box::new(op));
    proof {
        reveal(always_supplied);
        assert forall|mem: Seq<MemTable>| #[trigger] supplied(r, mem) by {
            o.lemma_gave(mem);
        }
    }
    r
}

fn start_working(working: Option<&Vec<Batch>>) -> (r: Result<Child, Error>)
    requires
        working matches Some(w) ==> all_dense(w@),
    ensures
        match working {
            Some(w) => r matches Ok(c) && starts(c, NodeV::Working { table: chunks_of(w@) }),
            None => r matches Err(e) && e.code == Code::Internal,
        },
{
    match working {
        Some(w) => {
            let op = recursive::WorkingTableScan::new(recursive::clone_batches(w));
            let ghost o = op;
            let held = child(Box::new(op));
            proof {
                reveal(always_supplied);
                assert forall|mem: Seq<MemTable>| #[trigger] supplied(held, mem) by {
                    o.lemma_gave(mem);
                }
            }
            Ok(held)
        },
        None => Err(Error::new(Code::Internal)),
    }
}

proof fn lemma_filter_sure(c: Child, r: Child, node: Node)
    requires
        node is Filter,
        as_sure(c, *node->Filter_input),
        forall|mem: Seq<MemTable>| #[trigger]
            c.op.sure(mem) && c.op.bound(mem) < u64::MAX && always_kept(node->Filter_pred@, c.op.tys(mem)) ==> r.op.sure(mem)
                && r.op.tys(mem) == c.op.tys(mem) && r.op.bound(mem) == c.op.bound(mem),
    ensures
        as_sure(r, node),
{
    reveal(as_sure);
    assert forall|mem: Seq<MemTable>| #[trigger] sure_plan(node, mem) implies r.op.sure(mem) && r.op.tys(mem)
        == sure_types(node, mem) && r.op.bound(mem) < u64::MAX by {
        assert(sure_plan(*node->Filter_input, mem));
        assert(c.op.sure(mem));
    }
}

proof fn lemma_project_sure(c: Child, r: Child, node: Node)
    requires
        node is Project,
        as_sure(c, *node->Project_input),
        forall|mem: Seq<MemTable>| #[trigger]
            c.op.sure(mem) && always_valued(progs_of(node->Project_exprs@), c.op.tys(mem)) ==> r.op.sure(mem) && r.op.tys(mem)
                == meant_types(progs_of(node->Project_exprs@)) && r.op.bound(mem) == c.op.bound(mem),
    ensures
        as_sure(r, node),
{
    reveal(as_sure);
    assert forall|mem: Seq<MemTable>| #[trigger] sure_plan(node, mem) implies r.op.sure(mem) && r.op.tys(mem)
        == sure_types(node, mem) && r.op.bound(mem) < u64::MAX by {
        assert(sure_plan(*node->Project_input, mem));
        assert(c.op.sure(mem));
    }
}

proof fn lemma_limit_sure(c: Child, r: Child, node: Node)
    requires
        node is Limit,
        as_sure(c, *node->Limit_input),
        forall|mem: Seq<MemTable>| #[trigger]
            c.op.sure(mem) && c.op.bound(mem) < u64::MAX ==> r.op.sure(mem) && r.op.tys(mem) == c.op.tys(mem)
                && r.op.bound(mem) == c.op.bound(mem),
    ensures
        as_sure(r, node),
{
    reveal(as_sure);
    assert forall|mem: Seq<MemTable>| #[trigger] sure_plan(node, mem) implies r.op.sure(mem) && r.op.tys(mem)
        == sure_types(node, mem) && r.op.bound(mem) < u64::MAX by {
        assert(sure_plan(*node->Limit_input, mem));
        assert(c.op.sure(mem));
    }
}

/// Of no other plans anything is said.
proof fn lemma_not_sure(node: Node)
    ensures
        !(node is MemScan || node is GenerateSeries || node is Filter || node is Project || node is Limit)
            ==> forall|c: Child| #[trigger] as_sure(c, node),
{
    reveal(as_sure);
}

/// Turns a plan into operators. The working table is that of the recursion whose term is
/// being set up; `bind` places references to it only there.
#[verifier::rlimit(100)]
pub fn build_ctx(node: &Node, working: Option<&Vec<Batch>>) -> (r: Result<Child, Error>)
    requires
        working matches Some(w) ==> all_dense(w@),
    ensures
        match r {
            Ok(c) => {
                &&& build_fault(*node, working is Some) is None
                &&& starts(c, planned(*node, working_table(working)))
                &&& as_sure(c, *node)
            },
            Err(e) => build_fault(*node, working is Some) == Some(e.code),
        },
    decreases node,
{
    proof {
        lemma_not_sure(*node);
    }
    match node {
        Node::Scan(spec) => Ok(start_scan(spec)),
        Node::MemScan(spec) => {
            let r = start_mem_scan(spec);
            assert(as_sure(r, *node)) by {
                reveal(as_sure);
                assert forall|mem: Seq<MemTable>| #[trigger] sure_plan(*node, mem) implies r.op.sure(mem) && r.op.tys(mem)
                    == sure_types(*node, mem) && r.op.bound(mem) < u64::MAX by {
                    assert(r.op.sure(mem));
                }
            }
            Ok(r)
        },
        Node::Filter { input, pred } => match build_ctx(input, working) {
            Err(e) => Err(e),
            Ok(c) => {
                let ghost i = c;
                let r = start_filter(c, pred);
                proof {
                    lemma_filter_sure(i, r, *node);
                }
                Ok(r)
            },
        },
        Node::Project { input, exprs, schema: _ } => match build_ctx(input, working) {
            Err(e) => Err(e),
            Ok(c) => {
                let ghost i = c;
                let r = start_project(c, exprs);
                proof {
                    lemma_project_sure(i, r, *node);
                }
                Ok(r)
            },
        },
        Node::Limit { input, limit, offset } => match build_ctx(input, working) {
            Err(e) => Err(e),
            Ok(c) => {
                let ghost i = c;
                let r = start_limit(c, *limit, *offset);
                proof {
                    lemma_limit_sure(i, r, *node);
                }
                Ok(r)
            },
        },
        Node::Aggregate { input, groups, aggs, having, schema: _ } => match build_ctx(input, working) {
            Err(e) => Err(e),
            Ok(c) => start_aggregate(c, groups, aggs, having),
        },
        Node::Sort { input, keys, limit } => match build_ctx(input, working) {
            Err(e) => Err(e),
            Ok(c) => start_sort(c, keys, *limit),
        },
        Node::Join { left, right, kind, left_keys, right_keys, residual, schema: _ } => {
            let lt = column_types(left.schema());
            let rt = column_types(right.schema());
            match build_ctx(left, working) {
                Err(e) => Err(e),
                Ok(l) => match build_ctx(right, working) {
                    Err(e) => Err(e),
                    Ok(r) => start_join(l, r, *kind, left_keys, right_keys, residual, lt, rt),
                },
            }
        },
        Node::Window { input, windows, schema: _ } => match build_ctx(input, working) {
            Err(e) => Err(e),
            Ok(c) => start_window(c, windows),
        },
        Node::SetOp { left, right, op, all, schema: _ } => match build_ctx(left, working) {
            Err(e) => Err(e),
            Ok(l) => match build_ctx(right, working) {
                Err(e) => Err(e),
                Ok(r) => start_set_op(l, r, *op, *all),
            },
        },
        Node::DistinctOn { input, keys } => match build_ctx(input, working) {
            Err(e) => Err(e),
            Ok(c) => Ok(start_distinct(c, keys)),
        },
        Node::RecursiveCte { anchor, recursive_term, union_all, schema: _ } => match build_ctx(anchor, working) {
            Err(e) => Err(e),
            Ok(c) => Ok(start_recursion(c, recursive_term, *union_all)),
        },
        Node::WorkingTable { schema: _ } => start_working(working),
        Node::Unnest { input, expr, elem_ty, schema: _ } => match build_ctx(input, working) {
            Err(e) => Err(e),
            Ok(c) => Ok(start_unnest(c, expr, *elem_ty)),
        },
        Node::GenerateSeries { start, stop, step, inclusive, schema: _ } => {
            let r = start_series(*start, *stop, *step, *inclusive);
            assert(as_sure(r, *node)) by {
                reveal(as_sure);
                assert forall|mem: Seq<MemTable>| #[trigger] sure_plan(*node, mem) implies r.op.sure(mem) && r.op.tys(mem)
                    == sure_types(*node, mem) && r.op.bound(mem) < u64::MAX by {
                    assert(r.op.sure(mem));
                }
            }
            Ok(r)
        },
        Node::Sample { input, spec } => match build_ctx(input, working) {
            Err(e) => Err(e),
            Ok(c) => Ok(start_sample(c, spec)),
        },
        Node::AssertMaxOneRow { input, keys } => match build_ctx(input, working) {
            Err(e) => Err(e),
            Ok(c) => Ok(start_max_one_row(c, keys)),
        },
    }
}

/// The columns of a plan's result.
pub fn result_schema(node: &crate::plan::Node) -> (r: Vec<crate::vector::Field>)
    ensures
        crate::vector::fields_of(r@) == crate::vector::fields_of(node.schema_spec()),
{
    crate::vector::dup_fields(node.schema())
}

} // verus!
