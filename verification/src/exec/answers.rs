//! The answers of plans on one in-memory table.
//!
//! What a plan gives comes in batches. Where it reads a table and passes some of the rows on, or
//! computes new ones of them, the rows given are [`answer`] however they are cut into batches
//! ([`a_table_gives_one_answer`]).

use crate::catalog::{row_fits, table_rows, MemTable};
use crate::exec::batching::{
    filtering_does_not_depend_on_batching, limit_from, limiting_does_not_depend_on_batching, projected,
    projecting_does_not_depend_on_batching, row_flags, typed,
};
use crate::exec::meaning::{begins, gave, lemma_begins};
use crate::exec::{
    always_kept, always_valued, filter_step, flat, limit_step, limit_total, project_step, row_typed, rows_typed, run,
    sure_plan, sure_types, Chunk, Look,
};
use crate::expr::{program_keep, programs_value, progs_of, ProgramV};
use crate::plan::{planned, Node, NodeV};
use crate::vector::{fields_of, kept, lemma_kept_append, Ty, Val};
use vstd::prelude::*;

verus! {

/// Whether a plan reads an in-memory table and passes some of its rows on.
pub open spec fn narrows(node: Node) -> bool
    decreases node,
{
    match node {
        Node::MemScan(_) => true,
        Node::Filter { input, .. } => narrows(*input),
        Node::Limit { input, .. } => narrows(*input),
        _ => false,
    }
}

/// Whether a plan reads an in-memory table, passes some of its rows on, and may compute new ones of
/// these.
pub open spec fn reads_a_table(node: Node) -> bool
    decreases node,
{
    match node {
        Node::Project { input, .. } => narrows(*input),
        Node::Limit { input, .. } => reads_a_table(*input),
        _ => narrows(node),
    }
}

/// The rows that a plan on an in-memory table gives.
pub open spec fn answer(node: Node, mem: Seq<MemTable>) -> Seq<Seq<Val>>
    decreases node,
{
    match node {
        Node::MemScan(s) => table_rows(mem[s.table as int].rows@),
        Node::Filter { input, pred } => {
            let rows = answer(*input, mem);
            kept(rows, row_flags(pred@, sure_types(*input, mem), rows))
        },
        Node::Project { input, exprs, .. } => answer(*input, mem).map_values(
            |row: Seq<Val>| projected(progs_of(exprs@), sure_types(*input, mem), row),
        ),
        Node::Limit { input, limit, offset } => limited_rows(answer(*input, mem), limit, offset as int),
        _ => Seq::empty(),
    }
}

/// The rows that `LIMIT` and `OFFSET` leave.
pub open spec fn limited_rows(rows: Seq<Seq<Val>>, limit: Option<u64>, offset: int) -> Seq<Seq<Val>> {
    let n = rows.len() as int;
    let from = limit_from(offset, n);
    rows.subrange(from, from + limit_total(limit, offset, n))
}

proof fn lemma_chunk_typed(tys: Seq<Ty>, xs: Seq<Chunk>, k: int)
    requires
        rows_typed(tys, flat(xs)),
        0 <= k < xs.len(),
    ensures
        rows_typed(tys, xs[k].rows),
    decreases xs.len(),
{
    let a = flat(xs.drop_last());
    let b = xs.last().rows;
    lemma_part_typed(tys, flat(xs), 0, a.len() as int);
    lemma_part_typed(tys, flat(xs), a.len() as int, flat(xs).len() as int);
    assert(flat(xs).subrange(0, a.len() as int) =~= a);
    assert(flat(xs).subrange(a.len() as int, flat(xs).len() as int) =~= b);
    if k < xs.len() - 1 {
        lemma_chunk_typed(tys, xs.drop_last(), k);
    }
}

proof fn lemma_part_typed(tys: Seq<Ty>, rows: Seq<Seq<Val>>, from: int, to: int)
    requires
        rows_typed(tys, rows),
        0 <= from <= to <= rows.len(),
    ensures
        rows_typed(tys, rows.subrange(from, to)),
{
    let part = rows.subrange(from, to);
    assert forall|r: int| 0 <= r < part.len() implies row_typed(tys, #[trigger] part[r]) by {
        assert(row_typed(tys, rows[from + r]));
    }
}

proof fn lemma_kept_typed(tys: Seq<Ty>, rows: Seq<Seq<Val>>, keep: Seq<bool>)
    requires
        rows_typed(tys, rows),
        rows.len() == keep.len(),
    ensures
        rows_typed(tys, kept(rows, keep)),
        kept(rows, keep).len() <= rows.len(),
    decreases rows.len(),
{
    if rows.len() > 0 {
        lemma_part_typed(tys, rows, 0, rows.len() - 1);
        assert(rows.subrange(0, rows.len() - 1) =~= rows.drop_last());
        lemma_kept_typed(tys, rows.drop_last(), keep.drop_last());
        assert(row_typed(tys, rows[rows.len() - 1]));
    }
}

proof fn lemma_filter_types(pred: ProgramV, tys: Seq<Ty>, xs: Seq<Chunk>)
    requires
        typed(xs, tys),
    ensures
        typed(run(filter_step(pred), (), xs).1, tys),
    decreases xs.len(),
{
    if xs.len() > 0 {
        let front = xs.drop_last();
        assert forall|k: int| 0 <= k < front.len() implies (#[trigger] front[k]).types == tys by {
            assert(front[k] == xs[k]);
        }
        lemma_filter_types(pred, tys, front);
        assert(xs[xs.len() - 1].types == tys);
    }
}

proof fn lemma_limit_types(limit: Option<u64>, offset: int, tys: Seq<Ty>, xs: Seq<Chunk>)
    requires
        typed(xs, tys),
    ensures
        typed(run(limit_step(limit, offset), (0int, 0int), xs).1, tys),
    decreases xs.len(),
{
    if xs.len() > 0 {
        let front = xs.drop_last();
        assert forall|k: int| 0 <= k < front.len() implies (#[trigger] front[k]).types == tys by {
            assert(front[k] == xs[k]);
        }
        lemma_limit_types(limit, offset, tys, front);
        assert(xs[xs.len() - 1].types == tys);
    }
}

/// What came into a filter.
proof fn lemma_into_filter(input: NodeV, pred: ProgramV, mem: Seq<MemTable>, looked: Seq<Look>, out: Seq<Chunk>, done: bool) -> (ins: Seq<
    Chunk,
>)
    requires
        gave(NodeV::Filter { input: Box::new(input), pred }, mem, looked, out, done),
    ensures
        gave(input, mem, looked, ins, done),
        run(filter_step(pred), (), ins).1 == out,
{
    reveal_with_fuel(gave, 1);
    choose|ins: Seq<Chunk>| gave(input, mem, looked, ins, done) && (#[trigger] run(filter_step(pred), (), ins)).1 == out
}

/// What came into a projection.
proof fn lemma_into_project(input: NodeV, exprs: Seq<ProgramV>, mem: Seq<MemTable>, looked: Seq<Look>, out: Seq<Chunk>, done: bool) -> (ins:
    Seq<Chunk>)
    requires
        gave(NodeV::Project { input: Box::new(input), exprs }, mem, looked, out, done),
    ensures
        gave(input, mem, looked, ins, done),
        run(project_step(exprs), (), ins).1 == out,
{
    reveal_with_fuel(gave, 1);
    choose|ins: Seq<Chunk>| gave(input, mem, looked, ins, done) && (#[trigger] run(project_step(exprs), (), ins)).1 == out
}

/// What came into a limit, and whether it was all.
proof fn lemma_into_limit(
    input: NodeV,
    limit: Option<u64>,
    offset: u64,
    mem: Seq<MemTable>,
    looked: Seq<Look>,
    out: Seq<Chunk>,
    done: bool,
) -> (r: (Seq<Chunk>, bool))
    requires
        gave(NodeV::Limit { input: Box::new(input), limit, offset }, mem, looked, out, done),
    ensures
        gave(input, mem, looked, r.0, r.1),
        run(limit_step(limit, offset as int), (0int, 0int), r.0).1 == out,
        done && !r.1 ==> (limit matches Some(l) && run(limit_step(limit, offset as int), (0int, 0int), r.0).0.1 >= l),
{
    reveal_with_fuel(gave, 1);
    let ins = choose|ins: Seq<Chunk>|
        {
            let (s, o) = #[trigger] run(limit_step(limit, offset as int), (0int, 0int), ins);
            &&& o == out
            &&& gave(input, mem, looked, ins, true) || gave(input, mem, looked, ins, false) && (done ==> (limit matches Some(l) && s.1 >= l))
        };
    if gave(input, mem, looked, ins, true) {
        (ins, true)
    } else {
        (ins, false)
    }
}

/// The first rows kept are kept of the first rows.
proof fn lemma_flags_begin(pred: ProgramV, tys: Seq<Ty>, rows: Seq<Seq<Val>>, all: Seq<Seq<Val>>, done: bool)
    requires
        begins(rows, all, done),
    ensures
        begins(kept(rows, row_flags(pred, tys, rows)), kept(all, row_flags(pred, tys, all)), done),
{
    let rest = all.skip(rows.len() as int);
    let f = row_flags(pred, tys, rows);
    let g = row_flags(pred, tys, rest);
    assert(all =~= rows + rest);
    assert(row_flags(pred, tys, all) =~= f + g);
    lemma_kept_append(rows, rest, f, g);
    lemma_begins(kept(rows, f), kept(rest, g), false);
}

/// The first rows within a limit are those of the first rows.
proof fn lemma_limit_begins(rows: Seq<Seq<Val>>, all: Seq<Seq<Val>>, limit: Option<u64>, offset: int, whole: bool, done: bool)
    requires
        begins(rows, all, whole),
        0 <= offset,
        done && !whole ==> (limit matches Some(l) && limit_total(limit, offset, rows.len() as int) >= l),
    ensures
        begins(limited_rows(rows, limit, offset), limited_rows(all, limit, offset), done),
{
    let a = limited_rows(rows, limit, offset);
    let b = limited_rows(all, limit, offset);
    assert(a.len() <= b.len());
    assert(b.take(a.len() as int) =~= a) by {
        assert forall|i: int| 0 <= i < a.len() implies b[i] == a[i] by {
            let from = limit_from(offset, rows.len() as int);
            assert(rows[from + i] == all.take(rows.len() as int)[from + i]);
        }
    }
    if done {
        assert(a.len() == b.len());
        assert(a =~= b);
    }
}

/// What a plan that narrows a table has given are the first rows of its answer.
proof fn lemma_narrowed(
    node: Node,
    working: Option<Seq<Chunk>>,
    mem: Seq<MemTable>,
    looked: Seq<Look>,
    out: Seq<Chunk>,
    done: bool,
)
    requires
        narrows(node),
        sure_plan(node, mem),
        forall|i: int| 0 <= i < mem.len() ==> (#[trigger] mem[i]).wf(),
        gave(planned(node, working), mem, looked, out, done),
    ensures
        typed(out, sure_types(node, mem)),
        rows_typed(sure_types(node, mem), answer(node, mem)),
        begins(flat(out), answer(node, mem), done),
        answer(node, mem).len() <= u64::MAX,
    decreases node,
{
    let tys = sure_types(node, mem);
    match node {
        Node::MemScan(s) => {
            reveal_with_fuel(gave, 1);
            let t = mem[s.table as int];
            let rows = table_rows(t.rows@);
            assert(t.rows.len() == t.rows@.len());
            assert(t.wf());
            assert forall|r: int| 0 <= r < rows.len() implies row_typed(tys, #[trigger] rows[r]) by {
                let fields = fields_of(t.schema@);
                assert(row_fits(rows[r], fields));
                assert forall|c: int| 0 <= c < tys.len() implies (#[trigger] rows[r][c]).fits(tys[c].phys()) by {
                    assert(fields[c].ty == tys[c]);
                }
            }
        },
        Node::Filter { input, pred } => {
            let ins = lemma_into_filter(planned(*input, working), pred@, mem, looked, out, done);
            lemma_narrowed(*input, working, mem, looked, ins, done);
            let all = answer(*input, mem);
            let got = flat(ins);
            lemma_part_typed(tys, all, 0, got.len() as int);
            assert(all.subrange(0, got.len() as int) =~= got);
            assert forall|k: int| 0 <= k < ins.len() implies program_keep(
                pred@,
                tys,
                (#[trigger] ins[k]).rows,
            ) is Ok by {
                lemma_chunk_typed(tys, ins, k);
                assert(always_kept(pred@, tys));
            }
            filtering_does_not_depend_on_batching(pred@, tys, ins);
            lemma_filter_types(pred@, tys, ins);
            lemma_flags_begin(pred@, tys, got, all, done);
            lemma_kept_typed(tys, all, row_flags(pred@, tys, all));
        },
        Node::Limit { input, limit, offset } => {
            let (ins, whole) = lemma_into_limit(planned(*input, working), limit, offset, mem, looked, out, done);
            lemma_narrowed(*input, working, mem, looked, ins, whole);
            let all = answer(*input, mem);
            limiting_does_not_depend_on_batching(limit, offset as int, ins);
            lemma_limit_types(limit, offset as int, tys, ins);
            lemma_limit_begins(flat(ins), all, limit, offset as int, whole, done);
            let n = all.len() as int;
            let from = limit_from(offset as int, n);
            lemma_part_typed(tys, all, from, from + limit_total(limit, offset as int, n));
        },
        _ => {},
    }
}

/// What a plan on a table has given are the first rows of its answer.
proof fn lemma_answered(node: Node, mem: Seq<MemTable>, looked: Seq<Look>, out: Seq<Chunk>, done: bool)
    requires
        reads_a_table(node),
        sure_plan(node, mem),
        forall|i: int| 0 <= i < mem.len() ==> (#[trigger] mem[i]).wf(),
        gave(planned(node, None), mem, looked, out, done),
    ensures
        begins(flat(out), answer(node, mem), done),
        answer(node, mem).len() <= u64::MAX,
    decreases node,
{
    match node {
        Node::Project { input, exprs, .. } => {
            let progs = progs_of(exprs@);
            let tys = sure_types(*input, mem);
            let ins = lemma_into_project(planned(*input, None), progs, mem, looked, out, done);
            lemma_narrowed(*input, None, mem, looked, ins, done);
            let all = answer(*input, mem);
            let got = flat(ins);
            lemma_part_typed(tys, all, 0, got.len() as int);
            assert(all.subrange(0, got.len() as int) =~= got);
            assert forall|k: int| 0 <= k < ins.len() implies programs_value(
                progs,
                tys,
                (#[trigger] ins[k]).rows,
                progs.len() as int,
            ) is Ok by {
                lemma_chunk_typed(tys, ins, k);
                assert(always_valued(progs, tys));
            }
            projecting_does_not_depend_on_batching(progs, tys, ins);
            let f = |row: Seq<Val>| projected(progs, tys, row);
            assert forall|i: int| 0 <= i < got.len() implies got[i] == all[i] by {
                assert(got[i] == all.take(got.len() as int)[i]);
            }
            assert(all.map_values(f).take(got.len() as int) =~= got.map_values(f));
        },
        Node::Limit { input, limit, offset } => {
            let (ins, whole) = lemma_into_limit(planned(*input, None), limit, offset, mem, looked, out, done);
            lemma_answered(*input, mem, looked, ins, whole);
            limiting_does_not_depend_on_batching(limit, offset as int, ins);
            lemma_limit_begins(flat(ins), answer(*input, mem), limit, offset as int, whole, done);
        },
        _ => {
            lemma_narrowed(node, None, mem, looked, out, done);
        },
    }
}

/// A plan that reads an in-memory table, passes some of its rows on and may compute new ones of
/// these gives one answer, however the rows come in batches.
pub proof fn a_table_gives_one_answer(node: Node, mem: Seq<MemTable>, looked: Seq<Look>, out: Seq<Chunk>)
    requires
        reads_a_table(node),
        sure_plan(node, mem),
        forall|i: int| 0 <= i < mem.len() ==> (#[trigger] mem[i]).wf(),
        gave(planned(node, None), mem, looked, out, true),
    ensures
        flat(out) == answer(node, mem),
{
    lemma_answered(node, mem, looked, out, true);
}

} // verus!
