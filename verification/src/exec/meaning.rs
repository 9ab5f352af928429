//! What plans give.
//!
//! [`gave`] follows a plan from the in-memory tables, and from the looks at the splits of tables in
//! files, up to the batches that come out of it, each node by the rule of its operator. It does not
//! mention operators, and interruptions leave no trace in it but looks that found something missing.

use crate::catalog::{table_rows, MemTable};
use crate::error::Code;
use crate::exec::agg::{agg_stuck, grouped_rows, grouped_types, having_rows, input_of};
use crate::exec::batching::typed;
use crate::exec::join::{join_shaped, join_stuck};
use crate::exec::joined::{all_keyed, has_null_key, joined, side_of, JoinV};
use crate::exec::looks::within;
use crate::exec::range::{goes_on, series_at, series_rows};
use crate::exec::recursive::{first_keys, recursion_stuck, recursive_step, Seen, MAX_RECURSIVE_ITERATIONS};
use crate::exec::sample::{drawn_rows, lucky_step, probability, rng_start, sample_stuck};
use crate::exec::setop::{numbered, right_index, set_step, set_stuck, stock, total_tally};
use crate::exec::sort::{keys_fit, sort_keys_value, sort_stuck, sort_types, sorted_rows};
use crate::exec::unnest::{unnest_shaped, unnest_stuck, unnested_rows};
use crate::exec::window::{first_types, widened, window_stuck, window_types, windows_done};
use crate::exec::{
    at_most_one_step, build_fault, distinct_step, distinct_stuck, filter_step, flat, found, in_order, limit_step,
    max_one_stuck, portions, project_step, run, scan_gave, Child, Chunk, Finding, Look,
};
use crate::expr::{program_keep, program_value, programs_value, ColV};
use crate::plan::{planned, pruners_of, schema_types, Node, NodeV, ScanSpec, SetOpKind, WindowV};
use crate::vector::{Ty, Val};
use vstd::prelude::*;

verus! {

/// The first rows of others, or all of them.
pub open spec fn begins(rows: Seq<Seq<Val>>, all: Seq<Seq<Val>>, done: bool) -> bool {
    &&& rows.len() <= all.len()
    &&& all.take(rows.len() as int) == rows
    &&& done ==> rows == all
}

/// The window columns are those of the rows of batches.
pub open spec fn windows_computed(ws: Seq<WindowV>, xs: Seq<Chunk>, result: Seq<ColV>) -> bool {
    flat(xs).len() > 0 ==> result.len() == ws.len() && windows_done(ws, first_types(xs)->0, flat(xs), result)
}

/// What a set operation returns of the batches of its two sides. `counts` are the counts of the
/// right side's keys.
pub open spec fn set_gave(
    op: SetOpKind,
    all: bool,
    ls: Seq<Chunk>,
    rs: Seq<Chunk>,
    counts: Seq<u32>,
    out: Seq<Chunk>,
) -> bool {
    if op is Union {
        counts.len() == 0 && run(set_step(op, all, Seq::empty()), (counts, Seq::empty()), ls + rs).1 == out
    } else {
        &&& numbered(right_index(rs), counts)
        &&& forall|key: Seq<u8>| #[trigger] stock(right_index(rs), counts, key) == total_tally(rs, key)
        &&& run(set_step(op, all, right_index(rs)), (counts, Seq::empty()), ls).1 == out
    }
}

/// A round of a recursion that is over: its number, the keys of the rows returned so far, the
/// batches that were new in it, and all batches returned.
pub struct Round {
    pub n: nat,
    pub seen: Seen,
    pub work: Seq<Chunk>,
    pub out: Seq<Chunk>,
}

impl Round {
    /// Nothing new came: the recursion is over.
    pub open spec fn is_last(self) -> bool {
        self.work.len() == 0
    }
}

/// The round in which the anchor's batches are taken in.
pub open spec fn first_round(union_all: bool, ins: Seq<Chunk>) -> Round {
    let seen: Seen = if union_all {
        None
    } else {
        Some(Seq::empty())
    };
    let (s, out) = run(recursive_step(), (seen, 0int), ins);
    Round { n: 0, seen: s.0, work: out, out }
}

/// The round after one, in which the recursive term's batches are taken in.
pub open spec fn next_round(r: Round, ins: Seq<Chunk>) -> Round {
    let (s, out) = run(recursive_step(), (r.seen, 0int), ins);
    Round { n: r.n + 1, seen: s.0, work: out, out: r.out + out }
}

/// How many recursions are nested in a plan.
pub open spec fn nesting(plan: NodeV) -> nat
    decreases plan,
{
    match plan {
        NodeV::Filter { input, .. } => nesting(*input),
        NodeV::Project { input, .. } => nesting(*input),
        NodeV::Limit { input, .. } => nesting(*input),
        NodeV::Aggregate { input, .. } => nesting(*input),
        NodeV::Sort { input, .. } => nesting(*input),
        NodeV::Join { left, right, .. } => more(nesting(*left), nesting(*right)),
        NodeV::Window { input, .. } => nesting(*input),
        NodeV::SetOp { left, right, .. } => more(nesting(*left), nesting(*right)),
        NodeV::DistinctOn { input, .. } => nesting(*input),
        NodeV::RecursiveCte { anchor, recursive_term, .. } => 1 + more(nesting(*anchor), nesting_of(recursive_term)),
        NodeV::Unnest { input, .. } => nesting(*input),
        NodeV::Sample { input, .. } => nesting(*input),
        NodeV::AssertMaxOneRow { input, .. } => nesting(*input),
        _ => 0,
    }
}

/// How many recursions are nested in what a node stands for.
pub open spec fn nesting_of(node: Node) -> nat
    decreases node,
{
    match node {
        Node::Filter { input, .. } => nesting_of(*input),
        Node::Project { input, .. } => nesting_of(*input),
        Node::Limit { input, .. } => nesting_of(*input),
        Node::Aggregate { input, .. } => nesting_of(*input),
        Node::Sort { input, .. } => nesting_of(*input),
        Node::Join { left, right, .. } => more(nesting_of(*left), nesting_of(*right)),
        Node::Window { input, .. } => nesting_of(*input),
        Node::SetOp { left, right, .. } => more(nesting_of(*left), nesting_of(*right)),
        Node::DistinctOn { input, .. } => nesting_of(*input),
        Node::RecursiveCte { anchor, recursive_term, .. } => 1 + more(nesting_of(*anchor), nesting_of(*recursive_term)),
        Node::Unnest { input, .. } => nesting_of(*input),
        Node::Sample { input, .. } => nesting_of(*input),
        Node::AssertMaxOneRow { input, .. } => nesting_of(*input),
        _ => 0,
    }
}

/// The larger of two numbers.
pub open spec fn more(a: nat, b: nat) -> nat {
    if a < b {
        b
    } else {
        a
    }
}

proof fn lemma_nesting(node: Node, working: Option<Seq<Chunk>>)
    ensures
        nesting(planned(node, working)) == nesting_of(node),
    decreases node,
{
    match node {
        Node::Filter { input, .. } => lemma_nesting(*input, working),
        Node::Project { input, .. } => lemma_nesting(*input, working),
        Node::Limit { input, .. } => lemma_nesting(*input, working),
        Node::Aggregate { input, .. } => lemma_nesting(*input, working),
        Node::Sort { input, .. } => lemma_nesting(*input, working),
        Node::Join { left, right, .. } => {
            lemma_nesting(*left, working);
            lemma_nesting(*right, working);
        },
        Node::Window { input, .. } => lemma_nesting(*input, working),
        Node::SetOp { left, right, .. } => {
            lemma_nesting(*left, working);
            lemma_nesting(*right, working);
        },
        Node::DistinctOn { input, .. } => lemma_nesting(*input, working),
        Node::RecursiveCte { anchor, .. } => lemma_nesting(*anchor, working),
        Node::Unnest { input, .. } => lemma_nesting(*input, working),
        Node::Sample { input, .. } => lemma_nesting(*input, working),
        Node::AssertMaxOneRow { input, .. } => lemma_nesting(*input, working),
        _ => {},
    }
}

/// What is planned for a node has as many recursions nested in it.
pub proof fn lemma_nesting_of(node: Node)
    ensures
        forall|w: Option<Seq<Chunk>>| nesting(#[trigger] planned(node, w)) == nesting_of(node),
{
    assert forall|w: Option<Seq<Chunk>>| nesting(#[trigger] planned(node, w)) == nesting_of(node) by {
        lemma_nesting(node, w);
    }
}

/// A round that a recursion comes to: the first takes in all that the anchor gives, each later one
/// all that the recursive term gives on the rows that were new in the one before. The looks of each are
/// among those taken.
#[verifier::opaque]
pub open spec fn reached(anchor: NodeV, term: Node, union_all: bool, mem: Seq<MemTable>, looked: Seq<Look>, r: Round) -> bool
    decreases 1 + more(nesting(anchor), nesting_of(term)), anchor, r.n,
{
    proof {
        lemma_nesting_of(term);
    }
    if r.n == 0 {
        exists|ins: Seq<Chunk>, l: Seq<Look>|
            {
                &&& r == #[trigger] first_round(union_all, ins)
                &&& #[trigger] within(l, looked) && gave(anchor, mem, l, ins, true)
            }
    } else {
        exists|q: Round, ins: Seq<Chunk>, l: Seq<Look>|
            {
                &&& r == #[trigger] next_round(q, ins)
                &&& !q.is_last()
                &&& q.n < r.n && reached(anchor, term, union_all, mem, looked, q)
                &&& #[trigger] within(l, looked) && gave(planned(term, Some(q.work)), mem, l, ins, true)
            }
    }
}

/// Whether what a node computes of a batch's rows can be computed.
pub open spec fn takes(plan: NodeV, c: Chunk) -> bool {
    match plan {
        NodeV::Filter { pred, .. } => program_keep(pred, c.types, c.rows) is Ok,
        NodeV::Project { exprs, .. } => programs_value(exprs, c.types, c.rows, exprs.len() as int) is Ok,
        NodeV::DistinctOn { keys, .. } => programs_value(keys, c.types, c.rows, keys.len() as int) is Ok,
        NodeV::AssertMaxOneRow { keys, .. } => programs_value(keys, c.types, c.rows, keys.len() as int) is Ok,
        NodeV::Sort { keys, .. } => sort_keys_value(keys, c.types, c.rows, keys.len() as int) is Ok,
        NodeV::Unnest { expr, .. } => program_value(expr, c.types, c.rows) matches Ok(v) && v.ty == Ty::Json,
        NodeV::Aggregate { groups, aggs, .. } => c.rows.len() > 0 ==> input_of(groups, aggs, c.types, c.rows) is Ok,
        _ => true,
    }
}

/// What a node computes of the rows of batches can be computed.
pub open spec fn all_taken(plan: NodeV, xs: Seq<Chunk>) -> bool {
    forall|k: int| 0 <= k < xs.len() ==> takes(plan, #[trigger] xs[k])
}

/// The batches that a plan has given so far, or, with `done`, all of them, the in-memory tables
/// being `mem`, and `looked` the looks taken at the splits of tables in files. Such a table gives the
/// rows of its splits, as they were found by the looks. Of two inputs, each has its own looks among
/// those taken.
#[verifier::opaque]
pub open spec fn gave(plan: NodeV, mem: Seq<MemTable>, looked: Seq<Look>, out: Seq<Chunk>, done: bool) -> bool
    decreases nesting(plan), plan, 0nat,
{
    proof {
        if plan is RecursiveCte {
            lemma_nesting_of(plan->RecursiveCte_recursive_term);
        }
    }
    match plan {
        NodeV::Scan { table, columns, pruners } => exists|spec: ScanSpec|
            {
                &&& #[trigger] scan_gave(spec, looked, out, done)
                &&& spec.table == table
                &&& spec.columns@ == columns
                &&& pruners_of(spec.pruners@) == pruners
            },
        NodeV::MemScan { table } => if table < mem.len() {
            &&& typed(out, schema_types(mem[table as int].schema@))
            &&& begins(flat(out), table_rows(mem[table as int].rows@), done)
        } else {
            out.len() == 0 && !done
        },
        NodeV::Filter { input, pred } => exists|ins: Seq<Chunk>|
            gave(*input, mem, looked, ins, done) && all_taken(plan, ins) && (#[trigger] run(filter_step(pred), (), ins)).1 == out,
        NodeV::Project { input, exprs } => exists|ins: Seq<Chunk>|
            gave(*input, mem, looked, ins, done) && all_taken(plan, ins) && (#[trigger] run(project_step(exprs), (), ins)).1 == out,
        NodeV::Limit { input, limit, offset } => exists|ins: Seq<Chunk>|
            {
                let (s, o) = #[trigger] run(limit_step(limit, offset as int), (0int, 0int), ins);
                &&& o == out
                &&& gave(*input, mem, looked, ins, true) || gave(*input, mem, looked, ins, false) && (done ==> (limit matches Some(l)
                    && s.1 >= l))
            },
        NodeV::Aggregate { input, groups, aggs, having } => {
            ||| !done && out.len() == 0
            ||| portions(out, grouped_types(groups, aggs)) && exists|ins: Seq<Chunk>|
                gave(*input, mem, looked, ins, true) && all_taken(plan, ins) && begins(
                    flat(out),
                    having_rows(having, grouped_types(groups, aggs), #[trigger] grouped_rows(groups, aggs, ins)),
                    done,
                )
        },
        NodeV::Sort { input, keys, limit } => {
            ||| (!done || limit == Some(0usize)) && out.len() == 0
            ||| exists|ins: Seq<Chunk>|
                {
                    &&& gave(*input, mem, looked, ins, true) && all_taken(plan, ins) && keys_fit(keys, ins)
                    &&& portions(out, sort_types(ins))
                    &&& begins(flat(out), #[trigger] sorted_rows(keys, limit, ins), done)
                }
        },
        NodeV::Join { left, right, kind, left_keys, right_keys, residual, left_types, right_types } => {
            let q = JoinV { kind, left_keys, right_keys, residual, left_types, right_types };
            ||| !done && out.len() == 0
            ||| exists|ls: Seq<Chunk>, rs: Seq<Chunk>, l: Seq<Look>, r: Seq<Look>|
                {
                    &&& #[trigger] within(l, looked) && #[trigger] within(r, looked)
                    &&& gave(*right, mem, r, rs, true)
                    &&& gave(*left, mem, l, ls, true) || gave(*left, mem, l, ls, false) && (done ==> kind is AntiNullAware
                        && has_null_key(side_of(q, rs)))
                    &&& all_keyed(left_keys, ls) && all_keyed(right_keys, rs)
                    &&& join_shaped(q, ls, out)
                    &&& begins(flat(out), #[trigger] joined(q, side_of(q, rs), ls), done)
                }
        },
        NodeV::Window { input, windows } => {
            ||| !done && out.len() == 0
            ||| exists|ins: Seq<Chunk>, result: Seq<ColV>|
                {
                    &&& gave(*input, mem, looked, ins, true) && #[trigger] windows_computed(windows, ins, result)
                    &&& portions(out, window_types(windows, ins))
                    &&& begins(flat(out), widened(flat(ins), result), done)
                }
        },
        NodeV::SetOp { left, right, op, all } => {
            ||| !done && out.len() == 0
            ||| exists|ls: Seq<Chunk>, rs: Seq<Chunk>, counts: Seq<u32>, l: Seq<Look>, r: Seq<Look>|
                {
                    &&& #[trigger] set_gave(op, all, ls, rs, counts, out)
                    &&& #[trigger] within(l, looked) && #[trigger] within(r, looked)
                    &&& gave(*left, mem, l, ls, true) || !done && !(op is Union && rs.len() > 0) && gave(
                        *left,
                        mem,
                        l,
                        ls,
                        false,
                    )
                    &&& gave(*right, mem, r, rs, true) || !done && op is Union && gave(*right, mem, r, rs, false)
                }
        },
        NodeV::DistinctOn { input, keys } => exists|ins: Seq<Chunk>|
            gave(*input, mem, looked, ins, done) && all_taken(plan, ins) && (#[trigger] run(
                distinct_step(keys),
                Seq::empty(),
                ins,
            )).1 == out,
        NodeV::RecursiveCte { anchor, recursive_term, union_all } => if done {
            exists|r: Round| #[trigger] r.is_last() && r.out == out && reached(*anchor, recursive_term, union_all, mem, looked, r)
        } else {
            ||| exists|ins: Seq<Chunk>, l: Seq<Look>|
                {
                    &&& #[trigger] within(l, looked)
                    &&& gave(*anchor, mem, l, ins, true) || gave(*anchor, mem, l, ins, false)
                    &&& (#[trigger] first_round(union_all, ins)).out == out
                }
            ||| exists|r: Round, ins: Seq<Chunk>, l: Seq<Look>|
                {
                    let term = planned(recursive_term, Some(r.work));
                    &&& !r.is_last()
                    &&& reached(*anchor, recursive_term, union_all, mem, looked, r)
                    &&& #[trigger] within(l, looked)
                    &&& gave(term, mem, l, ins, true) || gave(term, mem, l, ins, false)
                    &&& (#[trigger] next_round(r, ins)).out == out
                }
        },
        NodeV::Working { table } => {
            &&& out.len() <= table.len()
            &&& out == table.take(out.len() as int)
            &&& done ==> out.len() == table.len()
        },
        NodeV::Unnest { input, expr, elem_ty } => exists|ins: Seq<Chunk>|
            {
                &&& gave(*input, mem, looked, ins, true) || !done && gave(*input, mem, looked, ins, false)
                &&& all_taken(plan, ins)
                &&& unnest_shaped(elem_ty, ins, out)
                &&& begins(flat(out), #[trigger] unnested_rows(expr, elem_ty, ins), done)
            },
        NodeV::GenerateSeries { start, stop, step, inclusive } => {
            let n = flat(out).len();
            let a = start as int;
            let d = step as int;
            &&& portions(out, seq![Ty::BigInt])
            &&& flat(out) == series_rows(a, d, n)
            &&& forall|i: int| 0 <= i < n ==> goes_on(#[trigger] series_at(a, d, i), stop as int, d, inclusive)
            &&& done ==> !goes_on(series_at(a, d, n as int), stop as int, d, inclusive)
        },
        NodeV::Sample { input, spec } => if spec.is_rows {
            ||| !done && out.len() == 0
            ||| exists|ins: Seq<Chunk>|
                {
                    &&& gave(*input, mem, looked, ins, true) && portions(out, first_types(ins)->0)
                    &&& begins(flat(out), #[trigger] drawn_rows(spec, ins), done)
                }
        } else {
            exists|ins: Seq<Chunk>|
                gave(*input, mem, looked, ins, done) && (#[trigger] run(
                    lucky_step(probability(spec.amount)),
                    rng_start(spec.seed),
                    ins,
                )).1 == out
        },
        NodeV::AssertMaxOneRow { input, keys } => exists|ins: Seq<Chunk>|
            {
                let (seen, o) = #[trigger] run(at_most_one_step(keys), Seq::empty(), ins);
                &&& gave(*input, mem, looked, ins, done)
                &&& all_taken(plan, ins)
                &&& seen.len() == flat(ins).len()
                &&& o == out
            },
        NodeV::Other => true,
    }
}

pub(crate) proof fn lemma_taken_push(plan: NodeV, xs: Seq<Chunk>, c: Chunk)
    requires
        all_taken(plan, xs),
        takes(plan, c),
    ensures
        all_taken(plan, xs.push(c)),
{
    assert forall|k: int| 0 <= k < xs.push(c).len() implies takes(plan, #[trigger] xs.push(c)[k]) by {
        if k < xs.len() {
            assert(takes(plan, xs[k]));
        }
    }
}

// --- Why plans stop --------------------------------------------------------------------

/// Why a pull gives neither a batch nor the end.
pub enum Why {
    /// Bytes have to be fetched.
    Io,
    /// Blocks have to be decompressed.
    Codec,
    Failed(Code),
}

/// Why a node cannot go on, given the batches that have come from its input, or from its left and
/// its right one. (After as many batches as can be counted it gives up.)
pub open spec fn stuck(plan: NodeV, ls: Seq<Chunk>, rs: Seq<Chunk>, code: Code) -> bool {
    ||| code == Code::LimitExceeded && ls.len() + rs.len() + 0x1_0000_0000 >= u64::MAX
    ||| match plan {
        NodeV::Filter { pred, .. } => ls.len() > 0 && program_keep(pred, ls.last().types, ls.last().rows) == Err::<
            Seq<bool>,
            Code,
        >(code),
        NodeV::Project { exprs, .. } => ls.len() > 0 && programs_value(
            exprs,
            ls.last().types,
            ls.last().rows,
            exprs.len() as int,
        ) == Err::<Seq<ColV>, Code>(code),
        NodeV::DistinctOn { keys, .. } => distinct_stuck(keys, ls, code),
        NodeV::AssertMaxOneRow { keys, .. } => max_one_stuck(keys, ls, code),
        NodeV::Sort { keys, limit, .. } => sort_stuck(keys, limit, ls, code),
        NodeV::Aggregate { groups, aggs, having, .. } => agg_stuck(groups, aggs, having, ls, code),
        NodeV::Window { windows, .. } => window_stuck(windows, ls, code),
        NodeV::Unnest { expr, elem_ty, .. } => unnest_stuck(expr, elem_ty, ls, code),
        NodeV::Sample { spec, .. } => spec.is_rows && sample_stuck(ls, code),
        NodeV::SetOp { op, all, .. } => set_stuck(op, all, ls, rs, code),
        NodeV::Join { kind, left_keys, right_keys, residual, left_types, right_types, .. } => join_stuck(
            JoinV { kind, left_keys, right_keys, residual, left_types, right_types },
            ls,
            rs,
            code,
        ),
        _ => false,
    }
}

/// A node with one input cannot go on, given what the plan of the input gives.
pub open spec fn halted(plan: NodeV, input: NodeV, mem: Seq<MemTable>, looked: Seq<Look>, why: Why) -> bool {
    why matches Why::Failed(code) && exists|ins: Seq<Chunk>, done: bool| #[trigger]
        gave(input, mem, looked, ins, done) && stuck(plan, ins, Seq::empty(), code)
}

/// A node with two inputs cannot go on, given what the plans of the inputs give.
pub open spec fn both_halted(plan: NodeV, left: NodeV, right: NodeV, mem: Seq<MemTable>, looked: Seq<Look>, why: Why) -> bool {
    why matches Why::Failed(code) && exists|l: Seq<Look>, ls: Seq<Chunk>, ld: bool, r: Seq<Look>, rs: Seq<Chunk>, rd: bool|
        #![trigger gave(left, mem, l, ls, ld), gave(right, mem, r, rs, rd)]
        {
            &&& within(l, looked) && gave(left, mem, l, ls, ld)
            &&& within(r, looked) && gave(right, mem, r, rs, rd)
            &&& stuck(plan, ls, rs, code)
        }
}

/// What may stop a recursion after a round: the rounds are too many, the recursive term cannot be
/// set up or stops, or its rows cannot be taken in.
pub open spec fn round_halted(term: Node, mem: Seq<MemTable>, looked: Seq<Look>, r: Round, why: Why) -> bool {
    &&& why matches Why::Failed(code)
    &&& {
        ||| code == Code::RecursionLimitExceeded && r.n >= MAX_RECURSIVE_ITERATIONS
        ||| build_fault(term, true) == Some(code)
        ||| exists|l: Seq<Look>, ins: Seq<Chunk>, done: bool| #[trigger]
            gave(planned(term, Some(r.work)), mem, l, ins, done) && within(l, looked) && recursion_stuck(r.seen, ins, code)
    }
}

/// Why a look stops a query, if it does.
pub open spec fn look_stops(f: Option<Finding>, why: Why) -> bool {
    match f {
        Some(Finding::Failed(c)) => why == Why::Failed(c),
        Some(Finding::Bytes(_)) => why == Why::Io,
        Some(Finding::Blocks(_)) => why == Why::Codec,
        _ => false,
    }
}

/// Whether reading a table in files may stop: a look failed, or found that bytes or blocks are missing.
/// (After as many looks as can be counted it is given up.)
pub open spec fn scan_stops(spec: ScanSpec, ls: Seq<Look>, why: Why) -> bool {
    &&& in_order(spec, ls)
    &&& {
        ||| exists|k: int| 0 <= k < ls.len() && look_stops(found(spec, #[trigger] ls[k]), why)
        ||| why == Why::Failed(Code::LimitExceeded) && ls.len() >= u64::MAX
    }
}

/// Whether carrying a plan out may stop, the in-memory tables being `mem`, and `looked` the looks taken
/// at the splits of tables in files. It stops only if a look does not give rows, or if one of its nodes
/// cannot go on with what its inputs give.
#[verifier::opaque]
pub open spec fn stops(plan: NodeV, mem: Seq<MemTable>, looked: Seq<Look>, why: Why) -> bool
    decreases nesting(plan), plan,
{
    proof {
        if plan is RecursiveCte {
            lemma_nesting_of(plan->RecursiveCte_recursive_term);
        }
    }
    match plan {
        NodeV::Scan { table, columns, pruners } => exists|spec: ScanSpec|
            {
                &&& #[trigger] scan_stops(spec, looked, why)
                &&& spec.table == table
                &&& spec.columns@ == columns
                &&& pruners_of(spec.pruners@) == pruners
            },
        NodeV::MemScan { table } => table >= mem.len() && why == Why::Failed(Code::TableNotFound),
        NodeV::Filter { input, .. } => stops(*input, mem, looked, why) || halted(plan, *input, mem, looked, why),
        NodeV::Project { input, .. } => stops(*input, mem, looked, why) || halted(plan, *input, mem, looked, why),
        NodeV::Limit { input, .. } => stops(*input, mem, looked, why) || halted(plan, *input, mem, looked, why),
        NodeV::Aggregate { input, .. } => stops(*input, mem, looked, why) || halted(plan, *input, mem, looked, why),
        NodeV::Sort { input, .. } => stops(*input, mem, looked, why) || halted(plan, *input, mem, looked, why),
        NodeV::Window { input, .. } => stops(*input, mem, looked, why) || halted(plan, *input, mem, looked, why),
        NodeV::DistinctOn { input, .. } => stops(*input, mem, looked, why) || halted(plan, *input, mem, looked, why),
        NodeV::Unnest { input, .. } => stops(*input, mem, looked, why) || halted(plan, *input, mem, looked, why),
        NodeV::Sample { input, .. } => stops(*input, mem, looked, why) || halted(plan, *input, mem, looked, why),
        NodeV::AssertMaxOneRow { input, .. } => stops(*input, mem, looked, why) || halted(plan, *input, mem, looked, why),
        NodeV::Join { left, right, .. } => {
            ||| exists|l: Seq<Look>| #[trigger] within(l, looked) && stops(*left, mem, l, why)
            ||| exists|r: Seq<Look>| #[trigger] within(r, looked) && stops(*right, mem, r, why)
            ||| both_halted(plan, *left, *right, mem, looked, why)
        },
        NodeV::SetOp { left, right, .. } => {
            ||| exists|l: Seq<Look>| #[trigger] within(l, looked) && stops(*left, mem, l, why)
            ||| exists|r: Seq<Look>| #[trigger] within(r, looked) && stops(*right, mem, r, why)
            ||| both_halted(plan, *left, *right, mem, looked, why)
        },
        NodeV::RecursiveCte { anchor, recursive_term, union_all } => {
            ||| exists|l: Seq<Look>| #[trigger] within(l, looked) && stops(*anchor, mem, l, why)
            ||| why matches Why::Failed(code) && exists|l: Seq<Look>, ins: Seq<Chunk>, done: bool| #[trigger]
                gave(*anchor, mem, l, ins, done) && within(l, looked) && recursion_stuck(first_keys(union_all), ins, code)
            ||| exists|r: Round| #[trigger]
                reached(*anchor, recursive_term, union_all, mem, looked, r) && !r.is_last() && {
                    ||| round_halted(recursive_term, mem, looked, r, why)
                    ||| exists|l: Seq<Look>| #[trigger]
                        within(l, looked) && stops(planned(recursive_term, Some(r.work)), mem, l, why)
                }
        },
        NodeV::Working { .. } => false,
        NodeV::GenerateSeries { .. } => false,
        NodeV::Other => true,
    }
}

/// What has come from an input is what its plan gives.
pub open spec fn supplied(c: Child, mem: Seq<MemTable>) -> bool {
    c.op.sound(mem) && gave(c.op.plan(), mem, c.op.looked(), c.op.returned(), c.op.spent())
}

pub(crate) proof fn lemma_first_reached(
    anchor: NodeV,
    term: Node,
    union_all: bool,
    mem: Seq<MemTable>,
    looked: Seq<Look>,
    l: Seq<Look>,
    ins: Seq<Chunk>,
)
    requires
        within(l, looked),
        gave(anchor, mem, l, ins, true),
    ensures
        reached(anchor, term, union_all, mem, looked, first_round(union_all, ins)),
{
    reveal_with_fuel(reached, 1);
    reveal_with_fuel(gave, 1);
}

pub(crate) proof fn lemma_next_reached(
    anchor: NodeV,
    term: Node,
    union_all: bool,
    mem: Seq<MemTable>,
    looked: Seq<Look>,
    q: Round,
    l: Seq<Look>,
    ins: Seq<Chunk>,
)
    requires
        reached(anchor, term, union_all, mem, looked, q),
        !q.is_last(),
        within(l, looked),
        gave(planned(term, Some(q.work)), mem, l, ins, true),
    ensures
        reached(anchor, term, union_all, mem, looked, next_round(q, ins)),
{
    reveal_with_fuel(reached, 1);
    reveal_with_fuel(gave, 1);
}

/// A round stays reached when more looks are taken.
pub(crate) proof fn lemma_reached_more(
    anchor: NodeV,
    term: Node,
    union_all: bool,
    mem: Seq<MemTable>,
    looked: Seq<Look>,
    more: Seq<Look>,
    r: Round,
)
    requires
        reached(anchor, term, union_all, mem, looked, r),
        forall|l: Seq<Look>| #[trigger] within(l, looked) ==> within(l, more),
    ensures
        reached(anchor, term, union_all, mem, more, r),
    decreases r.n,
{
    reveal_with_fuel(reached, 1);
    reveal_with_fuel(gave, 1);
    if r.n == 0 {
        let (ins, l) = choose|ins: Seq<Chunk>, l: Seq<Look>|
            {
                &&& r == #[trigger] first_round(union_all, ins)
                &&& #[trigger] within(l, looked) && gave(anchor, mem, l, ins, true)
            };
        assert(within(l, more));
    } else {
        let (q, ins, l) = choose|q: Round, ins: Seq<Chunk>, l: Seq<Look>|
            {
                &&& r == #[trigger] next_round(q, ins)
                &&& !q.is_last()
                &&& q.n < r.n && reached(anchor, term, union_all, mem, looked, q)
                &&& #[trigger] within(l, looked) && gave(planned(term, Some(q.work)), mem, l, ins, true)
            };
        lemma_reached_more(anchor, term, union_all, mem, looked, more, q);
        assert(within(l, more));
    }
}

/// Rows are the first of others if something follows them.
pub(crate) proof fn lemma_begins(rows: Seq<Seq<Val>>, rest: Seq<Seq<Val>>, done: bool)
    requires
        done ==> rest.len() == 0,
    ensures
        begins(rows, rows + rest, done),
        begins(rows, rows, true),
{
    assert(rows.take(rows.len() as int) =~= rows);
    assert((rows + rest).take(rows.len() as int) =~= rows);
    if done {
        assert(rows + rest =~= rows);
    }
}

} // verus!
