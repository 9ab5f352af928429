//! Hash aggregation: GROUP BY and HAVING.
//!
//! Nothing can be returned before the input is read through, so the groups are kept in the
//! operator and interruptions pass through. A batch is taken in as a whole.

use crate::catalog::MemTable;
use crate::error::{Code, Error};
use crate::exec::looks::{lemma_no_look, looked_on};
use crate::exec::meaning::{all_taken, gave, lemma_begins, lemma_taken_push, stops, stuck, supplied, Why};
use crate::exec::accum::{agg_result, agg_state, fed_next, rule_of, AggColumn, AggOp, RuleV, StateV};
use crate::exec::rowkey::{
    col_keys, column_refs, encode_key, entry_of, fresh_flags, grown, grown_holds_exactly_the_keys_seen, has_key, index_bytes,
    key_total, keys_are_distinct, lemma_col_key, lemma_grown_more, lemma_key_total_positive, HashIndex, max_keys,
};
use crate::exec::sort::types_of;
use crate::exec::{
    answers, chunk, flat, fresh_trace, grown_trace, lemma_flat_push, lemma_portions_push, lost_trace, portion, portions, rows_of, Chunk, Trace, Child,
    ExecContext, Look, Operator, Said, Step,
};
use crate::expr::{
    col_of, cols_of, holds_of, opt_prog, program_keep, program_value, progs_of, programs_run_row_by_row, ColV, Program, ProgramV,
    Vm,
};
use crate::plan::{aggregate_ty, aggs_of, Agg, AggV, NodeV};
use crate::vector::{
    lemma_kept_append, cols_wf, gather_columns, kept, lemma_kept_step, lemma_kept_subset, row_at,
    row_numbers, sat64, Batch, PhysType, Ty, Val, Value, Vector, BATCH_SIZE, MAX_ROWS,
};
use vstd::prelude::*;

verus! {

/// The bytes that groups and states may use.
pub const MAX_STATE_BYTES: u64 = 0x400_0000;

/// The estimated bytes of one state, without what it points to.
pub const STATE_BYTES: u64 = 96;

// --- What a batch brings --------------------------------------------------------------------

/// The group columns. Each has the storage that its program declares.
pub open spec fn group_columns(ps: Seq<ProgramV>, tys: Seq<Ty>, rows: Seq<Seq<Val>>, k: int) -> Result<Seq<ColV>, Code>
    decreases k,
{
    if k <= 0 {
        Ok(Seq::empty())
    } else {
        match group_columns(ps, tys, rows, k - 1) {
            Err(e) => Err(e),
            Ok(vs) => match program_value(ps[k - 1], tys, rows) {
                Err(e) => Err(e),
                Ok(v) => if v.ty.phys() != ps[k - 1].result_ty.phys() {
                    Err(Code::Internal)
                } else {
                    Ok(vs.push(v))
                },
            },
        }
    }
}

/// An aggregate's argument, or its filter.
pub open spec fn part_of(a: AggV, filter: bool) -> Option<ProgramV> {
    if filter {
        a.filter
    } else {
        a.arg
    }
}

/// The columns of the aggregates' arguments, or of their filters.
pub open spec fn agg_columns(aggs: Seq<AggV>, filter: bool, tys: Seq<Ty>, rows: Seq<Seq<Val>>, k: int) -> Result<
    Seq<Option<ColV>>,
    Code,
>
    decreases k,
{
    if k <= 0 {
        Ok(Seq::empty())
    } else {
        match agg_columns(aggs, filter, tys, rows, k - 1) {
            Err(e) => Err(e),
            Ok(vs) => match part_of(aggs[k - 1], filter) {
                None => Ok(vs.push(None)),
                Some(p) => match program_value(p, tys, rows) {
                    Err(e) => Err(e),
                    Ok(v) => Ok(vs.push(Some(v))),
                },
            },
        }
    }
}

/// What a batch brings to an aggregation.
#[verifier::ext_equal]
pub struct InputV {
    pub groups: Seq<ColV>,
    pub args: Seq<Option<ColV>>,
    pub filters: Seq<Option<ColV>>,
}

pub open spec fn input_of(
    groups: Seq<ProgramV>,
    aggs: Seq<AggV>,
    tys: Seq<Ty>,
    rows: Seq<Seq<Val>>,
) -> Result<InputV, Code> {
    match group_columns(groups, tys, rows, groups.len() as int) {
        Err(e) => Err(e),
        Ok(g) => match agg_columns(aggs, false, tys, rows, aggs.len() as int) {
            Err(e) => Err(e),
            Ok(args) => match agg_columns(aggs, true, tys, rows, aggs.len() as int) {
                Err(e) => Err(e),
                Ok(filters) => Ok(InputV { groups: g, args, filters }),
            },
        },
    }
}

/// Whether a row passes an aggregate's filter: NULL does not.
pub open spec fn passes(filter: Option<ColV>, row: int) -> bool {
    match filter {
        None => true,
        Some(c) => c.ty.phys() == PhysType::Bool && c.cells[row] == Val::Bool(true),
    }
}

/// What a row feeds to an aggregate. `COUNT(*)` takes any row.
pub open spec fn fed_value(r: RuleV, arg: Option<ColV>, row: int) -> Val {
    match arg {
        Some(c) => if r.op == AggOp::CountStar {
            Val::Null
        } else {
            c.cells[row]
        },
        None => Val::Null,
    }
}

/// The values fed to an aggregate in the group with a key, after the first `k` rows.
pub open spec fn fed_rows(
    r: RuleV,
    arg: Option<ColV>,
    filter: Option<ColV>,
    keys: Seq<Seq<u8>>,
    key: Seq<u8>,
    start: Seq<Val>,
    k: int,
) -> Seq<Val>
    decreases k,
{
    if k <= 0 {
        start
    } else {
        let before = fed_rows(r, arg, filter, keys, key, start, k - 1);
        if keys[k - 1] == key && passes(filter, k - 1) {
            fed_next(r, before, fed_value(r, arg, k - 1))
        } else {
            before
        }
    }
}

/// The values fed in the group with a key, if there is one.
pub open spec fn fed_before(index: Seq<(Seq<u8>, u32)>, fed: Seq<Seq<Val>>, key: Seq<u8>) -> Seq<Val> {
    if has_key(index, key) {
        fed[entry_of(index, key)]
    } else {
        Seq::empty()
    }
}

proof fn lemma_not_fed(
    r: RuleV,
    arg: Option<ColV>,
    filter: Option<ColV>,
    keys: Seq<Seq<u8>>,
    key: Seq<u8>,
    start: Seq<Val>,
    k: int,
)
    requires
        0 <= k <= keys.len(),
        forall|j: int| 0 <= j < k ==> #[trigger] keys[j] != key,
    ensures
        fed_rows(r, arg, filter, keys, key, start, k) == start,
    decreases k,
{
    if k > 0 {
        lemma_not_fed(r, arg, filter, keys, key, start, k - 1);
    }
}

/// The columns of two batches, one after the other.
pub open spec fn joined(a: Option<ColV>, b: Option<ColV>) -> Option<ColV> {
    match (a, b) {
        (Some(x), Some(y)) => Some(ColV { ty: x.ty, cells: x.cells + y.cells }),
        _ => None,
    }
}

/// Whether columns of batches of `n` and `m` rows belong to the same expression.
pub open spec fn alike(a: Option<ColV>, b: Option<ColV>, n: nat, m: nat) -> bool {
    match (a, b) {
        (Some(x), Some(y)) => x.ty == y.ty && x.cells.len() == n && y.cells.len() == m,
        (None, None) => true,
        _ => false,
    }
}

/// Batches can be cut anywhere: rows that come in two batches are fed as in one.
pub proof fn aggregation_does_not_depend_on_batching(
    r: RuleV,
    arg: (Option<ColV>, Option<ColV>),
    filter: (Option<ColV>, Option<ColV>),
    ka: Seq<Seq<u8>>,
    kb: Seq<Seq<u8>>,
    key: Seq<u8>,
    start: Seq<Val>,
    k: int,
)
    requires
        alike(arg.0, arg.1, ka.len(), kb.len()),
        alike(filter.0, filter.1, ka.len(), kb.len()),
        0 <= k <= kb.len(),
    ensures
        fed_rows(r, joined(arg.0, arg.1), joined(filter.0, filter.1), ka + kb, key, start, ka.len() + k) == fed_rows(
            r,
            arg.1,
            filter.1,
            kb,
            key,
            fed_rows(r, arg.0, filter.0, ka, key, start, ka.len() as int),
            k,
        ),
    decreases k,
{
    if k == 0 {
        lemma_fed_prefix(r, arg, filter, ka, kb, key, start, ka.len() as int);
    } else {
        aggregation_does_not_depend_on_batching(r, arg, filter, ka, kb, key, start, k - 1);
        assert((ka + kb)[ka.len() + k - 1] == kb[k - 1]);
    }
}

proof fn lemma_fed_prefix(
    r: RuleV,
    arg: (Option<ColV>, Option<ColV>),
    filter: (Option<ColV>, Option<ColV>),
    ka: Seq<Seq<u8>>,
    kb: Seq<Seq<u8>>,
    key: Seq<u8>,
    start: Seq<Val>,
    k: int,
)
    requires
        alike(arg.0, arg.1, ka.len(), kb.len()),
        alike(filter.0, filter.1, ka.len(), kb.len()),
        0 <= k <= ka.len(),
    ensures
        fed_rows(r, joined(arg.0, arg.1), joined(filter.0, filter.1), ka + kb, key, start, k) == fed_rows(
            r,
            arg.0,
            filter.0,
            ka,
            key,
            start,
            k,
        ),
    decreases k,
{
    if k > 0 {
        lemma_fed_prefix(r, arg, filter, ka, kb, key, start, k - 1);
        assert((ka + kb)[k - 1] == ka[k - 1]);
    }
}

fn eval_groups(vm: &Vm, ps: &Vec<Program>, batch: &Batch) -> (r: Result<Vec<Vector>, Error>)
    requires
        batch.wf(),
    ensures
        match r {
            Ok(cols) => {
                &&& cols_wf(cols@, batch.spec_card())
                &&& cols@.len() == ps@.len()
                &&& group_columns(progs_of(ps@), batch.types(), batch.rows(), ps@.len() as int) == Ok::<Seq<ColV>, Code>(
                    cols_of(cols@),
                )
                &&& forall|i: int| 0 <= i < cols@.len() ==> (#[trigger] cols@[i]).ty().phys() == ps@[i].result_ty.phys()
            },
            Err(e) => group_columns(progs_of(ps@), batch.types(), batch.rows(), ps@.len() as int) == Err::<Seq<ColV>, Code>(
                e.code,
            ),
        },
{
    let mut cols: Vec<Vector> = Vec::new();
    let mut k: usize = 0;
    assert(cols_of(cols@) =~= Seq::<ColV>::empty());
    while k < ps.len()
        invariant
            batch.wf(),
            k <= ps@.len(),
            cols@.len() == k,
            cols_wf(cols@, batch.spec_card()),
            group_columns(progs_of(ps@), batch.types(), batch.rows(), k as int) == Ok::<Seq<ColV>, Code>(cols_of(cols@)),
            forall|i: int| 0 <= i < k ==> (#[trigger] cols@[i]).ty().phys() == ps@[i].result_ty.phys(),
        decreases ps@.len() - k,
    {
        assert(progs_of(ps@)[k as int] == ps@[k as int]@);
        match vm.eval(&ps[k], batch) {
            Err(e) => {
                proof {
                    lemma_groups_stay_failed(progs_of(ps@), batch.types(), batch.rows(), k as int + 1, ps@.len() as int);
                }
                return Err(e);
            },
            Ok(v) => {
                if v.phys() != ps[k].result_ty.phys() {
                    proof {
                        lemma_groups_stay_failed(progs_of(ps@), batch.types(), batch.rows(), k as int + 1, ps@.len() as int);
                    }
                    return Err(Error::new(Code::Internal));
                }
                let ghost before = cols@;
                cols.push(v);
                assert(cols_of(cols@) =~= cols_of(before).push(col_of(v)));
            },
        }
        k = k + 1;
    }
    Ok(cols)
}

proof fn lemma_groups_stay_failed(ps: Seq<ProgramV>, tys: Seq<Ty>, rows: Seq<Seq<Val>>, k: int, n: int)
    requires
        0 <= k <= n,
        group_columns(ps, tys, rows, k) is Err,
    ensures
        group_columns(ps, tys, rows, n) == group_columns(ps, tys, rows, k),
    decreases n - k,
{
    if k < n {
        lemma_groups_stay_failed(ps, tys, rows, k + 1, n);
    }
}

proof fn lemma_aggs_stay_failed(aggs: Seq<AggV>, filter: bool, tys: Seq<Ty>, rows: Seq<Seq<Val>>, k: int, n: int)
    requires
        0 <= k <= n,
        agg_columns(aggs, filter, tys, rows, k) is Err,
    ensures
        agg_columns(aggs, filter, tys, rows, n) == agg_columns(aggs, filter, tys, rows, k),
    decreases n - k,
{
    if k < n {
        lemma_aggs_stay_failed(aggs, filter, tys, rows, k + 1, n);
    }
}

/// The models of columns, some of which may be missing.
pub open spec fn opt_cols(cols: Seq<Option<Vector>>) -> Seq<Option<ColV>> {
    Seq::new(
        cols.len(),
        |i: int|
            match cols[i] {
                Some(v) => Some(col_of(v)),
                None => None,
            },
    )
}

pub open spec fn opt_cols_wf(cols: Seq<Option<Vector>>, n: int) -> bool {
    forall|i: int| 0 <= i < cols.len() ==> ((#[trigger] cols[i]) matches Some(v) ==> v.wf() && v@.len() == n)
}

fn eval_parts(vm: &Vm, aggs: &Vec<Agg>, filter: bool, batch: &Batch) -> (r: Result<Vec<Option<Vector>>, Error>)
    requires
        batch.wf(),
    ensures
        match r {
            Ok(cols) => {
                &&& opt_cols_wf(cols@, batch.spec_card())
                &&& cols@.len() == aggs@.len()
                &&& agg_columns(aggs_of(aggs@), filter, batch.types(), batch.rows(), aggs@.len() as int) == Ok::<
                    Seq<Option<ColV>>,
                    Code,
                >(opt_cols(cols@))
            },
            Err(e) => agg_columns(aggs_of(aggs@), filter, batch.types(), batch.rows(), aggs@.len() as int) == Err::<
                Seq<Option<ColV>>,
                Code,
            >(e.code),
        },
{
    let mut cols: Vec<Option<Vector>> = Vec::new();
    let mut k: usize = 0;
    assert(opt_cols(cols@) =~= Seq::<Option<ColV>>::empty());
    while k < aggs.len()
        invariant
            batch.wf(),
            k <= aggs@.len(),
            cols@.len() == k,
            opt_cols_wf(cols@, batch.spec_card()),
            agg_columns(aggs_of(aggs@), filter, batch.types(), batch.rows(), k as int) == Ok::<Seq<Option<ColV>>, Code>(
                opt_cols(cols@),
            ),
        decreases aggs@.len() - k,
    {
        let ghost before = cols@;
        assert(aggs_of(aggs@)[k as int] == aggs@[k as int]@);
        let p: &Option<Program> = if filter {
            &aggs[k].filter
        } else {
            &aggs[k].arg
        };
        match p {
            None => {
                cols.push(None);
                assert(opt_cols(cols@) =~= opt_cols(before).push(None));
            },
            Some(p) => {
                match vm.eval(p, batch) {
                    Err(e) => {
                        proof {
                            lemma_aggs_stay_failed(
                                aggs_of(aggs@),
                                filter,
                                batch.types(),
                                batch.rows(),
                                k as int + 1,
                                aggs@.len() as int,
                            );
                        }
                        return Err(e);
                    },
                    Ok(v) => {
                        let ghost val = col_of(v);
                        cols.push(Some(v));
                        assert(opt_cols(cols@) =~= opt_cols(before).push(Some(val)));
                    },
                }
            },
        }
        k = k + 1;
    }
    Ok(cols)
}

// --- The operator -----------------------------------------------------------------------------

#[derive(Clone, Copy, PartialEq, Eq, Structural, Debug)]
pub enum AggPhase {
    /// Reading the input.
    Building,
    /// Returning the groups.
    Emitting,
    Done,
}

pub struct HashAggregate {
    pub input: Child,
    pub groups: Vec<Program>,
    pub aggs: Vec<Agg>,
    pub having: Option<Program>,
    /// The types of the aggregates.
    pub out_tys: Vec<Ty>,
    /// The aggregates' states.
    pub cols: Vec<AggColumn>,
    /// The number of each group.
    pub index: HashIndex,
    /// The group columns' values, a row per group.
    pub key_cols: Vec<Vector>,
    pub key_bytes: u64,
    pub phase: AggPhase,
    /// The next group to return.
    pub emit_pos: usize,
    pub trace: Ghost<Trace>,
}

/// The estimated bytes of the values told apart. `mode(DISTINCT ..)` tells them apart once for DISTINCT
/// and once to count them, and is charged for both.
pub open spec fn tables_bytes(c: AggColumn) -> int {
    let n = index_bytes(c.table@);
    if c.rule.dedup && c.rule.op == AggOp::Mode {
        sat64(n + n)
    } else {
        n
    }
}

/// The estimated bytes of the first `k` aggregates' states.
pub open spec fn states_bytes(cols: Seq<AggColumn>, k: int) -> int
    decreases k,
{
    if k <= 0 {
        0
    } else {
        sat64(sat64(states_bytes(cols, k - 1) + cols[k - 1].bytes) + tables_bytes(cols[k - 1]))
    }
}

/// States to which nothing was fed take no bytes.
proof fn lemma_no_states(cols: Seq<AggColumn>, k: int)
    requires
        k <= cols.len(),
        forall|j: int| 0 <= j < cols.len() ==> (#[trigger] cols[j]).bytes == 0 && cols[j].table@.len() == 0,
    ensures
        states_bytes(cols, k) == 0,
    decreases k,
{
    if k > 0 {
        lemma_no_states(cols, k - 1);
        assert(cols[k - 1].table@ =~= Seq::empty());
    }
}

/// A row of the result: the group columns, and what the aggregates give.
pub open spec fn group_row_of(key_cols: Seq<Vector>, cols: Seq<AggColumn>, g: int) -> Seq<Val> {
    row_at(key_cols, g) + Seq::new(cols.len(), |i: int| agg_result(cols[i].rule@, cols[i].states@[g]@))
}

pub open spec fn group_rows_of(key_cols: Seq<Vector>, cols: Seq<AggColumn>, from: int, to: int) -> Seq<Seq<Val>> {
    Seq::new((to - from) as nat, |k: int| group_row_of(key_cols, cols, from + k))
}

impl HashAggregate {
    pub open spec fn inv(&self) -> bool {
        &&& self.cols@.len() == self.aggs@.len()
        &&& self.out_tys@.len() == self.aggs@.len()
        &&& self.index.wf()
        &&& self.index@.len() <= max_keys()
        &&& self.key_bytes == sat64(key_total(self.index@))
        &&& forall|g: int| 0 <= g < self.index@.len() ==> (#[trigger] self.index@[g]).1 == g
        &&& forall|i: int|
            0 <= i < self.cols@.len() ==> {
                &&& (#[trigger] self.cols@[i]).wf()
                &&& rule_of(self.aggs@[i]@) == Some(self.cols@[i].rule@)
                &&& self.cols@[i].rule.out_ty == self.out_tys@[i]
                &&& aggregate_ty(self.aggs@[i].kind, self.aggs@[i]@.input_ty()) == Some(self.out_tys@[i])
                &&& self.cols@[i].fed@.len() == self.index@.len()
            }
        &&& self.key_cols@.len() == self.groups@.len()
        &&& cols_wf(self.key_cols@, self.index@.len() as int)
        &&& forall|i: int| 0 <= i < self.key_cols@.len() ==> (#[trigger] self.key_cols@[i]).ty() == self.groups@[i].result_ty
        &&& self.emit_pos <= self.index@.len()
    }

    pub open spec fn same_query(&self, other: HashAggregate) -> bool {
        &&& self.input == other.input
        &&& self.groups == other.groups
        &&& self.aggs == other.aggs
        &&& self.having == other.having
        &&& self.out_tys == other.out_tys
        &&& self.trace == other.trace
        &&& self.cols@.len() == other.cols@.len()
        &&& forall|i: int| 0 <= i < self.cols@.len() ==> (#[trigger] self.cols@[i]).rule == other.cols@[i].rule
    }

    /// The values fed to an aggregate in a group.
    pub open spec fn fed(&self, i: int, key: Seq<u8>) -> Seq<Val> {
        fed_before(self.index@, self.cols@[i].fed@, key)
    }

    /// The estimated bytes in use.
    pub open spec fn size(&self) -> int {
        sat64(
            sat64(sat64(index_bytes(self.index@) + self.key_bytes) + states_bytes(self.cols@, self.cols@.len() as int))
                + sat64(self.index@.len() * self.cols@.len() * STATE_BYTES),
        )
    }

    /// The group columns' values in a group.
    pub open spec fn key_row(&self, g: int) -> Seq<Val> {
        row_at(self.key_cols@, g)
    }

    /// A row of the result: the group columns, and what the aggregates give.
    pub open spec fn group_row(&self, g: int) -> Seq<Val> {
        group_row_of(self.key_cols@, self.cols@, g)
    }

    pub open spec fn group_rows(&self, from: int, to: int) -> Seq<Seq<Val>> {
        group_rows_of(self.key_cols@, self.cols@, from, to)
    }

    pub open spec fn result_types(&self) -> Seq<Ty> {
        types_of(self.key_cols@) + self.out_tys@
    }

    pub fn new(
        input: Child,
        groups: Vec<Program>,
        aggs: Vec<Agg>,
        having: Option<Program>,
    ) -> (r: Result<HashAggregate, Error>)
        requires
            input.op.wf(),
        ensures
            match r {
                Ok(h) => {
                    &&& h.wf()
                    &&& h.input == input
                    &&& h.groups == groups
                    &&& h.aggs == aggs
                    &&& h.having == having
                    &&& h.phase == AggPhase::Building
                    &&& h.trace@ == fresh_trace(input.op.returned())
                    &&& h.index@.len() == 0
                    &&& forall|i: int|
                        0 <= i < aggs@.len() ==> aggregate_ty((#[trigger] aggs@[i]).kind, aggs@[i]@.input_ty()) == Some(
                            h.out_tys@[i],
                        )
                },
                Err(e) => agg_fault(aggs_of(aggs@), 0) == Some(e.code),
            },
            r is Ok ==> agg_fault(aggs_of(aggs@), 0) is None,
    {
        let mut cols: Vec<AggColumn> = Vec::new();
        let mut out_tys: Vec<Ty> = Vec::new();
        let mut i: usize = 0;
        while i < aggs.len()
            invariant
                i <= aggs@.len(),
                cols@.len() == i,
                out_tys@.len() == i,
                agg_fault(aggs_of(aggs@), 0) == agg_fault(aggs_of(aggs@), i as int),
                forall|j: int|
                    0 <= j < i ==> {
                        &&& (#[trigger] cols@[j]).wf()
                        &&& rule_of(aggs@[j]@) == Some(cols@[j].rule@)
                        &&& cols@[j].rule.out_ty == out_tys@[j]
                        &&& cols@[j].fed@.len() == 0
                        &&& cols@[j].bytes == 0
                        &&& cols@[j].table@.len() == 0
                        &&& aggregate_ty(aggs@[j].kind, aggs@[j]@.input_ty()) == Some(out_tys@[j])
                    },
            decreases aggs@.len() - i,
        {
            assert(aggs_of(aggs@)[i as int] == aggs@[i as int]@);
            match AggColumn::new(&aggs[i]) {
                Ok(c) => {
                    out_tys.push(c.rule.out_ty);
                    cols.push(c);
                },
                Err(e) => {
                    return Err(e);
                },
            }
            i = i + 1;
        }
        let mut key_cols: Vec<Vector> = Vec::new();
        let mut k: usize = 0;
        while k < groups.len()
            invariant
                k <= groups@.len(),
                key_cols@.len() == k,
                cols_wf(key_cols@, 0),
                forall|j: int| 0 <= j < k ==> (#[trigger] key_cols@[j]).ty() == groups@[j].result_ty,
            decreases groups@.len() - k,
        {
            key_cols.push(Vector::new(groups[k].result_ty));
            k = k + 1;
        }
        let h = HashAggregate {
            input,
            groups,
            aggs,
            having,
            out_tys,
            cols,
            index: HashIndex::new(),
            key_cols,
            key_bytes: 0,
            phase: AggPhase::Building,
            emit_pos: 0,
            trace: Ghost(fresh_trace(input.op.returned())),
        };
        proof {
            assert(h.input == input);
            assert(h.index@ =~= Seq::empty());
            lemma_no_states(h.cols@, h.cols@.len() as int);
            assert(h.index@.len() * h.cols@.len() == 0) by (nonlinear_arith)
                requires
                    h.index@.len() == 0,
            ;
            assert(Seq::new(h.index@.len(), |g: int| row_at(h.key_cols@, g)) =~= Seq::empty());
            assert forall|j: int| 0 <= j < h.aggs@.len() implies aggregate_ty(
                (#[trigger] h.aggs@[j]).kind,
                h.aggs@[j]@.input_ty(),
            ) == Some(h.out_tys@[j]) by {
                assert(h.cols@[j].wf());
            }
        }
        Ok(h)
    }
}

/// Why a list of aggregates cannot be computed, from the `i`-th on.
pub open spec fn agg_fault(aggs: Seq<AggV>, i: int) -> Option<Code>
    decreases aggs.len() - i,
{
    if i >= aggs.len() {
        None
    } else if aggregate_ty(aggs[i].kind, aggs[i].input_ty()) is None {
        Some(Code::TypeMismatch)
    } else if rule_of(aggs[i]) is None {
        Some(Code::UnsupportedFeature)
    } else {
        agg_fault(aggs, i + 1)
    }
}

impl HashAggregate {
    /// Opens a group with the values of a row.
    fn open_group(&mut self, gvs: &Vec<Vector>, row: usize, key: &Vec<u8>)
        requires
            old(self).index.wf(),
            old(self).index@.len() < max_keys(),
            !has_key(old(self).index@, key@),
            old(self).inv(),
            gvs@.len() == old(self).groups@.len(),
            forall|i: int|
                0 <= i < gvs@.len() ==> (#[trigger] gvs@[i]).wf() && row < gvs@[i]@.len() && gvs@[i].ty().phys() == old(self).groups@[i].result_ty.phys(),
        ensures
            final(self).inv(),
            final(self).same_query(*old(self)),
            final(self).phase == old(self).phase,
            final(self).emit_pos == old(self).emit_pos,
            final(self).index@ == old(self).index@.push((key@, old(self).index@.len() as u32)),
            forall|i: int|
                0 <= i < final(self).cols@.len() ==> (#[trigger] final(self).cols@[i]).fed@ == old(self).cols@[i].fed@.push(
                    Seq::empty(),
                ),
            final(self).key_row(old(self).index@.len() as int) == row_at(gvs@, row as int),
            forall|g: int| 0 <= g < old(self).index@.len() ==> #[trigger] final(self).key_row(g) == old(self).key_row(g),
            final(self).key_bytes == sat64(old(self).key_bytes + key@.len()),
    {
        let ghost n = self.index@.len() as int;
        let ghost e0 = self.index@;
        let (_, _) = self.index.get_or_insert(key.as_slice());
        self.key_bytes = self.key_bytes.saturating_add(key.len() as u64);
        proof {
            lemma_key_total_positive(e0);
            assert(self.index@.drop_last() =~= e0);
            assert(key_total(self.index@) == key_total(e0) + key@.len());
        }
        let ghost kc0 = self.key_cols@;
        let mut c: usize = 0;
        while c < self.key_cols.len()
            invariant
                self.cols == old(self).cols,
                self.aggs == old(self).aggs,
                self.groups == old(self).groups,
                self.input == old(self).input,
                self.having == old(self).having,
                self.trace == old(self).trace,
                self.out_tys == old(self).out_tys,
                self.phase == old(self).phase,
                self.emit_pos == old(self).emit_pos,
                self.key_bytes == sat64(old(self).key_bytes + key@.len()),
                self.key_bytes == sat64(key_total(self.index@)),
                self.index.wf(),
                self.index@ == e0.push((key@, n as u32)),
                c <= self.key_cols@.len(),
                self.key_cols@.len() == kc0.len(),
                kc0.len() == gvs@.len(),
                kc0.len() == self.groups@.len(),
                cols_wf(kc0, n),
                forall|i: int| 0 <= i < kc0.len() ==> (#[trigger] kc0[i]).ty() == self.groups@[i].result_ty,
                forall|i: int|
                    0 <= i < gvs@.len() ==> (#[trigger] gvs@[i]).wf() && row < gvs@[i]@.len() && gvs@[i].ty().phys()
                        == self.groups@[i].result_ty.phys(),
                forall|i: int| c <= i < kc0.len() ==> #[trigger] self.key_cols@[i] == kc0[i],
                forall|i: int|
                    0 <= i < c ==> (#[trigger] self.key_cols@[i]).wf() && self.key_cols@[i].ty() == kc0[i].ty()
                        && self.key_cols@[i]@ == kc0[i]@.push(gvs@[i]@[row as int]),
            decreases kc0.len() - c,
        {
            let v: Value = gvs[c].value_at(row);
            assert(gvs@[c as int]@[row as int].fits(gvs@[c as int].ty().phys()));
            assert(self.key_cols@[c as int] == kc0[c as int] && kc0[c as int].wf());
            self.key_cols[c].push_owned(v);
            c = c + 1;
        }
        let ghost cols0 = self.cols@;
        let mut i: usize = 0;
        while i < self.cols.len()
            invariant
                old(self).inv(),
                cols0 == old(self).cols@,
                self.aggs == old(self).aggs,
                self.groups == old(self).groups,
                self.input == old(self).input,
                self.having == old(self).having,
                self.trace == old(self).trace,
                self.out_tys == old(self).out_tys,
                self.phase == old(self).phase,
                self.emit_pos == old(self).emit_pos,
                self.key_bytes == sat64(old(self).key_bytes + key@.len()),
                self.key_bytes == sat64(key_total(self.index@)),
                self.index.wf(),
                self.index@ == e0.push((key@, n as u32)),
                n == e0.len(),
                e0 == old(self).index@,
                n < max_keys(),
                self.key_cols@.len() == kc0.len(),
                forall|j: int|
                    0 <= j < kc0.len() ==> (#[trigger] self.key_cols@[j]).wf() && self.key_cols@[j].ty() == kc0[j].ty()
                        && self.key_cols@[j]@ == kc0[j]@.push(gvs@[j]@[row as int]),
                i <= self.cols@.len(),
                self.cols@.len() == cols0.len(),
                forall|j: int| i <= j < cols0.len() ==> #[trigger] self.cols@[j] == cols0[j],
                forall|j: int|
                    0 <= j < i ==> (#[trigger] self.cols@[j]).wf() && self.cols@[j].rule == cols0[j].rule && self.cols@[j].fed@
                        == cols0[j].fed@.push(Seq::empty()),
            decreases cols0.len() - i,
        {
            assert(self.cols@[i as int] == cols0[i as int]);
            assert(cols0[i as int].wf() && cols0[i as int].fed@.len() == n);
            self.cols[i].add_group();
            i = i + 1;
        }
        proof {
            assert forall|j: int| 0 <= j < self.key_cols@.len() implies (#[trigger] self.key_cols@[j]).wf()
                && self.key_cols@[j]@.len() == n + 1 by {
                assert(kc0[j]@.len() == n);
            }
            assert forall|g: int| 0 <= g < n implies #[trigger] self.key_row(g) == old(self).key_row(g) by {
                assert forall|j: int| 0 <= j < kc0.len() implies self.key_cols@[j]@[g] == kc0[j]@[g] by {
                    assert(kc0[j]@.len() == n);
                }
                assert(self.key_row(g) =~= old(self).key_row(g));
            }
            assert(self.key_row(n) =~= row_at(gvs@, row as int)) by {
                assert forall|j: int| 0 <= j < kc0.len() implies self.key_cols@[j]@[n] == gvs@[j]@[row as int] by {
                    assert(kc0[j]@.len() == n);
                }
            }
            assert forall|j: int| 0 <= j < self.cols@.len() implies {
                &&& (#[trigger] self.cols@[j]).wf()
                &&& rule_of(self.aggs@[j]@) == Some(self.cols@[j].rule@)
                &&& self.cols@[j].rule.out_ty == self.out_tys@[j]
                &&& self.cols@[j].fed@.len() == self.index@.len()
            } by {
                assert(cols0[j].fed@.len() == n);
            }
        }
    }

    /// Feeds a row to every aggregate.
    fn feed_row(
        &mut self,
        slot: u32,
        args: &Vec<Option<Vector>>,
        filters: &Vec<Option<Vector>>,
        row: usize,
    ) -> (r: Result<
        (),
        Error,
    >)
        requires
            old(self).inv(),
            slot < old(self).index@.len(),
            args@.len() == old(self).aggs@.len(),
            filters@.len() == old(self).aggs@.len(),
            forall|i: int| 0 <= i < args@.len() ==> ((#[trigger] args@[i]) matches Some(v) ==> v.wf() && row < v@.len()),
            forall|i: int| 0 <= i < filters@.len() ==> ((#[trigger] filters@[i]) matches Some(v) ==> v.wf() && row < v@.len()),
        ensures
            final(self).inv(),
            final(self).same_query(*old(self)),
            final(self).phase == old(self).phase,
            final(self).emit_pos == old(self).emit_pos,
            final(self).index == old(self).index,
            final(self).key_cols == old(self).key_cols,
            final(self).key_bytes == old(self).key_bytes,
            match r {
                Ok(_) => forall|i: int|
                    0 <= i < final(self).cols@.len() ==> (#[trigger] final(self).cols@[i]).fed@ == old(self).cols@[i].fed@.update(
                        slot as int,
                        fed_step(
                            old(self).cols@[i].rule@,
                            opt_cols(args@)[i],
                            opt_cols(filters@)[i],
                            old(self).cols@[i].fed@[slot as int],
                            row as int,
                        ),
                    ),
                Err(e) => exists|i: int|
                    0 <= i < old(self).cols@.len() && #[trigger] step_fails(
                        old(self).cols@[i],
                        opt_cols(args@)[i],
                        opt_cols(filters@)[i],
                        slot as int,
                        row as int,
                        e.code,
                    ),
            },
    {
        let ghost cols0 = self.cols@;
        let mut i: usize = 0;
        while i < self.cols.len()
            invariant
                old(self).inv(),
                self.inv(),
                cols0 == old(self).cols@,
                self.aggs == old(self).aggs,
                self.groups == old(self).groups,
                self.input == old(self).input,
                self.having == old(self).having,
                self.trace == old(self).trace,
                self.out_tys == old(self).out_tys,
                self.phase == old(self).phase,
                self.emit_pos == old(self).emit_pos,
                self.key_bytes == old(self).key_bytes,
                self.index == old(self).index,
                self.key_cols == old(self).key_cols,
                slot < self.index@.len(),
                args@.len() == self.aggs@.len(),
                filters@.len() == self.aggs@.len(),
                forall|j: int| 0 <= j < args@.len() ==> ((#[trigger] args@[j]) matches Some(v) ==> v.wf() && row < v@.len()),
                forall|j: int|
                    0 <= j < filters@.len() ==> ((#[trigger] filters@[j]) matches Some(v) ==> v.wf() && row < v@.len()),
                i <= self.cols@.len(),
                self.cols@.len() == cols0.len(),
                forall|j: int| 0 <= j < cols0.len() ==> (#[trigger] self.cols@[j]).rule == cols0[j].rule,
                forall|j: int| i <= j < cols0.len() ==> #[trigger] self.cols@[j] == cols0[j],
                forall|j: int|
                    0 <= j < i ==> (#[trigger] self.cols@[j]).fed@ == cols0[j].fed@.update(
                        slot as int,
                        fed_step(
                            cols0[j].rule@,
                            opt_cols(args@)[j],
                            opt_cols(filters@)[j],
                            cols0[j].fed@[slot as int],
                            row as int,
                        ),
                    ),
            decreases cols0.len() - i,
        {
            let ghost now = self.cols@;
            let ghost arg = opt_cols(args@)[i as int];
            let ghost filter = opt_cols(filters@)[i as int];
            assert(self.cols@[i as int] == cols0[i as int] && cols0[i as int].wf());
            assert(cols0[i as int].fed@.len() == self.index@.len());
            assert(args@[i as int] is Some || args@[i as int] is None);
            assert(filters@[i as int] is Some || filters@[i as int] is None);
            let pass: bool = match &filters[i] {
                None => true,
                Some(f) => f.phys() == PhysType::Bool && match f.cell(row) {
                    Value::Bool(true) => true,
                    _ => false,
                },
            };
            assert(pass == passes(filter, row as int));
            if pass {
                let res = if self.cols[i].rule.op == AggOp::CountStar {
                    self.cols[i].feed(slot, &Value::Null)
                } else {
                    match &args[i] {
                        None => Err(Error::new(Code::Internal)),
                        Some(v) => self.cols[i].feed(slot, v.cell(row)),
                    }
                };
                proof {
                    assert forall|j: int| 0 <= j < self.cols@.len() implies {
                        &&& (#[trigger] self.cols@[j]).wf()
                        &&& rule_of(self.aggs@[j]@) == Some(self.cols@[j].rule@)
                        &&& self.cols@[j].rule.out_ty == self.out_tys@[j]
                        &&& self.cols@[j].fed@.len() == self.index@.len()
                    } by {
                        assert(now[j].wf() && now[j].rule == cols0[j].rule && now[j].fed@.len() == self.index@.len());
                        assert(cols0[j].wf());
                        if j != i {
                            assert(self.cols@[j] == now[j]);
                        }
                    }
                    assert forall|j: int| 0 <= j < cols0.len() implies (#[trigger] self.cols@[j]).rule == cols0[j].rule by {
                        assert(now[j].rule == cols0[j].rule);
                        if j != i {
                            assert(self.cols@[j] == now[j]);
                        }
                    }
                }
                match res {
                    Err(e) => {
                        assert(step_fails(cols0[i as int], arg, filter, slot as int, row as int, e.code));
                        return Err(e);
                    },
                    Ok(()) => {},
                }
            } else {
                assert(self.cols@[i as int].fed@ =~= cols0[i as int].fed@.update(slot as int, cols0[i as int].fed@[slot as int]));
            }
            proof {
                assert forall|j: int| 0 <= j < i + 1 implies (#[trigger] self.cols@[j]).fed@ == cols0[j].fed@.update(
                    slot as int,
                    fed_step(cols0[j].rule@, opt_cols(args@)[j], opt_cols(filters@)[j], cols0[j].fed@[slot as int], row as int),
                ) by {
                    if j < i {
                        assert(self.cols@[j] == now[j]);
                    }
                }
            }
            i = i + 1;
        }
        Ok(())
    }
}

/// The values fed in a row's group after the row.
pub open spec fn fed_step(r: RuleV, arg: Option<ColV>, filter: Option<ColV>, vals: Seq<Val>, row: int) -> Seq<Val> {
    if passes(filter, row) {
        fed_next(r, vals, fed_value(r, arg, row))
    } else {
        vals
    }
}

/// Why feeding a row to an aggregate fails.
pub open spec fn step_fails(
    c: AggColumn,
    arg: Option<ColV>,
    filter: Option<ColV>,
    slot: int,
    row: int,
    code: Code,
) -> bool {
    &&& passes(filter, row)
    &&& {
        ||| agg_state(c.rule@, fed_step(c.rule@, arg, filter, c.fed@[slot], row)) == Err::<StateV, Code>(code)
        ||| arg is None && c.rule.op != AggOp::CountStar && code == Code::Internal
        ||| c.table@.len() >= max_keys() && code == Code::LimitExceeded
    }
}

/// The rows for which a HAVING condition holds.
pub open spec fn having_rows(having: Option<ProgramV>, tys: Seq<Ty>, rows: Seq<Seq<Val>>) -> Seq<Seq<Val>> {
    match having {
        None => rows,
        Some(p) => kept(rows, Seq::new(rows.len(), |i: int| holds_of(p, tys, rows[i]))),
    }
}

/// What taking in the rows of a batch does to the groups and to what was fed to them.
pub open spec fn consumed(was: HashAggregate, now: HashAggregate, v: InputV, n: nat) -> bool {
    let keys = col_keys(v.groups, n);
    let e0 = was.index@;
    &&& now.index@ == grown(e0, keys, n as int)
    &&& Seq::new(now.index@.len(), |g: int| now.key_row(g)) == Seq::new(e0.len(), |g: int| was.key_row(g)) + kept(
        rows_of(v.groups, n),
        fresh_flags(e0, keys),
    )
    &&& forall|i: int, key: Seq<u8>|
        0 <= i < now.cols@.len() && has_key(now.index@, key) ==> #[trigger] now.fed(i, key) == fed_rows(
            was.cols@[i].rule@,
            v.args[i],
            v.filters[i],
            keys,
            key,
            was.fed(i, key),
            n as int,
        )
}

impl HashAggregate {
    /// Takes in a batch as a whole.
    pub fn consume(&mut self, vm: &Vm, batch: &Batch) -> (r: Result<(), Error>)
        requires
            old(self).inv(),
            old(self).phase == AggPhase::Building,
            batch.wf(),
        ensures
            final(self).inv(),
            final(self).same_query(*old(self)),
            final(self).phase == old(self).phase,
            final(self).emit_pos == old(self).emit_pos,
            batch.rows().len() == 0 ==> r is Ok && *final(self) == *old(self),
            batch.rows().len() > 0 ==> match input_of(
                progs_of(old(self).groups@),
                aggs_of(old(self).aggs@),
                batch.types(),
                batch.rows(),
            ) {
                Err(c) => (r matches Err(e) && e.code == c) && *final(self) == *old(self),
                Ok(v) => {
                    let n = batch.rows().len();
                    let e0 = old(self).index@;
                    match r {
                        Ok(_) => final(self).size() <= MAX_STATE_BYTES && consumed(*old(self), *final(self), v, n),
                        Err(e) => {
                            ||| e.code == Code::Oom && final(self).size() > MAX_STATE_BYTES && consumed(
                                *old(self),
                                *final(self),
                                v,
                                n,
                            )
                            ||| e.code == Code::LimitExceeded && grown(e0, col_keys(v.groups, n), n as int).len() > max_keys()
                            ||| some_row_fails(*old(self), v, n, e.code)
                        },
                    }
                },
            },
    {
        let rows: usize = batch.card();
        if rows == 0 {
            return Ok(());
        }
        let gvs = match eval_groups(vm, &self.groups, batch) {
            Ok(v) => v,
            Err(e) => {
                return Err(e);
            },
        };
        let args = match eval_parts(vm, &self.aggs, false, batch) {
            Ok(v) => v,
            Err(e) => {
                return Err(e);
            },
        };
        let filters = match eval_parts(vm, &self.aggs, true, batch) {
            Ok(v) => v,
            Err(e) => {
                return Err(e);
            },
        };
        let ghost n = rows as nat;
        let ghost gs = cols_of(gvs@);
        let ghost avs = opt_cols(args@);
        let ghost fvs = opt_cols(filters@);
        let ghost v = InputV { groups: gs, args: avs, filters: fvs };
        assert(input_of(progs_of(self.groups@), aggs_of(self.aggs@), batch.types(), batch.rows()) == Ok::<InputV, Code>(v));
        let ghost keys = col_keys(gs, n);
        let ghost e0 = self.index@;
        let ghost flags = fresh_flags(e0, keys);
        let ghost grows = rows_of(gs, n);
        let ghost held0 = Seq::new(e0.len(), |g: int| old(self).key_row(g));
        let refs = column_refs(&gvs);
        let mut key: Vec<u8> = Vec::new();
        let mut row: usize = 0;
        proof {
            keys_are_distinct(old(self).index);
            assert(grows.take(0) =~= Seq::empty());
            assert(Seq::new(self.index@.len(), |g: int| self.key_row(g)) =~= held0 + kept(grows.take(0), flags.take(0)));
            assert forall|i: int, g: int|
                0 <= i < self.cols@.len() && 0 <= g < self.index@.len() implies #[trigger] self.cols@[i].fed@[g] == fed_rows(
                old(self).cols@[i].rule@,
                avs[i],
                fvs[i],
                keys,
                self.index@[g].0,
                old(self).fed(i, self.index@[g].0),
                0,
            ) by {
                lemma_entry(e0, g);
            }
        }
        while row < rows
            invariant
                old(self).inv(),
                self.inv(),
                self.same_query(*old(self)),
                self.phase == old(self).phase,
                self.emit_pos == old(self).emit_pos,
                batch.wf(),
                n == rows,
                row <= rows,
                rows <= MAX_ROWS,
                e0 == old(self).index@,
                forall|i: int, j: int| 0 <= i < j < e0.len() ==> (#[trigger] e0[i]).0 != (#[trigger] e0[j]).0,
                gs == cols_of(gvs@),
                avs == opt_cols(args@),
                fvs == opt_cols(filters@),
                v == (InputV { groups: gs, args: avs, filters: fvs }),
                input_of(progs_of(old(self).groups@), aggs_of(old(self).aggs@), batch.types(), batch.rows()) == Ok::<
                    InputV,
                    Code,
                >(v),
                batch.rows().len() == n,
                keys == col_keys(gs, n),
                keys.len() == n,
                flags == fresh_flags(e0, keys),
                grows == rows_of(gs, n),
                held0 == Seq::new(e0.len(), |g: int| old(self).key_row(g)),
                cols_wf(gvs@, rows as int),
                gvs@.len() == self.groups@.len(),
                forall|i: int| 0 <= i < gvs@.len() ==> (#[trigger] gvs@[i]).ty().phys() == self.groups@[i].result_ty.phys(),
                opt_cols_wf(args@, rows as int),
                opt_cols_wf(filters@, rows as int),
                args@.len() == self.aggs@.len(),
                filters@.len() == self.aggs@.len(),
                refs@.unref() == gvs@,
                refs@.len() == gvs@.len(),
                forall|c: int| 0 <= c < refs@.len() ==> *(#[trigger] refs@[c]) == gvs@[c],
                self.index@ == grown(e0, keys, row as int),
                Seq::new(self.index@.len(), |g: int| self.key_row(g)) == held0 + kept(
                    grows.take(row as int),
                    flags.take(row as int),
                ),
                forall|i: int, g: int|
                    0 <= i < self.cols@.len() && 0 <= g < self.index@.len() ==> #[trigger] self.cols@[i].fed@[g] == fed_rows(
                        old(self).cols@[i].rule@,
                        avs[i],
                        fvs[i],
                        keys,
                        self.index@[g].0,
                        old(self).fed(i, self.index@[g].0),
                        row as int,
                    ),
            decreases rows - row,
        {
            assert forall|c: int| 0 <= c < refs@.len() implies row < (#[trigger] refs@[c])@.len() by {
                assert(gvs@[c]@.len() == rows);
            }
            encode_key(refs.as_slice(), row, &mut key);
            proof {
                lemma_col_key(gvs@, n, row as int);
                lemma_kept_step(grows, flags, row as int);
                keys_are_distinct(self.index);
            }
            assert(key@ == keys[row as int]);
            let ghost ei = self.index@;
            let ghost held_i = Seq::new(self.index@.len(), |g: int| self.key_row(g));
            let ghost fed_i = Seq::new(self.cols@.len(), |i: int| self.cols@[i].fed@);
            let slot: u32 = match self.index.lookup(key.as_slice()) {
                Some(s) => {
                    assert(ei[entry_of(ei, key@)].1 == entry_of(ei, key@));
                    s
                },
                None => {
                    if self.index.len() >= max_keys() {
                        proof {
                            lemma_grown_more(e0, keys, row + 1, rows as int);
                        }
                        return Err(Error::new(Code::LimitExceeded));
                    }
                    let s: u32 = self.index.len() as u32;
                    assert forall|i: int|
                        0 <= i < gvs@.len() implies (#[trigger] gvs@[i]).wf() && row < gvs@[i]@.len() && gvs@[i].ty().phys()
                        == self.groups@[i].result_ty.phys() by {}
                    self.open_group(&gvs, row, &key);
                    s
                },
            };
            proof {
                assert(self.index@ == grown(e0, keys, row + 1));
                assert(self.index@[slot as int].0 == key@);
                assert(row_at(gvs@, row as int) =~= grows[row as int]);
                assert(flags[row as int] == !has_key(ei, key@));
                let now = Seq::new(self.index@.len(), |g: int| self.key_row(g));
                let want = held0 + kept(grows.take(row + 1), flags.take(row + 1));
                if has_key(ei, key@) {
                    assert(now =~= held_i);
                } else {
                    assert(want =~= held_i.push(grows[row as int]));
                    assert forall|g: int| 0 <= g < now.len() implies now[g] == want[g] by {
                        if g < ei.len() {
                            assert(self.key_row(g) == held_i[g]);
                        } else {
                            assert(self.key_row(ei.len() as int) == row_at(gvs@, row as int));
                        }
                    }
                }
                assert(now =~= want);
                assert forall|i: int, g: int|
                    0 <= i < self.cols@.len() && 0 <= g < self.index@.len() implies #[trigger] self.cols@[i].fed@[g] == fed_rows(
                    old(self).cols@[i].rule@,
                    avs[i],
                    fvs[i],
                    keys,
                    self.index@[g].0,
                    old(self).fed(i, self.index@[g].0),
                    row as int,
                ) by {
                    if g < ei.len() {
                        assert(self.index@[g] == ei[g]);
                        assert(self.cols@[i].fed@[g] == fed_i[i][g]);
                    } else {
                        assert(self.cols@[i].fed@ == fed_i[i].push(Seq::empty()));
                        assert(!has_key(ei, key@));
                        grown_holds_exactly_the_keys_seen(e0, keys, row as int, key@);
                        assert(!has_key(e0, key@));
                        assert(old(self).fed(i, key@) == Seq::<Val>::empty());
                        lemma_not_fed(old(self).cols@[i].rule@, avs[i], fvs[i], keys, key@, Seq::empty(), row as int);
                    }
                }
                assert forall|i: int| 0 <= i < args@.len() implies ((#[trigger] args@[i]) matches Some(c) ==> c.wf() && row
                    < c@.len()) by {}
                assert forall|i: int| 0 <= i < filters@.len() implies ((#[trigger] filters@[i]) matches Some(c) ==> c.wf()
                    && row < c@.len()) by {}
                keys_are_distinct(self.index);
            }
            let ghost before = self.cols@;
            match self.feed_row(slot, &args, &filters, row) {
                Err(e) => {
                    proof {
                        let i = choose|i: int|
                            0 <= i < before.len() && #[trigger] step_fails(
                                before[i],
                                avs[i],
                                fvs[i],
                                slot as int,
                                row as int,
                                e.code,
                            );
                        assert(before[i].rule == old(self).cols@[i].rule);
                        assert(before[i].fed@[slot as int] == fed_rows(
                            old(self).cols@[i].rule@,
                            avs[i],
                            fvs[i],
                            keys,
                            key@,
                            old(self).fed(i, key@),
                            row as int,
                        ));
                        assert(batch_fails(
                            old(self).cols@[i].rule@,
                            v.args[i],
                            v.filters[i],
                            keys,
                            old(self).fed(i, keys[row as int]),
                            row as int,
                            e.code,
                        ));
                        assert(0 <= i < old(self).cols@.len() && 0 <= row < batch.rows().len());
                        lemma_row_fails(*old(self), v, n, e.code, i, row as int);
                    }
                    return Err(e);
                },
                Ok(()) => {},
            }
            proof {
                assert forall|g: int| 0 <= g < self.index@.len() implies #[trigger] self.key_row(g) == row_at(self.key_cols@, g) by {}
                assert forall|i: int, g: int|
                    0 <= i < self.cols@.len() && 0 <= g < self.index@.len() implies #[trigger] self.cols@[i].fed@[g] == fed_rows(
                    old(self).cols@[i].rule@,
                    avs[i],
                    fvs[i],
                    keys,
                    self.index@[g].0,
                    old(self).fed(i, self.index@[g].0),
                    row + 1,
                ) by {
                    assert(before[i].fed@.len() == self.index@.len());
                    assert(before[i].fed@[g] == fed_rows(
                        old(self).cols@[i].rule@,
                        avs[i],
                        fvs[i],
                        keys,
                        self.index@[g].0,
                        old(self).fed(i, self.index@[g].0),
                        row as int,
                    ));
                    if g != slot {
                        assert(self.index@[g].0 != self.index@[slot as int].0);
                    }
                }
            }
            row = row + 1;
        }
        proof {
            assert(grows.take(row as int) =~= grows);
            assert(flags.take(row as int) =~= flags);
            keys_are_distinct(self.index);
            assert forall|i: int, k: Seq<u8>|
                0 <= i < self.cols@.len() && has_key(self.index@, k) implies #[trigger] self.fed(i, k) == fed_rows(
                old(self).cols@[i].rule@,
                avs[i],
                fvs[i],
                keys,
                k,
                old(self).fed(i, k),
                n as int,
            ) by {
                let g = entry_of(self.index@, k);
                assert(self.index@[g].0 == k);
                assert(self.cols@[i].fed@[g] == self.fed(i, k));
            }
        }
        if self.mem_used() > MAX_STATE_BYTES {
            return Err(Error::new(Code::Oom));
        }
        Ok(())
    }

    /// The approximate bytes in use.
    fn mem_used(&self) -> (n: u64)
        requires
            self.inv(),
        ensures
            n == self.size(),
    {
        let mut states: u64 = 0;
        let mut i: usize = 0;
        while i < self.cols.len()
            invariant
                self.inv(),
                i <= self.cols@.len(),
                states == states_bytes(self.cols@, i as int),
            decreases self.cols@.len() - i,
        {
            assert(self.cols@[i as int].wf());
            let table: u64 = self.cols[i].table.approx_bytes();
            let tables: u64 = if self.cols[i].rule.dedup && self.cols[i].rule.op == AggOp::Mode {
                table.saturating_add(table)
            } else {
                table
            };
            states = states.saturating_add(self.cols[i].bytes).saturating_add(tables);
            i = i + 1;
        }
        let g: u128 = self.index.len() as u128;
        let c: u128 = self.cols.len() as u128;
        proof {
            assert(g * c <= 0xffff_ffff * 0x1_0000_0000_0000_0000) by (nonlinear_arith)
                requires
                    0 <= g <= 0xffff_ffff,
                    0 <= c <= 0x1_0000_0000_0000_0000,
            ;
        }
        let pairs: u128 = g * c;
        let unit: u128 = STATE_BYTES as u128;
        proof {
            assert(0 <= pairs * unit <= 0x1_0000_0000_0000_0000_0000_0000_0000) by (nonlinear_arith)
                requires
                    0 <= pairs <= 0xffff_ffff * 0x1_0000_0000_0000_0000,
                    unit == 96,
            ;
        }
        let fixed: u128 = pairs * unit;
        let fixed: u64 = if fixed > u64::MAX as u128 {
            u64::MAX
        } else {
            fixed as u64
        };
        self.index.approx_bytes().saturating_add(self.key_bytes).saturating_add(states).saturating_add(fixed)
    }
}

/// Why an aggregate fails at a row of a batch, the group of the row having been fed
/// `start` before the batch.
pub open spec fn batch_fails(
    r: RuleV,
    arg: Option<ColV>,
    filter: Option<ColV>,
    keys: Seq<Seq<u8>>,
    start: Seq<Val>,
    k: int,
    code: Code,
) -> bool {
    ||| agg_state(r, fed_rows(r, arg, filter, keys, keys[k], start, k + 1)) == Err::<StateV, Code>(code)
    ||| arg is None && r.op != AggOp::CountStar && passes(filter, k) && code == Code::Internal
    ||| code == Code::LimitExceeded && passes(filter, k) && told_apart(
        r,
        fed_rows(r, arg, filter, keys, keys[k], start, k),
    )
}

/// As many values have been told apart as can be, some of them having been fed to a group.
pub open spec fn told_apart(r: RuleV, vals: Seq<Val>) -> bool {
    exists|c: AggColumn, g: int|
        #![trigger c.fed@[g]]
        c.wf() && c.rule@ == r && 0 <= g < c.fed@.len() && c.fed@[g] == vals && c.table@.len() >= max_keys()
}

/// Why a batch cannot be taken in: an aggregate fails at one of its rows.
pub open spec fn some_row_fails(h: HashAggregate, v: InputV, n: nat, code: Code) -> bool {
    exists|i: int, k: int|
        0 <= i < h.cols@.len() && 0 <= k < n && #[trigger] batch_fails(
            h.cols@[i].rule@,
            v.args[i],
            v.filters[i],
            col_keys(v.groups, n),
            h.fed(i, col_keys(v.groups, n)[k]),
            k,
            code,
        )
}

proof fn lemma_row_fails(h: HashAggregate, v: InputV, n: nat, code: Code, i: int, k: int)
    requires
        0 <= i < h.cols@.len(),
        0 <= k < n,
        batch_fails(
            h.cols@[i].rule@,
            v.args[i],
            v.filters[i],
            col_keys(v.groups, n),
            h.fed(i, col_keys(v.groups, n)[k]),
            k,
            code,
        ),
    ensures
        some_row_fails(h, v, n, code),
{
}

proof fn lemma_entry(e: Seq<(Seq<u8>, u32)>, g: int)
    requires
        0 <= g < e.len(),
        forall|i: int, j: int| 0 <= i < j < e.len() ==> (#[trigger] e[i]).0 != (#[trigger] e[j]).0,
    ensures
        has_key(e, e[g].0),
        entry_of(e, e[g].0) == g,
{
    assert(e[g].0 == e[g].0);
    let t = entry_of(e, e[g].0);
    assert(e[t].0 == e[g].0);
    if t != g {
        assert(e[if t < g { t } else { g }].0 != e[if t < g { g } else { t }].0);
    }
}

proof fn lemma_having_append(having: Option<ProgramV>, tys: Seq<Ty>, a: Seq<Seq<Val>>, b: Seq<Seq<Val>>)
    ensures
        having_rows(having, tys, a + b) == having_rows(having, tys, a) + having_rows(having, tys, b),
{
    if let Some(p) = having {
        let f = Seq::new(a.len(), |i: int| holds_of(p, tys, a[i]));
        let g = Seq::new(b.len(), |i: int| holds_of(p, tys, b[i]));
        let all = a + b;
        lemma_kept_append(a, b, f, g);
        assert(Seq::new(all.len(), |i: int| holds_of(p, tys, all[i])) =~= f + g);
    }
}

impl HashAggregate {
    /// The input is read through. Without GROUP BY there is a group even if there was no row.
    pub fn finish(&mut self)
        requires
            old(self).inv(),
            old(self).phase == AggPhase::Building,
        ensures
            final(self).inv(),
            final(self).same_query(*old(self)),
            final(self).phase == AggPhase::Emitting,
            final(self).emit_pos == old(self).emit_pos,
            if old(self).groups@.len() == 0 && old(self).index@.len() == 0 {
                &&& final(self).index@.len() == 1
                &&& final(self).index@[0].0 == Seq::<u8>::empty()
                &&& forall|i: int|
                    0 <= i < final(self).cols@.len() ==> (#[trigger] final(self).cols@[i]).fed@ == seq![Seq::<Val>::empty()]
            } else {
                &&& final(self).index == old(self).index
                &&& final(self).cols == old(self).cols
                &&& final(self).key_cols == old(self).key_cols
            },
    {
        if self.groups.len() == 0 && self.index.len() == 0 {
            let none: Vec<Vector> = Vec::new();
            let key: Vec<u8> = Vec::new();
            assert(key@ =~= Seq::<u8>::empty());
            self.open_group(&none, 0, &key);
            proof {
                assert forall|i: int| 0 <= i < self.cols@.len() implies (#[trigger] self.cols@[i]).fed@ == seq![
                    Seq::<Val>::empty(),
                ] by {
                    assert(old(self).cols@[i].fed@.len() == 0);
                    assert(self.cols@[i].fed@ =~= seq![Seq::<Val>::empty()]);
                }
            }
        }
        self.phase = AggPhase::Emitting;
    }

    /// The rows of a range of groups.
    fn chunk(&self, start: usize, end: usize) -> (b: Batch)
        requires
            self.inv(),
            start <= end <= self.index@.len(),
            end - start <= BATCH_SIZE,
        ensures
            b.wf(),
            b.rows() == self.group_rows(start as int, end as int),
            b.types() == self.result_types(),
            b.sel is None,
            b.spec_card() == end - start,
    {
        let n: usize = end - start;
        let total: usize = self.index.len();
        let idx = row_numbers(start, end);
        let mut cols = gather_columns(&self.key_cols, idx.as_slice(), total);
        let ghost keys = cols@;
        let mut i: usize = 0;
        while i < self.cols.len()
            invariant
                self.inv(),
                total == self.index@.len(),
                start <= end <= total,
                n == end - start,
                i <= self.cols@.len(),
                keys.len() == self.key_cols@.len(),
                cols@.len() == keys.len() + i,
                forall|c: int| 0 <= c < keys.len() ==> #[trigger] cols@[c] == keys[c],
                cols_wf(cols@, n as int),
                forall|j: int|
                    0 <= j < i ==> (#[trigger] cols@[keys.len() + j]).ty() == self.out_tys@[j] && forall|k: int|
                        0 <= k < n ==> #[trigger] cols@[keys.len() + j]@[k] == agg_result(
                            self.cols@[j].rule@,
                            self.cols@[j].states@[start + k]@,
                        ),
            decreases self.cols@.len() - i,
        {
            let col: &AggColumn = &self.cols[i];
            assert(self.cols@[i as int].wf() && self.cols@[i as int].fed@.len() == total);
            let mut v = Vector::with_capacity(col.rule.out_ty, n);
            let mut g: usize = start;
            while g < end
                invariant
                    start <= g <= end,
                    end <= col.states@.len(),
                    col.wf(),
                    v.wf(),
                    v.ty() == col.rule.out_ty,
                    v@.len() == g - start,
                    forall|k: int| 0 <= k < g - start ==> #[trigger] v@[k] == agg_result(col.rule@, col.states@[start + k]@),
                decreases end - g,
            {
                assert(acc_ok(*col, g as int));
                v.push_owned(col.states[g].result(&col.rule));
                g = g + 1;
            }
            let ghost before = cols@;
            cols.push(v);
            proof {
                assert forall|j: int|
                    0 <= j < i + 1 implies (#[trigger] cols@[keys.len() + j]).ty() == self.out_tys@[j] && forall|k: int|
                        0 <= k < n ==> #[trigger] cols@[keys.len() + j]@[k] == agg_result(
                            self.cols@[j].rule@,
                            self.cols@[j].states@[start + k]@,
                        ) by {
                    if j < i {
                        assert(cols@[keys.len() + j] == before[keys.len() + j]);
                    }
                }
            }
            i = i + 1;
        }
        let b = Batch::of_columns(cols, n);
        proof {
            assert forall|k: int| 0 <= k < n implies #[trigger] b.rows()[k] == self.group_rows(start as int, end as int)[k] by {
                let row = row_at(cols@, k);
                let want = self.group_row(start + k);
                assert(row_at(keys, k) == row_at(self.key_cols@, idx@[k] as int));
                assert forall|c: int| 0 <= c < row.len() implies row[c] == want[c] by {
                    if c < keys.len() {
                        assert(cols@[c] == keys[c]);
                        assert(row_at(keys, k)[c] == self.key_row(start + k)[c]);
                    } else {
                        let j = c - keys.len();
                        assert(cols@[keys.len() + j]@[k] == agg_result(self.cols@[j].rule@, self.cols@[j].states@[start + k]@));
                    }
                }
                assert(row =~= want);
            }
            assert(b.rows() =~= self.group_rows(start as int, end as int));
            let tys = self.result_types();
            assert forall|c: int| 0 <= c < b.types().len() implies b.types()[c] == tys[c] by {
                if c < keys.len() {
                    assert(cols@[c] == keys[c]);
                } else {
                    let j = c - keys.len();
                    assert(cols@[keys.len() + j].ty() == self.out_tys@[j]);
                }
            }
            assert(b.types() =~= tys);
        }
        b
    }

    /// What is returned once the groups are settled: the next ones for which the HAVING
    /// condition holds.
    pub open spec fn emitted(self, after: HashAggregate, r: Result<Step, Error>) -> bool {
        let having = opt_prog(self.having);
        let tys = self.result_types();
        let from = self.emit_pos as int;
        let to = after.emit_pos as int;
        let total = self.index@.len() as int;
        match r {
            Ok(Step::Ready(b)) => {
                &&& after.phase == AggPhase::Emitting
                &&& from < to <= total
                &&& b.wf()
                &&& b.types() == tys
                &&& 0 < b.rows().len() <= BATCH_SIZE
                &&& b.rows() == having_rows(having, tys, self.group_rows(from, to))
            },
            Ok(Step::Done) => {
                &&& after.phase == AggPhase::Done
                &&& having_rows(having, tys, self.group_rows(from, total)).len() == 0
            },
            Ok(_) => false,
            Err(e) => having matches Some(p) && exists|g: int|
                from <= g < total && program_keep(p, tys, seq![#[trigger] self.group_row(g)]) == Err::<
                    Seq<bool>,
                    Code,
                >(e.code),
        }
    }

    /// The next groups for which the HAVING condition holds, out of at most a batch of
    /// groups. Groups are returned in the order in which they came up.
    pub fn emit(&mut self, vm: &Vm) -> (r: Result<Step, Error>)
        requires
            old(self).inv(),
            old(self).phase == AggPhase::Emitting,
        ensures
            final(self).inv(),
            final(self).same_query(*old(self)),
            final(self).index == old(self).index,
            final(self).cols == old(self).cols,
            final(self).key_cols == old(self).key_cols,
            old(self).emitted(*final(self), r),
    {
        let total: usize = self.index.len();
        let ghost having = opt_prog(self.having);
        let ghost tys = self.result_types();
        let ghost from = self.emit_pos as int;
        proof {
            assert(self.group_rows(from, from) =~= Seq::empty());
        }
        while self.emit_pos < total
            invariant
                self.inv(),
                self.same_query(*old(self)),
                self.index == old(self).index,
                self.cols == old(self).cols,
                self.key_cols == old(self).key_cols,
                self.phase == AggPhase::Emitting,
                total == self.index@.len(),
                having == opt_prog(old(self).having),
                tys == old(self).result_types(),
                from == old(self).emit_pos,
                from <= self.emit_pos <= total,
                having_rows(having, tys, old(self).group_rows(from, self.emit_pos as int)).len() == 0,
            decreases total - self.emit_pos,
        {
            let start: usize = self.emit_pos;
            let end: usize = if total - start < BATCH_SIZE {
                total
            } else {
                start + BATCH_SIZE
            };
            let batch = self.chunk(start, end);
            self.emit_pos = end;
            let ghost rows = old(self).group_rows(start as int, end as int);
            proof {
                assert(batch.rows() =~= rows);
                assert(batch.types() =~= tys);
                lemma_having_append(having, tys, old(self).group_rows(from, start as int), rows);
                assert(old(self).group_rows(from, end as int) =~= old(self).group_rows(from, start as int) + rows);
                assert(having_rows(having, tys, old(self).group_rows(from, end as int)) =~= having_rows(having, tys, rows));
            }
            match &self.having {
                None => {
                    return Ok(Step::Ready(batch));
                },
                Some(h) => {
                    let sel = match vm.eval_filter(h, &batch) {
                        Ok(s) => s,
                        Err(e) => {
                            proof {
                                programs_run_row_by_row(h@, tys, rows, 0);
                                assert(rows[0] == old(self).group_row(start as int));
                                assert(program_keep(h@, tys, seq![old(self).group_row(start as int)]) == Err::<
                                    Seq<bool>,
                                    Code,
                                >(e.code));
                            }
                            return Err(e);
                        },
                    };
                    let ghost keep = program_keep(h@, tys, rows)->Ok_0;
                    proof {
                        assert forall|i: int| 0 <= i < rows.len() implies keep[i] == holds_of(h@, tys, rows[i]) by {
                            programs_run_row_by_row(h@, tys, rows, i);
                        }
                        assert(keep =~= Seq::new(rows.len(), |i: int| holds_of(h@, tys, rows[i])));
                        let ps = crate::vector::phys_rows(batch);
                        let f = |p: u32| row_at(batch.cols@, p as int);
                        assert(batch.rows() =~= ps.map_values(f));
                        crate::vector::lemma_kept_mapped(ps, batch.rows(), f, keep);
                        lemma_kept_subset(rows, keep);
                    }
                    if sel.len() > 0 {
                        let b = Batch { cols: batch.cols, sel: Some(sel), empty_rows: batch.empty_rows };
                        proof {
                            crate::vector::lemma_selected(batch, b, keep);
                        }
                        return Ok(Step::Ready(b));
                    }
                },
            }
        }
        self.phase = AggPhase::Done;
        Ok(Step::Done)
    }
}

spec fn acc_ok(c: AggColumn, g: int) -> bool {
    &&& crate::exec::accum::acc_fits(c.rule@, c.states@[g].acc@)
    &&& c.states@[g].doubles@.len() <= u32::MAX
}

// --- What the rows of batches come to ----------------------------------------------------

/// The groups of the rows of batches, in the order of their first rows.
pub open spec fn groups_in(gs: Seq<ProgramV>, aggs: Seq<AggV>, xs: Seq<Chunk>) -> Seq<(Seq<u8>, u32)>
    decreases xs.len(),
{
    if xs.len() == 0 {
        Seq::empty()
    } else {
        let before = groups_in(gs, aggs, xs.drop_last());
        let c = xs.last();
        match input_of(gs, aggs, c.types, c.rows) {
            Ok(v) => if c.rows.len() > 0 {
                grown(before, col_keys(v.groups, c.rows.len()), c.rows.len() as int)
            } else {
                before
            },
            Err(_) => before,
        }
    }
}

/// The group columns' values in these groups.
pub open spec fn group_keys_in(gs: Seq<ProgramV>, aggs: Seq<AggV>, xs: Seq<Chunk>) -> Seq<Seq<Val>>
    decreases xs.len(),
{
    if xs.len() == 0 {
        Seq::empty()
    } else {
        let before = group_keys_in(gs, aggs, xs.drop_last());
        let c = xs.last();
        let n = c.rows.len();
        match input_of(gs, aggs, c.types, c.rows) {
            Ok(v) => if n > 0 {
                before + kept(
                    rows_of(v.groups, n),
                    fresh_flags(groups_in(gs, aggs, xs.drop_last()), col_keys(v.groups, n)),
                )
            } else {
                before
            },
            Err(_) => before,
        }
    }
}

/// The values that the rows of batches feed to an aggregate in the group with a key.
pub open spec fn fed_by(gs: Seq<ProgramV>, aggs: Seq<AggV>, xs: Seq<Chunk>, i: int, key: Seq<u8>) -> Seq<Val>
    decreases xs.len(),
{
    if xs.len() == 0 {
        Seq::empty()
    } else {
        let prev = xs.drop_last();
        let before = if has_key(groups_in(gs, aggs, prev), key) {
            fed_by(gs, aggs, prev, i, key)
        } else {
            Seq::empty()
        };
        let c = xs.last();
        let n = c.rows.len();
        match input_of(gs, aggs, c.types, c.rows) {
            Ok(v) => if n > 0 {
                fed_rows(rule_of(aggs[i])->0, v.args[i], v.filters[i], col_keys(v.groups, n), key, before, n as int)
            } else {
                before
            },
            Err(_) => before,
        }
    }
}

/// What an aggregate gives on the values fed to it.
pub open spec fn result_of(a: AggV, vals: Seq<Val>) -> Val {
    agg_result(rule_of(a)->0, agg_state(rule_of(a)->0, vals)->Ok_0)
}

/// A row per group: its columns, and what the aggregates give. Without group columns there is
/// one group, even if there are no rows.
pub open spec fn grouped_rows(gs: Seq<ProgramV>, aggs: Seq<AggV>, xs: Seq<Chunk>) -> Seq<Seq<Val>> {
    let index = groups_in(gs, aggs, xs);
    if gs.len() == 0 && index.len() == 0 {
        seq![Seq::new(aggs.len(), |i: int| result_of(aggs[i], Seq::empty()))]
    } else {
        Seq::new(
            index.len(),
            |g: int|
                group_keys_in(gs, aggs, xs)[g] + Seq::new(
                    aggs.len(),
                    |i: int| result_of(aggs[i], fed_by(gs, aggs, xs, i, index[g].0)),
                ),
        )
    }
}

/// The columns' types.
pub open spec fn grouped_types(gs: Seq<ProgramV>, aggs: Seq<AggV>) -> Seq<Ty> {
    Seq::new(gs.len(), |c: int| gs[c].result_ty) + Seq::new(
        aggs.len(),
        |i: int| aggregate_ty(aggs[i].kind, aggs[i].input_ty())->0,
    )
}

/// Groups, and what was fed to them, are those of batches.
pub open spec fn groups_taken(
    gs: Seq<ProgramV>,
    aggs: Seq<AggV>,
    index: Seq<(Seq<u8>, u32)>,
    key_cols: Seq<Vector>,
    cols: Seq<AggColumn>,
    xs: Seq<Chunk>,
) -> bool {
    &&& index == groups_in(gs, aggs, xs)
    &&& Seq::new(index.len(), |g: int| row_at(key_cols, g)) == group_keys_in(gs, aggs, xs)
    &&& forall|i: int, key: Seq<u8>|
        0 <= i < cols.len() && has_key(index, key) ==> #[trigger] fed_before(index, cols[i].fed@, key) == fed_by(
            gs,
            aggs,
            xs,
            i,
            key,
        )
}

/// The estimated bytes of groups and aggregates' states.
pub open spec fn groups_bytes(index: Seq<(Seq<u8>, u32)>, cols: Seq<AggColumn>) -> int {
    sat64(
        sat64(sat64(index_bytes(index) + sat64(key_total(index))) + states_bytes(cols, cols.len() as int)) + sat64(
            index.len() * cols.len() * STATE_BYTES,
        ),
    )
}

/// Why batches cannot be aggregated: the last one's groups or arguments cannot be computed, there are
/// too many groups, an aggregate fails at one of its rows, there are too many bytes, or the HAVING
/// condition fails on a group.
pub open spec fn agg_stuck(
    gs: Seq<ProgramV>,
    aggs: Seq<AggV>,
    having: Option<ProgramV>,
    xs: Seq<Chunk>,
    code: Code,
) -> bool {
    ||| xs.len() > 0 && xs.last().rows.len() > 0 && match input_of(gs, aggs, xs.last().types, xs.last().rows) {
        Err(c) => code == c,
        Ok(v) => {
            let before = xs.drop_last();
            let n = xs.last().rows.len();
            let keys = col_keys(v.groups, n);
            ||| code == Code::LimitExceeded && groups_in(gs, aggs, xs).len() > max_keys()
            ||| exists|i: int, k: int|
                0 <= i < aggs.len() && 0 <= k < n && #[trigger] batch_fails(
                    rule_of(aggs[i])->0,
                    v.args[i],
                    v.filters[i],
                    keys,
                    fed_so_far(gs, aggs, before, i, keys[k]),
                    k,
                    code,
                )
            ||| code == Code::Oom && exists|index: Seq<(Seq<u8>, u32)>, key_cols: Seq<Vector>, cols: Seq<AggColumn>| #[trigger]
                groups_taken(gs, aggs, index, key_cols, cols, xs) && cols_ruled(aggs, cols) && groups_bytes(index, cols)
                    > MAX_STATE_BYTES
        },
    }
    ||| having matches Some(p) && exists|row: Seq<Val>|
        grouped_rows(gs, aggs, xs).contains(row) && #[trigger] program_keep(p, grouped_types(gs, aggs), seq![row]) == Err::<
            Seq<bool>,
            Code,
        >(code)
}

/// Aggregates' states are those of some aggregates.
pub open spec fn cols_ruled(aggs: Seq<AggV>, cols: Seq<AggColumn>) -> bool {
    &&& cols.len() == aggs.len()
    &&& forall|i: int| 0 <= i < cols.len() ==> (#[trigger] cols[i]).wf() && rule_of(aggs[i]) == Some(cols[i].rule@)
}

/// The values fed to an aggregate in the group with a key, if there is one.
pub open spec fn fed_so_far(gs: Seq<ProgramV>, aggs: Seq<AggV>, xs: Seq<Chunk>, i: int, key: Seq<u8>) -> Seq<Val> {
    if has_key(groups_in(gs, aggs, xs), key) {
        fed_by(gs, aggs, xs, i, key)
    } else {
        Seq::empty()
    }
}

impl HashAggregate {
    /// The groups and what was fed to them are those of batches.
    pub open spec fn taken(&self, xs: Seq<Chunk>) -> bool {
        groups_taken(progs_of(self.groups@), aggs_of(self.aggs@), self.index@, self.key_cols@, self.cols@, xs)
    }

    /// The rows still to be returned.
    pub open spec fn rest(&self) -> Seq<Seq<Val>> {
        having_rows(
            opt_prog(self.having),
            self.result_types(),
            self.group_rows(self.emit_pos as int, self.index@.len() as int),
        )
    }

    /// What is returned for batches.
    pub open spec fn meant(&self, xs: Seq<Chunk>) -> Seq<Seq<Val>> {
        let gs = progs_of(self.groups@);
        let aggs = aggs_of(self.aggs@);
        having_rows(opt_prog(self.having), grouped_types(gs, aggs), grouped_rows(gs, aggs, xs))
    }

    /// The groups are those of batches.
    pub open spec fn settled(&self, xs: Seq<Chunk>) -> bool {
        let gs = progs_of(self.groups@);
        let aggs = aggs_of(self.aggs@);
        &&& self.result_types() == grouped_types(gs, aggs)
        &&& self.group_rows(0, self.index@.len() as int) == grouped_rows(gs, aggs, xs)
    }

    /// How what has been returned follows from what came in.
    pub open spec fn accounted(&self) -> bool {
        let xs = self.input.op.returned();
        &&& portions(self.trace@.out, grouped_types(progs_of(self.groups@), aggs_of(self.aggs@)))
        &&& match self.phase {
            AggPhase::Building => {
                &&& self.trace@.out.len() == 0
                &&& self.emit_pos == 0
                &&& self.taken(xs)
                &&& self.size() <= MAX_STATE_BYTES
            },
            AggPhase::Emitting => {
                &&& self.input.op.spent()
                &&& self.settled(xs)
                &&& flat(self.trace@.out) + self.rest() == self.meant(xs)
            },
            AggPhase::Done => self.input.op.spent() && flat(self.trace@.out) == self.meant(xs),
        }
    }
}

proof fn lemma_taken(was: HashAggregate, now: HashAggregate, xs: Seq<Chunk>, c: Chunk)
    requires
        was.inv(),
        now.inv(),
        now.same_query(was),
        was.taken(xs),
        c.rows.len() == 0 ==> now == was,
        c.rows.len() > 0 ==> match input_of(progs_of(was.groups@), aggs_of(was.aggs@), c.types, c.rows) {
            Err(_) => false,
            Ok(v) => consumed(was, now, v, c.rows.len()),
        },
    ensures
        now.taken(xs.push(c)),
{
    let gs = progs_of(was.groups@);
    let aggs = aggs_of(was.aggs@);
    assert(xs.push(c).drop_last() =~= xs);
    assert(Seq::new(now.index@.len(), |g: int| row_at(now.key_cols@, g)) =~= Seq::new(
        now.index@.len(),
        |g: int| now.key_row(g),
    ));
    assert(Seq::new(was.index@.len(), |g: int| row_at(was.key_cols@, g)) =~= Seq::new(
        was.index@.len(),
        |g: int| was.key_row(g),
    ));
    assert forall|i: int, key: Seq<u8>| 0 <= i < now.cols@.len() && has_key(now.index@, key) implies #[trigger] fed_before(
        now.index@,
        now.cols@[i].fed@,
        key,
    ) == fed_by(gs, aggs, xs.push(c), i, key) by {
        assert(now.fed(i, key) == fed_before(now.index@, now.cols@[i].fed@, key));
        assert(rule_of(aggs[i]) == Some(was.cols@[i].rule@));
        if has_key(was.index@, key) {
            assert(was.fed(i, key) == fed_by(gs, aggs, xs, i, key));
        }
    }
}

proof fn lemma_finished(was: HashAggregate, now: HashAggregate, xs: Seq<Chunk>)
    requires
        was.inv(),
        now.inv(),
        now.same_query(was),
        was.taken(xs),
        was.emit_pos == 0,
        now.emit_pos == 0,
        if was.groups@.len() == 0 && was.index@.len() == 0 {
            &&& now.index@.len() == 1
            &&& forall|i: int|
                0 <= i < now.cols@.len() ==> (#[trigger] now.cols@[i]).fed@ == seq![Seq::<Val>::empty()]
        } else {
            &&& now.index == was.index
            &&& now.cols == was.cols
            &&& now.key_cols == was.key_cols
        },
    ensures
        now.rest() == now.meant(xs),
        now.settled(xs),
{
    let gs = progs_of(was.groups@);
    let aggs = aggs_of(was.aggs@);
    let total = now.index@.len() as int;
    let rows = grouped_rows(gs, aggs, xs);
    assert forall|i: int| 0 <= i < aggs.len() implies aggregate_ty(aggs[i].kind, aggs[i].input_ty()) == Some(
        #[trigger] now.out_tys@[i],
    ) by {
        assert(rule_of(aggs[i]) == Some(now.cols@[i].rule@));
        assert(now.cols@[i].wf());
    }
    assert(now.result_types() =~= grouped_types(gs, aggs)) by {
        assert forall|c: int| 0 <= c < gs.len() implies #[trigger] types_of(now.key_cols@)[c] == gs[c].result_ty by {
            assert(now.key_cols@[c].ty() == now.groups@[c].result_ty);
        }
    }
    assert forall|g: int| 0 <= g < total implies #[trigger] now.group_rows(0, total)[g] =~= rows[g] by {
        assert(now.group_rows(0, total)[g] == group_row_of(now.key_cols@, now.cols@, g));
        let alone = was.groups@.len() == 0 && was.index@.len() == 0;
        if !alone {
            assert(Seq::new(was.index@.len(), |g: int| row_at(was.key_cols@, g))[g] == was.key_row(g));
        }
        assert forall|i: int| 0 <= i < aggs.len() implies agg_result(
            #[trigger] now.cols@[i].rule@,
            now.cols@[i].states@[g]@,
        ) == if alone {
            result_of(aggs[i], Seq::empty())
        } else {
            result_of(aggs[i], fed_by(gs, aggs, xs, i, now.index@[g].0))
        } by {
            let col = now.cols@[i];
            assert(col.wf());
            assert(rule_of(aggs[i]) == Some(col.rule@));
            assert(agg_state(col.rule@, col.fed@[g]) == Ok::<StateV, Code>(col.states@[g]@));
            if !alone {
                keys_are_distinct(now.index);
                lemma_entry(now.index@, g);
                assert(was.fed(i, now.index@[g].0) == fed_by(gs, aggs, xs, i, now.index@[g].0));
            }
        }
    }
    assert(now.group_rows(0, total) =~= rows);
}

/// What is still to be returned before and after some rows are.
proof fn lemma_rest(was: HashAggregate, now: HashAggregate)
    requires
        now.same_query(was),
        now.index == was.index,
        now.cols == was.cols,
        now.key_cols == was.key_cols,
        was.emit_pos <= now.emit_pos <= was.index@.len(),
    ensures
        was.rest() == having_rows(
            opt_prog(was.having),
            was.result_types(),
            was.group_rows(was.emit_pos as int, now.emit_pos as int),
        ) + now.rest(),
{
    let a = was.group_rows(was.emit_pos as int, now.emit_pos as int);
    let b = was.group_rows(now.emit_pos as int, was.index@.len() as int);
    lemma_having_append(opt_prog(was.having), was.result_types(), a, b);
    assert(a + b =~= was.group_rows(was.emit_pos as int, was.index@.len() as int));
    assert(b =~= now.group_rows(now.emit_pos as int, now.index@.len() as int));
}

impl HashAggregate {
    /// What has been returned is what the plan gives.
    pub(crate) proof fn lemma_gave(&self, mem: Seq<MemTable>)
        requires
            self.wf(),
        ensures
            self.traced() && self.sound(mem) ==> gave(self.plan(), mem, self.looked(), self.returned(), self.spent()),
            forall|why: Why| #[trigger]
                stops(self.input.op.plan(), mem, self.input.op.looked(), why) ==> stops(self.plan(), mem, self.looked(), why),
            forall|code: Code|
                supplied(self.input, mem) && #[trigger] stuck(self.plan(), self.input.op.returned(), Seq::empty(), code) ==> stops(
                    self.plan(),
                    mem,
                    self.looked(),
                    Why::Failed(code),
                ),
    {
        reveal_with_fuel(gave, 1);
        reveal_with_fuel(stops, 1);
        if self.traced() && self.sound(mem) {
            let p = self.plan();
            let groups = grouped_rows(p->Aggregate_groups, p->Aggregate_aggs, self.input.op.returned());
            assert(groups == grouped_rows(progs_of(self.groups@), aggs_of(self.aggs@), self.input.op.returned()));
            if self.phase == AggPhase::Emitting {
                lemma_begins(flat(self.trace@.out), self.rest(), false);
            } else {
                lemma_begins(flat(self.trace@.out), Seq::empty(), true);
            }
        }
    }
}

/// A batch that could not be taken in is one that cannot be aggregated.
proof fn lemma_consume_stuck(was: HashAggregate, now: HashAggregate, xs: Seq<Chunk>, c: Chunk, code: Code)
    requires
        was.inv(),
        now.inv(),
        now.same_query(was),
        was.taken(xs),
        c.rows.len() > 0,
        match input_of(progs_of(was.groups@), aggs_of(was.aggs@), c.types, c.rows) {
            Err(e) => code == e,
            Ok(v) => {
                ||| code == Code::Oom && now.size() > MAX_STATE_BYTES && consumed(was, now, v, c.rows.len())
                ||| code == Code::LimitExceeded && grown(was.index@, col_keys(v.groups, c.rows.len()), c.rows.len() as int).len()
                    > max_keys()
                ||| some_row_fails(was, v, c.rows.len(), code)
            },
        },
    ensures
        agg_stuck(progs_of(was.groups@), aggs_of(was.aggs@), opt_prog(was.having), xs.push(c), code),
{
    let gs = progs_of(was.groups@);
    let aggs = aggs_of(was.aggs@);
    assert(xs.push(c).drop_last() =~= xs);
    if let Ok(v) = input_of(gs, aggs, c.types, c.rows) {
        let n = c.rows.len();
        let keys = col_keys(v.groups, n);
        if code == Code::Oom && now.size() > MAX_STATE_BYTES && consumed(was, now, v, n) {
            lemma_taken(was, now, xs, c);
            assert(groups_taken(gs, aggs, now.index@, now.key_cols@, now.cols@, xs.push(c)));
            assert(cols_ruled(aggs, now.cols@));
            assert(groups_bytes(now.index@, now.cols@) == now.size());
        } else if some_row_fails(was, v, n, code) {
            let (i, k) = choose|i: int, k: int|
                0 <= i < was.cols@.len() && 0 <= k < n && #[trigger] batch_fails(
                    was.cols@[i].rule@,
                    v.args[i],
                    v.filters[i],
                    keys,
                    was.fed(i, keys[k]),
                    k,
                    code,
                );
            assert(rule_of(aggs[i]) == Some(was.cols@[i].rule@));
            assert(was.fed(i, keys[k]) == fed_so_far(gs, aggs, xs, i, keys[k]));
            assert(batch_fails(
                rule_of(aggs[i])->0,
                v.args[i],
                v.filters[i],
                keys,
                fed_so_far(gs, aggs, xs, i, keys[k]),
                k,
                code,
            ));
        }
    }
}

/// The HAVING condition fails on one of the groups.
proof fn lemma_having_stuck(was: HashAggregate, code: Code)
    requires
        was.inv(),
        was.phase == AggPhase::Emitting,
        was.settled(was.input.op.returned()),
        opt_prog(was.having) matches Some(p) && exists|g: int|
            was.emit_pos <= g < was.index@.len() && program_keep(p, was.result_types(), seq![#[trigger] was.group_row(g)])
                == Err::<Seq<bool>, Code>(code),
    ensures
        agg_stuck(
            progs_of(was.groups@),
            aggs_of(was.aggs@),
            opt_prog(was.having),
            was.input.op.returned(),
            code,
        ),
{
    let p = opt_prog(was.having)->0;
    let g = choose|g: int|
        was.emit_pos <= g < was.index@.len() && program_keep(p, was.result_types(), seq![#[trigger] was.group_row(g)])
            == Err::<Seq<bool>, Code>(code);
    let rows = grouped_rows(progs_of(was.groups@), aggs_of(was.aggs@), was.input.op.returned());
    assert(was.group_rows(0, was.index@.len() as int)[g] == was.group_row(g));
    assert(rows[g] == was.group_row(g));
    assert(rows.contains(was.group_row(g)));
}

impl Operator for HashAggregate {
    open spec fn wf(&self) -> bool {
        &&& self.input.op.wf()
        &&& self.traced() ==> all_taken(self.plan(), self.input.op.returned())
        &&& self.inv()
        &&& self.traced() ==> self.accounted()
    }

    open spec fn plan(&self) -> NodeV {
        NodeV::Aggregate {
            input: Box::new(self.input.op.plan()),
            groups: progs_of(self.groups@),
            aggs: aggs_of(self.aggs@),
            having: opt_prog(self.having),
        }
    }

    open spec fn looked(&self) -> Seq<Look> {
        self.input.op.looked()
    }

    open spec fn traced(&self) -> bool {
        self.trace@.ok && self.input.op.traced()
    }

    open spec fn returned(&self) -> Seq<Chunk> {
        self.trace@.out
    }

    open spec fn spent(&self) -> bool {
        self.phase == AggPhase::Done
    }

    open spec fn sound(&self, mem: Seq<MemTable>) -> bool {
        supplied(self.input, mem)
    }

    #[verifier::rlimit(40)]
    fn next(&mut self, ctx: &mut ExecContext) -> (r: Result<Step, Error>)
        ensures
            answers(
                r,
                *final(ctx),
                final(self).input.said@,
                old(self).traced(),
                final(self).plan(),
                final(self).input.op.returned(),
                Seq::empty(),
            ),
            old(self).phase == AggPhase::Emitting ==> old(self).emitted(*final(self), r),
            old(self).phase == AggPhase::Done ==> r matches Ok(Step::Done),
            r matches Ok(Step::Ready(b)) ==> portion(chunk(b), final(self).result_types()),
    {
        self.input.said = Ghost(Said::Nothing);
        let ghost start = *self;
        let mut fuel: u64 = u64::MAX;
        proof {
            lemma_no_look(self.looked(), ctx.catalog);
        }
        while fuel > 0
            invariant
                self.wf(),
                ctx.wf(),
                ctx.same_data(*old(ctx)),
                looked_on(old(self).looked(), old(ctx).catalog, self.looked(), ctx.catalog),
                ctx.io == old(ctx).io,
                ctx.codec == old(ctx).codec,
                self.input.said@.goes_on(),
                self.input.op.traced() ==> self.input.op.returned().len() + fuel + if self.phase == AggPhase::Building {
                    0int
                } else {
                    1int
                } >= u64::MAX,
                start == (HashAggregate { input: start.input, ..*old(self) }),
                old(self).sound(old(ctx).catalog.mem@) && self.traced() ==> self.sound(old(ctx).catalog.mem@),
                old(self).phase != AggPhase::Building ==> *self == start && fuel == u64::MAX,
                self.groups == old(self).groups,
                self.aggs == old(self).aggs,
                self.having == old(self).having,
                self.trace == old(self).trace,
                self.input.op.plan() == old(self).input.op.plan(),
                self.input.op.traced() <==> old(self).input.op.traced(),
            decreases fuel,
        {
            match self.phase {
                AggPhase::Building => {
                    let ghost before = self.input.op.returned();
                    match self.input.pull(ctx) {
                        Ok(Step::Ready(b)) => {
                            let ghost was = *self;
                            let ghost c = chunk(b);
                            match self.consume(&ctx.vm, &b) {
                                Ok(()) => {
                                    proof {
                                        if self.traced() {
                                            lemma_taken(was, *self, before, chunk(b));
                                            lemma_taken_push(self.plan(), before, chunk(b));
                                        }
                                    }
                                },
                                Err(e) => {
                                    proof {
                                        if old(self).traced() {
                                            lemma_consume_stuck(was, *self, before, c, e.code);
                                        }
                                    }
                                    self.trace = Ghost(lost_trace(self.trace@));
                                    proof {
                                        if old(self).traced() {
                                            assert(self.input.op.returned() == before.push(c));
                                            assert(before.push(c).drop_last() =~= before);
                                            assert(stuck(self.plan(), self.input.op.returned(), Seq::empty(), e.code));
                                        }
                                        self.lemma_gave(old(ctx).catalog.mem@);
                                    }
                                    return Err(e);
                                },
                            }
                        },
                        Ok(Step::Done) => {
                            let ghost was = *self;
                            self.finish();
                            proof {
                                if self.traced() {
                                    lemma_finished(was, *self, self.input.op.returned());
                                    assert(flat(Seq::empty()) + self.rest() =~= self.rest());
                                }
                            }
                        },
                        Ok(other) => {
                            proof {
                                self.lemma_gave(old(ctx).catalog.mem@);
                            }
                            return Ok(other);
                        },
                        Err(e) => {
                            proof {
                                self.lemma_gave(old(ctx).catalog.mem@);
                            }
                            return Err(e);
                        },
                    }
                },
                AggPhase::Emitting => {
                    let ghost was = *self;
                    let r = self.emit(&ctx.vm);
                    assert(old(self).phase == AggPhase::Emitting ==> old(self).emitted(*self, r)) by {
                        assert forall|g: int| #[trigger] was.group_row(g) == group_row_of(was.key_cols@, was.cols@, g) by {}
                        if old(self).phase == AggPhase::Emitting {
                            assert forall|g: int| #[trigger] was.group_row(g) == old(self).group_row(g) by {}
                        }
                    }
                    match &r {
                        Ok(Step::Ready(b)) => {
                            proof {
                                assert(self.meant(self.input.op.returned()) == was.meant(was.input.op.returned()));
                                lemma_rest(was, *self);
                                lemma_flat_push(self.trace@.out, chunk(*b));
                                assert(flat(self.trace@.out) + b.rows() + self.rest() =~= flat(self.trace@.out) + was.rest());
                                if self.traced() {
                                    lemma_portions_push(
                                        self.trace@.out,
                                        grouped_types(progs_of(self.groups@), aggs_of(self.aggs@)),
                                        chunk(*b),
                                    );
                                }
                            }
                            let ghost left = self.rest();
                            self.trace = Ghost(grown_trace(self.trace@, chunk(*b)));
                            assert(self.rest() == left);
                            assert(self.meant(self.input.op.returned()) == was.meant(was.input.op.returned()));
                        },
                        Ok(_) => {
                            assert(self.meant(self.input.op.returned()) == was.meant(was.input.op.returned()));
                            assert(flat(self.trace@.out) + was.rest() =~= flat(self.trace@.out));
                        },
                        Err(e) => {
                            self.trace = Ghost(lost_trace(self.trace@));
                            proof {
                                if old(self).traced() {
                                    lemma_having_stuck(was, e.code);
                                    assert(stuck(self.plan(), self.input.op.returned(), Seq::empty(), e.code));
                                }
                            }
                        },
                    }
                    proof {
                        self.lemma_gave(old(ctx).catalog.mem@);
                    }
                    return r;
                },
                AggPhase::Done => {
                    proof {
                        self.lemma_gave(old(ctx).catalog.mem@);
                    }
                    return Ok(Step::Done);
                },
            }
            fuel = fuel - 1;
        }
        proof {
            if old(self).traced() {
                assert(stuck(self.plan(), self.input.op.returned(), Seq::empty(), Code::LimitExceeded));
            }
            self.lemma_gave(old(ctx).catalog.mem@);
        }
        Err(Error::new(Code::LimitExceeded))
    }
}

} // verus!
