//! `WITH RECURSIVE`: a query repeated on its own new rows until there are none.
//!
//! The anchor is read through first; its rows are the first working table. As long as the
//! working table has rows, the recursive term is run on it, and the rows that are new become
//! the next working table. All rows are returned as they come. With `UNION ALL` every row is
//! new; with `UNION` a row is new if it has not been returned before.
//!
//! A query that would not end runs into a limit: on the number of iterations, on the size of
//! one working table, or on the keys kept to tell rows apart.

use crate::catalog::MemTable;
use crate::error::{Code, Error};
use crate::exec::looks::{added, lemma_beside, lemma_looked_twice, lemma_no_look, lemma_within_none, lemma_within_sum, looked_on, within};
use crate::exec::meaning::{
    first_round, gave, lemma_first_reached, lemma_next_reached, lemma_reached_more, next_round, reached, round_halted,
    stops, supplied, Round, Why,
};
use crate::exec::rowkey::{fresh_flags, grown, has_key, index_bytes, keys_are_distinct, HashIndex};
use crate::exec::sample::{batch_cols, lemma_batch_cols};
use crate::exec::setop::chunk_keys;
use crate::exec::sort::{columns_bytes, columns_size};
use crate::exec::{
    always_supplied, any_set, build_ctx, build_fault, passes_on, said_of, why_of, chunk, fresh_trace, grown_trace, lemma_kept_some, lemma_run_push, lost_trace, note_keys, run, Child, Chunk,
    ExecContext, Look, Operator, Said, Step, Trace,
};
use crate::expr::ColV;
use crate::plan::{planned, Node, NodeV};
use crate::vector::{cols_wf, kept, lemma_kept_step, row_at, Batch, Val, Vector};
use std::rc::Rc;
use vstd::prelude::*;

verus! {

/// How many iterations there may be.
pub const MAX_RECURSIVE_ITERATIONS: u32 = 100_000;

/// The bytes that a working table may use.
pub const MAX_WORKING_BYTES: u64 = 0x1000_0000;

/// The bytes that the keys of the rows returned may use.
pub const MAX_SEEN_BYTES: u64 = 0x400_0000;

#[derive(Clone, Copy, PartialEq, Eq, Structural, Debug)]
pub enum RecursivePhase {
    /// Reading the anchor.
    Anchor,
    /// Reading the recursive term of the current iteration.
    Iterate,
    Done,
}

/// Batches as values.
pub open spec fn chunks_of(bs: Seq<Batch>) -> Seq<Chunk> {
    Seq::new(bs.len(), |i: int| chunk(bs[i]))
}

/// Batches that can be read by row number.
pub open spec fn all_dense(bs: Seq<Batch>) -> bool {
    forall|i: int| 0 <= i < bs.len() ==> (#[trigger] bs[i]).wf() && bs[i].sel is None
}

/// Copies a batch that has no selection.
fn dup_batch(b: &Batch) -> (r: Batch)
    requires
        b.wf(),
        b.sel is None,
    ensures
        r.wf(),
        r.sel is None,
        chunk(r) == chunk(*b),
{
    let n: usize = b.num_rows();
    let mut cols: Vec<Vector> = Vec::new();
    let mut c: usize = 0;
    while c < b.cols.len()
        invariant
            b.wf(),
            n == b.spec_num_rows(),
            c <= b.cols@.len(),
            cols@.len() == c,
            forall|k: int|
                0 <= k < c ==> (#[trigger] cols@[k])@ == b.cols@[k]@ && cols@[k].ty() == b.cols@[k].ty()
                    && cols@[k].wf(),
        decreases b.cols@.len() - c,
    {
        assert(b.cols@[c as int].wf());
        cols.push(b.cols[c].dup());
        c = c + 1;
    }
    assert(cols_wf(cols@, n as int)) by {
        assert forall|k: int| 0 <= k < cols@.len() implies (#[trigger] cols@[k]).wf() && cols@[k]@.len() == n by {
            assert(b.cols@[k]@.len() == n);
        }
    }
    let r = Batch::of_columns(cols, n);
    proof {
        assert(r.types() =~= b.types());
        assert forall|i: int| 0 <= i < n implies #[trigger] r.rows()[i] == b.rows()[i] by {
            assert(row_at(cols@, i) =~= row_at(b.cols@, i));
        }
        assert(r.rows() =~= b.rows());
    }
    r
}

/// Copies batches. Each reference to the working table reads a copy of its own.
pub fn clone_batches(src: &Vec<Batch>) -> (r: Vec<Batch>)
    requires
        all_dense(src@),
    ensures
        all_dense(r@),
        chunks_of(r@) == chunks_of(src@),
{
    let mut r: Vec<Batch> = Vec::new();
    let mut i: usize = 0;
    while i < src.len()
        invariant
            all_dense(src@),
            i <= src@.len(),
            r@.len() == i,
            all_dense(r@),
            forall|k: int| 0 <= k < i ==> chunk(#[trigger] r@[k]) == chunk(src@[k]),
        decreases src@.len() - i,
    {
        r.push(dup_batch(&src[i]));
        i = i + 1;
    }
    assert(chunks_of(r@) =~= chunks_of(src@));
    r
}

// --- The working table ----------------------------------------------------------------

/// Returns the batches of a working table. It is never interrupted.
pub struct WorkingTableScan {
    pub batches: Vec<Batch>,
    /// The next batch to return.
    pub pos: usize,
    /// The working table.
    pub table: Ghost<Seq<Chunk>>,
}

impl WorkingTableScan {
    pub fn new(batches: Vec<Batch>) -> (s: WorkingTableScan)
        requires
            all_dense(batches@),
        ensures
            s.wf(),
            s.pos == 0,
            s.table@ == chunks_of(batches@),
    {
        WorkingTableScan { batches, pos: 0, table: Ghost(chunks_of(batches@)) }
    }
}

impl WorkingTableScan {
    /// What has been returned is what the plan gives.
    pub(crate) proof fn lemma_gave(&self, mem: Seq<MemTable>)
        requires
            self.wf(),
        ensures
            gave(self.plan(), mem, self.looked(), self.returned(), self.spent()),
    {
        reveal_with_fuel(gave, 1);
    }
}

impl Operator for WorkingTableScan {
    open spec fn wf(&self) -> bool {
        &&& self.pos <= self.batches@.len()
        &&& self.table@.len() == self.batches@.len()
        &&& forall|i: int|
            self.pos <= i < self.batches@.len() ==> (#[trigger] self.batches@[i]).wf() && chunk(self.batches@[i])
                == self.table@[i]
    }

    open spec fn plan(&self) -> NodeV {
        NodeV::Working { table: self.table@ }
    }

    open spec fn traced(&self) -> bool {
        true
    }

    open spec fn returned(&self) -> Seq<Chunk> {
        self.table@.take(self.pos as int)
    }

    open spec fn spent(&self) -> bool {
        self.pos == self.table@.len()
    }

    open spec fn sound(&self, mem: Seq<MemTable>) -> bool {
        true
    }

    fn next(&mut self, ctx: &mut ExecContext) -> (r: Result<Step, Error>)
        ensures
            *final(ctx) == *old(ctx),
            final(self).table == old(self).table,
            match r {
                Ok(Step::Ready(b)) => old(self).pos < old(self).table@.len() && chunk(b) == old(self).table@[old(self).pos as int] && final(self).pos == old(self).pos + 1,
                Ok(Step::Done) => old(self).pos == old(self).table@.len() && final(self).pos == old(self).pos,
                _ => false,
            },
    {
        proof {
            lemma_no_look(self.looked(), ctx.catalog);
        }
        if self.pos >= self.batches.len() {
            proof {
                self.lemma_gave(old(ctx).catalog.mem@);
            }
            return Ok(Step::Done);
        }
        let mut b = Batch::rows_only(0);
        let pos: usize = self.pos;
        let ghost before = self.batches@;
        assert(before[pos as int].wf());
        {
            let slot = &mut self.batches[pos];
            std::mem::swap(slot, &mut b);
        }
        self.pos = pos + 1;
        proof {
            assert forall|i: int| self.pos <= i < self.batches@.len() implies (#[trigger] self.batches@[i]).wf() && chunk(
                self.batches@[i],
            ) == self.table@[i] by {
                assert(before[i].wf());
            }
            assert(self.table@.take(pos + 1) =~= self.table@.take(pos as int).push(self.table@[pos as int]));
            self.lemma_gave(old(ctx).catalog.mem@);
        }
        Ok(Step::Ready(b))
    }
}

// --- The recursion --------------------------------------------------------------------

/// The keys of the rows returned, where rows are told apart.
pub type Seen = Option<Seq<(Seq<u8>, u32)>>;

/// The columns of rows.
pub open spec fn chunk_cols(c: Chunk) -> Seq<ColV> {
    Seq::new(
        c.types.len(),
        |k: int| ColV { ty: c.types[k], cells: Seq::new(c.rows.len(), |i: int| c.rows[i][k]) },
    )
}

/// The size of the next working table with some more rows.
pub open spec fn working_bytes(held: int, c: Chunk) -> int {
    columns_bytes(held, chunk_cols(c), c.types.len() as int)
}

/// The new rows of a batch.
pub open spec fn new_rows(seen: Seen, c: Chunk) -> Option<Chunk> {
    match seen {
        None => if c.rows.len() > 0 {
            Some(c)
        } else {
            None
        },
        Some(e) => {
            let fresh = fresh_flags(e, chunk_keys(c));
            if any_set(fresh) {
                Some(Chunk { types: c.types, rows: kept(c.rows, fresh) })
            } else {
                None
            }
        },
    }
}

/// The keys after a batch.
pub open spec fn seen_after(seen: Seen, c: Chunk) -> Seen {
    match seen {
        None => None,
        Some(e) => Some(grown(e, chunk_keys(c), chunk_keys(c).len() as int)),
    }
}

/// What a batch of the anchor or of the recursive term does to the keys and to the size of the
/// next working table, and what is returned of it.
pub open spec fn recursive_step() -> spec_fn((Seen, int), Chunk) -> ((Seen, int), Option<Chunk>) {
    |s: (Seen, int), c: Chunk|
        {
            if c.rows.len() == 0 {
                (s, None)
            } else {
                match new_rows(s.0, c) {
                    None => ((seen_after(s.0, c), s.1), None),
                    Some(x) => ((seen_after(s.0, c), working_bytes(s.1, x)), Some(x)),
                }
            }
        }
}

/// Why the last of some batches of a round cannot be taken in, the keys at its start being `seen`:
/// there are too many keys, or the next working table is too large. (After as many batches as can be
/// counted a round is given up.)
pub open spec fn recursion_stuck(seen: Seen, xs: Seq<Chunk>, code: Code) -> bool {
    ||| code == Code::LimitExceeded && xs.len() + 0x1_0000_0000 >= u64::MAX
    ||| code == Code::Oom && xs.len() > 0 && {
        let s = run(recursive_step(), (seen, 0int), xs.drop_last()).0;
        ||| seen_after(s.0, xs.last()) matches Some(e) && index_bytes(e) > MAX_SEEN_BYTES
        ||| new_rows(s.0, xs.last()) matches Some(x) && working_bytes(s.1, x) > MAX_WORKING_BYTES
    }
}

/// The keys of the rows of batches.
pub open spec fn keys_in(xs: Seq<Chunk>) -> Seq<Seq<u8>>
    decreases xs.len(),
{
    if xs.len() == 0 {
        Seq::empty()
    } else {
        keys_in(xs.drop_last()) + chunk_keys(xs.last())
    }
}

/// The keys of an index.
pub open spec fn indexed(e: Seq<(Seq<u8>, u32)>) -> Seq<Seq<u8>> {
    Seq::new(e.len(), |i: int| e[i].0)
}

pub struct RecursiveCte {
    pub anchor: Child,
    pub recursive_term: Rc<Node>,
    pub union_all: bool,
    pub phase: RecursivePhase,
    /// The recursive term of the current iteration.
    pub current: Option<Child>,
    /// The rows that were new in the last iteration.
    pub working: Vec<Batch>,
    /// The rows that are new in this one.
    pub next_working: Vec<Batch>,
    pub next_working_bytes: u64,
    /// The keys of the rows returned; none with `UNION ALL`.
    pub seen: Option<HashIndex>,
    pub iterations: u32,
    /// The keys at the start of the current iteration.
    pub from: Ghost<Seen>,
    /// The last round that is over.
    pub round: Ghost<Round>,
    /// What the anchor or the recursive term answered last in the current pull.
    pub said: Ghost<Said>,
    /// The looks taken for the anchor and for the recursive term in all iterations.
    pub log: Ghost<Seq<Look>>,
    pub trace: Ghost<Trace>,
}

pub open spec fn seen_of(seen: Option<HashIndex>) -> Seen {
    match seen {
        None => None,
        Some(ix) => Some(ix@),
    }
}

/// The keys of the rows returned at the start.
pub open spec fn first_keys(union_all: bool) -> Seen {
    if union_all {
        None
    } else {
        Some(Seq::empty())
    }
}

impl RecursiveCte {
    pub open spec fn inv(&self) -> bool {
        &&& all_dense(self.working@)
        &&& all_dense(self.next_working@)
        &&& self.seen is None <==> self.union_all
        &&& self.seen matches Some(ix) ==> ix.wf()
        &&& self.iterations <= MAX_RECURSIVE_ITERATIONS
    }

    pub open spec fn same_query(&self, other: RecursiveCte) -> bool {
        &&& self.anchor == other.anchor
        &&& self.recursive_term == other.recursive_term
        &&& self.union_all == other.union_all
    }

    pub fn new(anchor: Child, recursive_term: Rc<Node>, union_all: bool) -> (r: RecursiveCte)
        requires
            anchor.op.wf(),
        ensures
            r.wf(),
            r.anchor == anchor,
            r.recursive_term == recursive_term,
            r.union_all == union_all,
            r.phase == RecursivePhase::Anchor,
            r.working@.len() == 0,
            r.next_working@.len() == 0,
            r.iterations == 0,
            r.from@ == first_keys(union_all),
            r.looked() == anchor.op.looked(),
            r.trace@ == fresh_trace(anchor.op.returned()),
    {
        let seen: Option<HashIndex> = if union_all {
            None
        } else {
            Some(HashIndex::new())
        };
        let r = RecursiveCte {
            anchor,
            recursive_term,
            union_all,
            phase: RecursivePhase::Anchor,
            current: None,
            working: Vec::new(),
            next_working: Vec::new(),
            next_working_bytes: 0,
            seen,
            iterations: 0,
            from: Ghost(seen_of(seen)),
            round: Ghost(first_round(union_all, Seq::empty())),
            said: Ghost(Said::Nothing),
            log: Ghost(anchor.op.looked()),
            trace: Ghost(fresh_trace(anchor.op.returned())),
        };
        proof {
            assert(r.anchor == anchor);
            lemma_within_sum(anchor.op.looked(), Seq::empty());
            assert(anchor.op.looked() + Seq::<Look>::empty() =~= anchor.op.looked());
            assert(chunks_of(r.next_working@) =~= Seq::empty());
            assert(chunks_of(r.working@) + chunks_of(r.next_working@) =~= Seq::empty());
            assert(r.trace@.out.skip(0) =~= Seq::empty());
            if !union_all {
                assert(indexed(r.seen->0@) =~= Seq::empty());
            }
        }
        r
    }

    /// Takes a batch of the anchor or of the recursive term: its new rows are returned, and
    /// put into the next working table. What is too large for it stays counted, so that more is refused as
    /// well.
    pub fn process(&mut self, batch: Batch) -> (r: Result<Option<Batch>, Error>)
        requires
            old(self).inv(),
            batch.wf(),
        ensures
            final(self).inv(),
            final(self).same_query(*old(self)),
            final(self).phase == old(self).phase,
            final(self).current == old(self).current,
            final(self).working == old(self).working,
            final(self).iterations == old(self).iterations,
            final(self).from == old(self).from,
            final(self).round == old(self).round,
            final(self).said == old(self).said,
            final(self).log == old(self).log,
            final(self).trace == old(self).trace,
            ({
                let c = chunk(batch);
                let seen = seen_of(old(self).seen);
                if c.rows.len() == 0 {
                    (r matches Ok(None)) && *final(self) == *old(self)
                } else if (seen_after(seen, c) matches Some(e) && index_bytes(e) > MAX_SEEN_BYTES) {
                    &&& r matches Err(e) && e.code == Code::Oom
                    &&& seen_of(final(self).seen) matches Some(e) && index_bytes(e) > MAX_SEEN_BYTES
                    &&& final(self).next_working == old(self).next_working
                    &&& final(self).next_working_bytes == old(self).next_working_bytes
                } else {
                    &&& seen_of(final(self).seen) == seen_after(seen, c)
                    &&& match new_rows(seen, c) {
                        None => {
                            &&& r matches Ok(None)
                            &&& final(self).next_working == old(self).next_working
                            &&& final(self).next_working_bytes == old(self).next_working_bytes
                        },
                        Some(x) => if working_bytes(old(self).next_working_bytes as int, x) > MAX_WORKING_BYTES {
                            &&& r matches Err(e) && e.code == Code::Oom
                            &&& final(self).next_working == old(self).next_working
                            &&& final(self).next_working_bytes == working_bytes(
                                old(self).next_working_bytes as int,
                                x,
                            )
                        } else {
                            &&& r matches Ok(Some(b)) && b.wf() && b.sel is None && chunk(b) == x
                            &&& chunks_of(final(self).next_working@) == chunks_of(old(self).next_working@).push(x)
                            &&& final(self).next_working_bytes == working_bytes(
                                old(self).next_working_bytes as int,
                                x,
                            )
                        },
                    }
                }
            }),
    {
        let mut flat = batch;
        flat.materialize();
        let n: usize = flat.num_rows();
        assert(batch.rows().len() == n);
        if n == 0 {
            return Ok(None);
        }
        let ghost c = chunk(batch);
        let ghost seen0 = seen_of(self.seen);
        let mut out: Batch = flat;
        if let Some(ix) = &mut self.seen {
            proof {
                lemma_batch_cols(batch, out);
                assert(batch_cols(batch) =~= chunk_cols(c));
                assert(Seq::new(c.types.len(), |k: int| crate::expr::input_col(c.types, c.rows, k)) =~= chunk_cols(c));
            }
            let flags = match note_keys(ix, &out.cols, n, MAX_SEEN_BYTES) {
                Some(f) => f,
                None => {
                    return Err(Error::new(Code::Oom));
                },
            };
            let mut some: bool = false;
            let mut i: usize = 0;
            while i < flags.len()
                invariant
                    i <= flags@.len(),
                    some ==> any_set(flags@),
                    !some ==> forall|j: int| 0 <= j < i ==> !#[trigger] flags@[j],
                decreases flags@.len() - i,
            {
                if flags[i] {
                    some = true;
                }
                i = i + 1;
            }
            if !some {
                return Ok(None);
            }
            out = out.narrowed(&flags);
            out.materialize();
        }
        let ghost x = chunk(out);
        proof {
            lemma_batch_cols(out, out);
            assert(batch_cols(out) =~= chunk_cols(x));
            assert(new_rows(seen0, c) == Some(x));
        }
        let bytes: u64 = columns_size(self.next_working_bytes, &out.cols);
        self.next_working_bytes = bytes;
        if bytes > MAX_WORKING_BYTES {
            return Err(Error::new(Code::Oom));
        }
        let copy = dup_batch(&out);
        let ghost before = self.next_working@;
        self.next_working.push(copy);
        proof {
            assert(chunks_of(self.next_working@) =~= chunks_of(before).push(x));
            assert forall|i: int| 0 <= i < self.next_working@.len() implies (#[trigger] self.next_working@[i]).wf()
                && self.next_working@[i].sel is None by {
                if i < before.len() {
                    assert(before[i].wf());
                }
            }
        }
        Ok(Some(out))
    }

    /// An iteration is over. The new rows become the working table, and if there are any, the
    /// recursive term is set up on them.
    pub fn begin_iteration(&mut self) -> (r: Result<(), Error>)
        requires
            old(self).inv(),
        ensures
            final(self).inv(),
            final(self).same_query(*old(self)),
            final(self).seen == old(self).seen,
            final(self).trace == old(self).trace,
            final(self).working == old(self).next_working,
            final(self).next_working@.len() == 0,
            final(self).next_working_bytes == 0,
            final(self).from@ == seen_of(old(self).seen),
            final(self).round == old(self).round,
            final(self).said == old(self).said,
            final(self).log == old(self).log,
            if old(self).next_working@.len() == 0 {
                r is Ok && final(self).phase == RecursivePhase::Done && final(self).current is None
            } else if old(self).iterations >= MAX_RECURSIVE_ITERATIONS {
                (r matches Err(e) && e.code == Code::RecursionLimitExceeded) && final(self).current is None
                    && final(self).iterations == old(self).iterations
            } else {
                &&& final(self).iterations == old(self).iterations + 1
                &&& match crate::exec::build_fault(*old(self).recursive_term, true) {
                    Some(c) => (r matches Err(e) && e.code == c) && final(self).current is None,
                    None => {
                        &&& r is Ok
                        &&& final(self).phase == RecursivePhase::Iterate
                        &&& final(self).current matches Some(op) && {
                            &&& op.op.wf()
                            &&& op.op.plan() == planned(
                                *old(self).recursive_term,
                                Some(chunks_of(old(self).next_working@)),
                            )
                            &&& op.op.traced()
                            &&& op.op.returned().len() == 0
                            &&& op.op.looked().len() == 0
                            &&& always_supplied(op)
                        }
                    },
                }
            },
    {
        let mut fresh: Vec<Batch> = Vec::new();
        std::mem::swap(&mut fresh, &mut self.next_working);
        self.working = fresh;
        self.next_working_bytes = 0;
        self.current = None;
        self.from = Ghost(seen_of(self.seen));
        if self.working.len() == 0 {
            self.phase = RecursivePhase::Done;
            return Ok(());
        }
        if self.iterations >= MAX_RECURSIVE_ITERATIONS {
            return Err(Error::new(Code::RecursionLimitExceeded));
        }
        self.iterations = self.iterations + 1;
        match build_ctx(&self.recursive_term, Some(&self.working)) {
            Err(e) => Err(e),
            Ok(op) => {
                self.current = Some(op);
                self.phase = RecursivePhase::Iterate;
                Ok(())
            },
        }
    }

    /// What has come from the anchor or the recursive term in the current iteration.
    pub open spec fn source(&self) -> Seq<Chunk> {
        match self.phase {
            RecursivePhase::Anchor => self.anchor.op.returned(),
            RecursivePhase::Iterate => self.current->0.op.returned(),
            RecursivePhase::Done => Seq::empty(),
        }
    }

    /// How what has been returned follows from what came in. The last batches returned are
    /// those of the working table and of the next one. With `UNION`, no row has been returned
    /// twice.
    pub open spec fn accounted(&self) -> bool {
        let last = chunks_of(self.working@) + chunks_of(self.next_working@);
        let out = self.trace@.out;
        &&& run(recursive_step(), (self.from@, 0int), self.source()) == (
            (seen_of(self.seen), self.next_working_bytes as int),
            chunks_of(self.next_working@),
        )
        &&& last.len() <= out.len()
        &&& out.skip(out.len() - last.len()) == last
        &&& self.phase == RecursivePhase::Anchor ==> self.working@.len() == 0 && out == chunks_of(self.next_working@)
        &&& self.phase == RecursivePhase::Anchor ==> self.iterations == 0
        &&& self.phase == RecursivePhase::Iterate ==> self.iterations == self.round@.n + 1
        &&& self.next_working_bytes <= MAX_WORKING_BYTES
        &&& self.seen matches Some(ix) ==> index_bytes(ix@) <= MAX_SEEN_BYTES
        &&& self.phase == RecursivePhase::Iterate ==> self.current is Some && self.anchor.op.spent() && self.current->0.op.plan() == planned(
            *self.recursive_term,
            Some(chunks_of(self.working@)),
        )
        &&& self.phase == RecursivePhase::Done ==> self.anchor.op.spent() && self.working@.len() == 0
        &&& self.seen matches Some(ix) ==> indexed(ix@) == keys_in(out)
    }
}

/// The keys of an index after some were looked up: the new ones are put behind.
pub(crate) proof fn lemma_grown_keys(e: Seq<(Seq<u8>, u32)>, keys: Seq<Seq<u8>>, k: int)
    requires
        0 <= k <= keys.len(),
    ensures
        indexed(grown(e, keys, k)) == indexed(e) + kept(keys.take(k), fresh_flags(e, keys).take(k)),
    decreases k,
{
    let flags = fresh_flags(e, keys);
    if k == 0 {
        assert(keys.take(0) =~= Seq::empty());
        assert(indexed(grown(e, keys, 0)) =~= indexed(e) + kept(keys.take(0), flags.take(0)));
    } else {
        lemma_grown_keys(e, keys, k - 1);
        lemma_kept_step(keys, flags, k - 1);
        let before = grown(e, keys, k - 1);
        assert(flags[k - 1] == !has_key(before, keys[k - 1]));
        if flags[k - 1] {
            assert(indexed(grown(e, keys, k)) =~= indexed(before).push(keys[k - 1]));
        }
        assert(indexed(grown(e, keys, k)) =~= indexed(e) + kept(keys.take(k), flags.take(k)));
    }
}

/// The keys of the rows kept are the keys kept.
proof fn lemma_kept_keys(c: Chunk, flags: Seq<bool>)
    requires
        flags.len() == c.rows.len(),
    ensures
        chunk_keys(Chunk { types: c.types, rows: kept(c.rows, flags) }) == kept(chunk_keys(c), flags),
{
    let f = |row: Seq<Val>|
        crate::exec::rowkey::key_of(
            Seq::new(c.types.len(), |k: int| c.types[k]),
            Seq::new(c.types.len(), |k: int| row[k]),
        );
    assert forall|d: Chunk| d.types == c.types implies #[trigger] chunk_keys(d) =~= d.rows.map_values(f) by {
        assert forall|i: int| 0 <= i < d.rows.len() implies #[trigger] chunk_keys(d)[i] == f(d.rows[i]) by {
            let cols = Seq::new(d.types.len(), |k: int| crate::expr::input_col(d.types, d.rows, k));
            assert(Seq::new(cols.len(), |k: int| cols[k].ty) =~= Seq::new(c.types.len(), |k: int| c.types[k]));
            assert(Seq::new(cols.len(), |k: int| cols[k].cells[i]) =~= Seq::new(c.types.len(), |k: int| d.rows[i][k]));
        }
    }
    let x = Chunk { types: c.types, rows: kept(c.rows, flags) };
    assert(chunk_keys(x) == x.rows.map_values(f));
    assert(chunk_keys(c) == c.rows.map_values(f));
    crate::vector::lemma_kept_mapped(c.rows, chunk_keys(c), f, flags);
}

proof fn lemma_new_keys(e: Seq<(Seq<u8>, u32)>, c: Chunk)
    ensures
        ({
            let after = grown(e, chunk_keys(c), chunk_keys(c).len() as int);
            match new_rows(Some(e), c) {
                Some(x) => indexed(after) == indexed(e) + chunk_keys(x),
                None => indexed(after) == indexed(e),
            }
        }),
{
    let keys = chunk_keys(c);
    let flags = fresh_flags(e, keys);
    lemma_grown_keys(e, keys, keys.len() as int);
    assert(keys.take(keys.len() as int) =~= keys);
    assert(flags.take(keys.len() as int) =~= flags);
    lemma_kept_keys(c, flags);
    lemma_kept_some(keys, flags);
    if !any_set(flags) {
        assert(indexed(e) + kept(keys, flags) =~= indexed(e));
    }
}

/// With `UNION`, no two rows returned have the same key.
pub proof fn union_returns_a_row_once(r: RecursiveCte, i: int, j: int)
    requires
        r.inv(),
        r.accounted(),
        !r.union_all,
        0 <= i < j < keys_in(r.trace@.out).len(),
    ensures
        keys_in(r.trace@.out)[i] != keys_in(r.trace@.out)[j],
{
    let ix = r.seen->0;
    keys_are_distinct(ix);
    assert(indexed(ix@)[i] == ix@[i].0);
    assert(indexed(ix@)[j] == ix@[j].0);
}

/// A batch taken in leaves everything accounted for.
proof fn lemma_step_accounted(was: RecursiveCte, now: RecursiveCte, before: Seq<Chunk>, c: Chunk, x: Option<Chunk>)
    requires
        was.phase != RecursivePhase::Done,
        now.phase == was.phase,
        now.recursive_term == was.recursive_term,
        now.working == was.working,
        now.from == was.from,
        now.source() == before.push(c),
        now.phase == RecursivePhase::Anchor ==> now.iterations == 0,
        now.phase == RecursivePhase::Iterate ==> now.iterations == now.round@.n + 1,
        now.next_working_bytes <= MAX_WORKING_BYTES,
        now.seen matches Some(ix) ==> index_bytes(ix@) <= MAX_SEEN_BYTES,
        now.phase == RecursivePhase::Iterate ==> now.current is Some && now.anchor.op.spent() && now.current->0.op.plan()
            == planned(*now.recursive_term, Some(chunks_of(now.working@))),
        run(recursive_step(), (was.from@, 0int), before) == (
            (seen_of(was.seen), was.next_working_bytes as int),
            chunks_of(was.next_working@),
        ),
        ({
            let last = chunks_of(was.working@) + chunks_of(was.next_working@);
            let out = was.trace@.out;
            &&& last.len() <= out.len()
            &&& out.skip(out.len() - last.len()) == last
            &&& was.phase == RecursivePhase::Anchor ==> was.working@.len() == 0 && out == chunks_of(was.next_working@)
            &&& was.seen matches Some(ix) ==> indexed(ix@) == keys_in(out)
        }),
        c.rows.len() == 0 ==> x is None && now.seen == was.seen && now.next_working == was.next_working
            && now.next_working_bytes == was.next_working_bytes && now.trace == was.trace,
        c.rows.len() > 0 ==> {
            &&& seen_of(now.seen) == seen_after(seen_of(was.seen), c)
            &&& x == new_rows(seen_of(was.seen), c)
            &&& match x {
                None => {
                    &&& now.next_working == was.next_working
                    &&& now.next_working_bytes == was.next_working_bytes
                    &&& now.trace == was.trace
                },
                Some(x) => {
                    &&& chunks_of(now.next_working@) == chunks_of(was.next_working@).push(x)
                    &&& now.next_working_bytes == working_bytes(was.next_working_bytes as int, x)
                    &&& now.trace@.out == was.trace@.out.push(x)
                },
            }
        },
    ensures
        now.accounted(),
{
    lemma_run_push(recursive_step(), (was.from@, 0int), before, c);
    if was.seen is Some && c.rows.len() > 0 {
        lemma_new_keys(was.seen->0@, c);
    }
    if let Some(x) = x {
        let out = was.trace@.out;
        let last = chunks_of(was.working@) + chunks_of(was.next_working@);
        let last2 = chunks_of(now.working@) + chunks_of(now.next_working@);
        assert(last2 =~= last.push(x));
        assert(out.push(x).skip(out.len() - last.len()) =~= out.skip(out.len() - last.len()).push(x));
        assert(out.push(x).drop_last() =~= out);
    }
}

/// A new iteration leaves everything accounted for.
proof fn lemma_iteration_accounted(was: RecursiveCte, now: RecursiveCte)
    requires
        was.accounted(),
        was.phase != RecursivePhase::Done,
        now.recursive_term == was.recursive_term,
        now.anchor.op.spent(),
        now.seen == was.seen,
        now.trace == was.trace,
        now.working == was.next_working,
        now.next_working@.len() == 0,
        now.next_working_bytes == 0,
        now.from@ == seen_of(was.seen),
        if now.phase == RecursivePhase::Done {
            was.next_working@.len() == 0
        } else {
            &&& now.phase == RecursivePhase::Iterate
            &&& now.iterations == now.round@.n + 1
            &&& now.current is Some
            &&& now.current->0.op.returned().len() == 0
            &&& now.current->0.op.plan() == planned(
                *was.recursive_term,
                Some(chunks_of(was.next_working@)),
            )
        },
    ensures
        now.accounted(),
{
    let out = now.trace@.out;
    let w = chunks_of(now.working@);
    let last = chunks_of(was.working@) + w;
    assert(chunks_of(now.next_working@) =~= Seq::empty());
    assert(w + chunks_of(now.next_working@) =~= w);
    assert(last.skip(last.len() - w.len()) =~= w);
    assert(out.skip(out.len() - w.len()) =~= out.skip(out.len() - last.len()).skip(last.len() - w.len()));
    assert(now.source() =~= Seq::empty());
}

impl RecursiveCte {
    pub open spec fn term(&self) -> Node {
        *self.recursive_term
    }

    /// The current round, once it is over.
    pub open spec fn this_round(&self) -> Round {
        match self.phase {
            RecursivePhase::Anchor => first_round(self.union_all, self.anchor.op.returned()),
            _ => next_round(self.round@, self.source()),
        }
    }

    /// A round is one that the recursion comes to.
    pub open spec fn comes_to(&self, mem: Seq<MemTable>, r: Round) -> bool {
        reached(self.anchor.op.plan(), self.term(), self.union_all, mem, self.log@, r)
    }

    /// What has been returned is what the plan gives.
    pub(crate) proof fn lemma_gave(&self, mem: Seq<MemTable>)
        requires
            self.wf(),
        ensures
            self.traced() && self.sound(mem) ==> gave(self.plan(), mem, self.looked(), self.returned(), self.spent()),
            forall|why: Why| #[trigger]
                stops(self.anchor.op.plan(), mem, self.anchor.op.looked(), why) ==> stops(self.plan(), mem, self.looked(), why),
            forall|code: Code|
                supplied(self.anchor, mem) && #[trigger] recursion_stuck(
                    first_keys(self.union_all),
                    self.anchor.op.returned(),
                    code,
                ) ==> stops(self.plan(), mem, self.looked(), Why::Failed(code)),
    {
        reveal_with_fuel(gave, 1);
        reveal_with_fuel(stops, 1);
        if self.traced() && self.sound(mem) {
            let p = self.plan();
            match self.phase {
                RecursivePhase::Anchor => {
                    assert(first_round(p->RecursiveCte_union_all, self.anchor.op.returned()).out == self.trace@.out);
                },
                RecursivePhase::Iterate => {
                    assert(next_round(self.round@, self.current->0.op.returned()).out == self.trace@.out);
                },
                RecursivePhase::Done => {
                    assert(self.round@.is_last());
                },
            }
        }
    }
}

/// A plan stops, with its looks among others.
pub open spec fn stopped_within(plan: NodeV, mem: Seq<MemTable>, looked: Seq<Look>, why: Why) -> bool {
    exists|l: Seq<Look>| #[trigger] within(l, looked) && stops(plan, mem, l, why)
}

/// A recursion stops after a round if the recursive term does, or if its rows cannot be taken in.
proof fn lemma_round_stops(s: RecursiveCte, mem: Seq<MemTable>, r: Round, why: Why)
    requires
        s.comes_to(mem, r),
        !r.is_last(),
        round_halted(s.term(), mem, s.log@, r, why) || stopped_within(planned(s.term(), Some(r.work)), mem, s.log@, why),
    ensures
        stops(s.plan(), mem, s.looked(), why),
{
    reveal_with_fuel(stops, 1);
    let p = s.plan();
    assert(reached(
        *p->RecursiveCte_anchor,
        p->RecursiveCte_recursive_term,
        p->RecursiveCte_union_all,
        mem,
        s.looked(),
        r,
    ));
}

/// A round that is over is one that the recursion comes to.
proof fn lemma_round_reached(was: RecursiveCte, mem: Seq<MemTable>)
    requires
        was.wf(),
        was.traced(),
        was.sound(mem),
        was.phase != RecursivePhase::Done,
        was.phase == RecursivePhase::Anchor ==> was.anchor.op.spent(),
        was.phase == RecursivePhase::Iterate ==> was.current->0.op.spent(),
    ensures
        was.comes_to(mem, was.this_round()),
{
    let anchor = was.anchor.op.plan();
    match was.phase {
        RecursivePhase::Anchor => {
            lemma_first_reached(
                anchor,
                was.term(),
                was.union_all,
                mem,
                was.log@,
                was.anchor.op.looked(),
                was.anchor.op.returned(),
            );
        },
        _ => {
            lemma_next_reached(
                anchor,
                was.term(),
                was.union_all,
                mem,
                was.log@,
                was.round@,
                was.current->0.op.looked(),
                was.source(),
            );
        },
    }
}

/// The end of a round.
#[verifier::rlimit(60)]
proof fn lemma_round_over(was: RecursiveCte, now: RecursiveCte, mem: Seq<MemTable>)
    requires
        was.wf(),
        was.traced(),
        was.sound(mem),
        was.phase != RecursivePhase::Done,
        was.phase == RecursivePhase::Anchor ==> was.anchor.op.spent(),
        was.phase == RecursivePhase::Iterate ==> was.current->0.op.spent(),
        now.same_query(was),
        now.log == was.log,
        now.trace@.out == was.trace@.out,
        now.round@ == was.this_round(),
        now.from@ == seen_of(was.seen),
        now.working == was.next_working,
        now.next_working@.len() == 0,
        if was.next_working@.len() == 0 {
            now.phase == RecursivePhase::Done
        } else {
            now.phase == RecursivePhase::Iterate && (now.current matches Some(c) && supplied(c, mem))
        },
    ensures
        now.sound(mem),
{
    let r = was.this_round();
    assert(chunks_of(now.next_working@) =~= Seq::empty());
    assert(r.out + chunks_of(now.next_working@) =~= r.out);
    lemma_round_reached(was, mem);
    assert(now.comes_to(mem, r));
    assert(r.work =~= chunks_of(was.next_working@));
}

impl Operator for RecursiveCte {
    open spec fn wf(&self) -> bool {
        &&& self.anchor.op.wf()
        &&& self.current matches Some(c) ==> c.op.wf() && within(c.op.looked(), self.log@)
        &&& within(self.anchor.op.looked(), self.log@)
        &&& self.inv()
        &&& self.traced() ==> self.accounted()
    }

    open spec fn plan(&self) -> NodeV {
        NodeV::RecursiveCte {
            anchor: Box::new(self.anchor.op.plan()),
            recursive_term: *self.recursive_term,
            union_all: self.union_all,
        }
    }

    open spec fn looked(&self) -> Seq<Look> {
        self.log@
    }

    open spec fn traced(&self) -> bool {
        &&& self.trace@.ok
        &&& self.anchor.op.traced()
        &&& self.phase == RecursivePhase::Iterate ==> (self.current matches Some(c) && c.op.traced())
    }

    open spec fn returned(&self) -> Seq<Chunk> {
        self.trace@.out
    }

    open spec fn spent(&self) -> bool {
        self.phase == RecursivePhase::Done
    }

    open spec fn sound(&self, mem: Seq<MemTable>) -> bool {
        let r = self.round@;
        &&& supplied(self.anchor, mem)
        &&& match self.phase {
            RecursivePhase::Anchor => self.from@ == first_keys(self.union_all),
            RecursivePhase::Iterate => {
                &&& self.current matches Some(c) ==> supplied(c, mem)
                &&& self.comes_to(mem, r)
                &&& !r.is_last()
                &&& r.seen == self.from@
                &&& r.work == chunks_of(self.working@)
                &&& self.trace@.out == r.out + chunks_of(self.next_working@)
            },
            RecursivePhase::Done => self.comes_to(mem, r) && r.is_last() && self.trace@.out == r.out,
        }
    }

    #[verifier::rlimit(60)]
    fn next(&mut self, ctx: &mut ExecContext) -> (r: Result<Step, Error>)
        ensures
            passes_on(final(self).said@, r, *final(ctx)),
            r matches Err(e) ==> old(self).traced() && final(self).said@ is Batch ==> recursion_stuck(
                final(self).from@,
                final(self).source(),
                e.code,
            ),
            r matches Err(e) ==> old(self).traced() && final(self).said@ is End ==> {
                ||| e.code == Code::RecursionLimitExceeded && final(self).iterations >= MAX_RECURSIVE_ITERATIONS
                ||| build_fault(final(self).term(), true) == Some(e.code)
            },
            r matches Err(_) ==> !(final(self).said@ is Nothing),
            old(self).phase == RecursivePhase::Done ==> r matches Ok(Step::Done),
    {
        self.said = Ghost(Said::Nothing);
        let mut fuel: u64 = u64::MAX;
        proof {
            lemma_no_look(self.looked(), ctx.catalog);
        }
        while fuel > 0
            invariant
                self.wf(),
                ctx.wf(),
                ctx.same_data(*old(ctx)),
                looked_on(old(self).looked(), old(ctx).catalog, self.looked(), ctx.catalog),
                ctx.io == old(ctx).io,
                ctx.codec == old(ctx).codec,
                self.said@.goes_on(),
                fuel < u64::MAX ==> self.said@ is Batch || self.said@ is End,
                self.said@ is End ==> fuel == u64::MAX - 1,
                self.traced() && self.phase != RecursivePhase::Done ==> self.source().len() + fuel + 1 >= u64::MAX,
                old(self).sound(old(ctx).catalog.mem@) && self.traced() ==> self.sound(old(ctx).catalog.mem@),
                old(self).phase == RecursivePhase::Done <==> self.phase == RecursivePhase::Done,
                self.phase == RecursivePhase::Done ==> fuel == u64::MAX && self.trace == old(self).trace,
                self.recursive_term == old(self).recursive_term,
                self.union_all == old(self).union_all,
                self.trace@.out == old(self).trace@.out,
                self.anchor.op.plan() == old(self).anchor.op.plan(),
                self.traced() <==> old(self).traced(),
            decreases MAX_RECURSIVE_ITERATIONS - self.iterations, fuel,
        {
            let ghost before = self.source();
            let ghost pre = *self;
            let ghost mem = old(ctx).catalog.mem@;
            let ghost from = ctx.catalog;
            let step: Result<Step, Error>;
            match self.phase {
                RecursivePhase::Anchor => {
                    step = self.anchor.pull(ctx);
                    self.log = Ghost(added(pre.log@, pre.anchor.op.looked(), self.anchor.op.looked()));
                    proof {
                        lemma_beside(pre.log@, pre.anchor.op.looked(), from, self.anchor.op.looked(), ctx.catalog);
                    }
                },
                RecursivePhase::Iterate => {
                    step = match &mut self.current {
                        Some(c) => c.pull(ctx),
                        None => Err(Error::new(Code::Internal)),
                    };
                    self.log = Ghost(
                        if self.current is Some {
                            added(pre.log@, pre.current->0.op.looked(), self.current->0.op.looked())
                        } else {
                            pre.log@
                        },
                    );
                    proof {
                        if self.current is Some {
                            let was = pre.current->0.op.looked();
                            lemma_beside(pre.log@, was, from, self.current->0.op.looked(), ctx.catalog);
                        } else {
                            lemma_no_look(pre.log@, from);
                        }
                    }
                },
                RecursivePhase::Done => {
                    proof {
                        self.lemma_gave(old(ctx).catalog.mem@);
                    }
                    return Ok(Step::Done);
                },
            }
            self.said = Ghost(said_of(step, *ctx));
            proof {
                lemma_looked_twice(old(self).looked(), old(ctx).catalog, pre.log@, from, self.looked(), ctx.catalog);
                if pre.sound(mem) && pre.phase == RecursivePhase::Iterate {
                    lemma_reached_more(
                        pre.anchor.op.plan(),
                        pre.term(),
                        pre.union_all,
                        mem,
                        pre.log@,
                        self.log@,
                        pre.round@,
                    );
                }
                if old(self).traced() && old(self).sound(mem) && pre.phase == RecursivePhase::Iterate && why_of(step) is Some {
                    lemma_round_stops(*self, mem, self.round@, why_of(step)->0);
                }
            }
            match step {
                Ok(Step::Ready(b)) => {
                    let ghost was = *self;
                    let ghost c = chunk(b);
                    match self.process(b) {
                        Ok(Some(out)) => {
                            self.trace = Ghost(grown_trace(self.trace@, chunk(out)));
                            proof {
                                if self.traced() {
                                    lemma_step_accounted(was, *self, before, c, Some(chunk(out)));
                                }
                            }
                            proof {
                                self.lemma_gave(old(ctx).catalog.mem@);
                            }
                            return Ok(Step::Ready(out));
                        },
                        Ok(None) => {
                            proof {
                                if self.traced() {
                                    lemma_step_accounted(was, *self, before, c, None);
                                }
                            }
                        },
                        Err(e) => {
                            self.trace = Ghost(lost_trace(self.trace@));
                            proof {
                                if old(self).traced() {
                                    assert(self.source() == before.push(c));
                                    assert(before.push(c).drop_last() =~= before);
                                    assert(recursion_stuck(self.from@, self.source(), e.code));
                                    if old(self).sound(mem) {
                                        self.lemma_taken_stops(mem, e.code);
                                    }
                                }
                                self.lemma_gave(old(ctx).catalog.mem@);
                            }
                            return Err(e);
                        },
                    }
                },
                Ok(Step::Done) => {
                    let ghost was = *self;
                    match self.begin_iteration() {
                        Ok(()) => {
                            self.trace = Ghost(Trace { out: self.trace@.out, ok: was.traced() });
                            self.round = Ghost(was.this_round());
                            proof {
                                lemma_within_none(self.log@);
                                if self.current is Some {
                                    assert(self.current->0.op.looked() =~= Seq::empty());
                                }
                                if self.traced() {
                                    lemma_iteration_accounted(was, *self);
                                    if was.sound(old(ctx).catalog.mem@) {
                                        reveal(always_supplied);
                                        lemma_round_over(was, *self, old(ctx).catalog.mem@);
                                    }
                                }
                            }
                            if self.phase == RecursivePhase::Done {
                                proof {
                                    self.lemma_gave(old(ctx).catalog.mem@);
                                }
                                return Ok(Step::Done);
                            }
                            fuel = u64::MAX;
                        },
                        Err(e) => {
                            self.trace = Ghost(lost_trace(self.trace@));
                            proof {
                                if old(self).traced() && old(self).sound(mem) {
                                    lemma_begin_stops(was, mem, e.code);
                                    assert(self.plan() == was.plan());
                                }
                                self.lemma_gave(old(ctx).catalog.mem@);
                            }
                            return Err(e);
                        },
                    }
                },
                Ok(other) => {
                    proof {
                        self.lemma_gave(old(ctx).catalog.mem@);
                    }
                    return Ok(other);
                },
                Err(e) => {
                    proof {
                        self.lemma_gave(old(ctx).catalog.mem@);
                    }
                    return Err(e);
                },
            }
            fuel = fuel - 1;
        }
        proof {
            let mem = old(ctx).catalog.mem@;
            if old(self).traced() && old(self).sound(mem) {
                self.lemma_taken_stops(mem, Code::LimitExceeded);
            }
            self.lemma_gave(old(ctx).catalog.mem@);
        }
        Err(Error::new(Code::LimitExceeded))
    }
}

impl RecursiveCte {
    /// A recursion stops if the rows of the current round cannot be taken in.
    proof fn lemma_taken_stops(&self, mem: Seq<MemTable>, code: Code)
        requires
            self.wf(),
            self.phase != RecursivePhase::Done,
            recursion_stuck(self.from@, self.source(), code),
            self.phase == RecursivePhase::Anchor ==> supplied(self.anchor, mem) && self.from@ == first_keys(self.union_all),
            self.phase == RecursivePhase::Iterate ==> {
                &&& self.current matches Some(c) && supplied(c, mem) && c.op.plan() == planned(
                    self.term(),
                    Some(self.round@.work),
                )
                &&& self.comes_to(mem, self.round@)
                &&& !self.round@.is_last()
                &&& self.round@.seen == self.from@
            },
        ensures
            stops(self.plan(), mem, self.looked(), Why::Failed(code)),
    {
        let p = self.plan();
        if self.phase == RecursivePhase::Anchor {
            reveal_with_fuel(stops, 1);
            assert(gave(
                *p->RecursiveCte_anchor,
                mem,
                self.anchor.op.looked(),
                self.anchor.op.returned(),
                self.anchor.op.spent(),
            ));
        } else {
            let c = self.current->0;
            assert(gave(
                planned(self.term(), Some(self.round@.work)),
                mem,
                c.op.looked(),
                c.op.returned(),
                c.op.spent(),
            ));
            lemma_round_stops(*self, mem, self.round@, Why::Failed(code));
        }
    }
}

/// A recursion stops if the next round cannot be begun.
proof fn lemma_begin_stops(was: RecursiveCte, mem: Seq<MemTable>, code: Code)
    requires
        was.wf(),
        was.traced(),
        was.sound(mem),
        was.phase != RecursivePhase::Done,
        was.phase == RecursivePhase::Anchor ==> was.anchor.op.spent(),
        was.phase == RecursivePhase::Iterate ==> was.current->0.op.spent(),
        was.next_working@.len() > 0,
        (code == Code::RecursionLimitExceeded && was.iterations >= MAX_RECURSIVE_ITERATIONS) || build_fault(was.term(), true)
            == Some(code),
    ensures
        stops(was.plan(), mem, was.looked(), Why::Failed(code)),
{
    let r = was.this_round();
    lemma_round_reached(was, mem);
    assert(r.work =~= chunks_of(was.next_working@));
    lemma_round_stops(was, mem, r, Why::Failed(code));
}

} // verus!
