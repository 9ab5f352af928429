//! Sorting and Top-N.
//!
//! Nothing can be returned before the input is read through, so the rows are
//! buffered, column by column, in the operator; interruptions pass through. With a
//! limit only the best rows seen so far are kept: once the buffer has grown to
//! twice the limit it is cut back.

use crate::catalog::MemTable;
use crate::error::{Code, Error};
use crate::exec::looks::{lemma_no_look, looked_on};
use crate::exec::meaning::{all_taken, begins, gave, lemma_begins, lemma_taken_push, stops, stuck, supplied, Why};
use crate::exec::join::append_all;
use crate::exec::ranking::{
    all_in, arranged, first, keeping_the_first_is_enough, key_cells, key_fits, key_order, key_types,
    keys_are_ordered, lemma_arranged_mapped, lemma_rows_ordered, orders, row_rule, sort_rows,
    KeyedRows, RowOrder,
};
use crate::exec::{
    answers, chunk, flat, fresh_trace, grown_trace, lemma_flat_push, lemma_portions_push, lemma_run_push, lost_trace, portion, portions, run, Chunk, Trace,
    Child, ExecContext, Look, Operator, Said, Step,
};
use crate::expr::{cols_of, program_value, ColV, Vm};
use crate::order::Order;
use crate::plan::{keys_of, NodeV, SortKey, SortKeyV};
use crate::vector::{
    body_bytes, body_size, cols_wf, gather_columns, row_at, row_numbers, sat64, Batch, Ty, Val,
    Vector, BATCH_SIZE,
};
use vstd::prelude::*;

verus! {

/// The bytes that may be buffered.
pub const MAX_BUFFER_BYTES: u64 = 0x1000_0000;

// --- Sizes ----------------------------------------------------------------------------

pub open spec fn some_null(cells: Seq<Val>) -> bool {
    exists|i: int| 0 <= i < cells.len() && #[trigger] cells[i] is Null
}

/// The estimated bytes of a column: its values, and a bit per row if there are NULLs.
pub open spec fn column_bytes(v: ColV) -> int {
    body_bytes(v.ty, v.cells) + if some_null(v.cells) {
        v.cells.len() as int / 8 + 1
    } else {
        0
    }
}

/// The estimated bytes of the first `k` columns, on top of what is held.
pub open spec fn columns_bytes(held: int, cols: Seq<ColV>, k: int) -> int
    decreases k,
{
    if k <= 0 {
        held
    } else {
        sat64(columns_bytes(held, cols, k - 1) + sat64(column_bytes(cols[k - 1])))
    }
}

/// The approximate bytes of one column.
pub fn vector_bytes(v: &Vector) -> (r: u64)
    ensures
        r == sat64(column_bytes(ColV { ty: v.ty(), cells: v@ })),
{
    let body: u64 = body_size(v);
    let n: usize = v.len();
    if v.has_nulls() {
        body.saturating_add(n as u64 / 8 + 1)
    } else {
        body
    }
}

/// The approximate bytes of columns, on top of what is held.
pub fn columns_size(held: u64, cols: &Vec<Vector>) -> (r: u64)
    ensures
        r == columns_bytes(held as int, cols_of(cols@), cols@.len() as int),
{
    let mut r: u64 = held;
    let mut c: usize = 0;
    while c < cols.len()
        invariant
            c <= cols@.len(),
            r == columns_bytes(held as int, cols_of(cols@), c as int),
        decreases cols@.len() - c,
    {
        r = r.saturating_add(vector_bytes(&cols[c]));
        c = c + 1;
        assert(cols_of(cols@)[c - 1] == (ColV { ty: cols@[c - 1].ty(), cells: cols@[c - 1]@ }));
    }
    r
}

// --- Items ----------------------------------------------------------------------------

/// A row and its key cells.
pub type Item = (Seq<Val>, Seq<Val>);

/// The order of rows by their key cells.
pub open spec fn item_rule(ks: Seq<SortKeyV>, tys: Seq<Ty>) -> spec_fn(Item, Item) -> Order {
    |a: Item, b: Item| key_order(ks, tys, a.1, b.1, 0)
}

pub open spec fn item_dom(ks: Seq<SortKeyV>, tys: Seq<Ty>) -> spec_fn(Item) -> bool {
    |a: Item| key_fits(ks.len(), tys, a.1)
}

/// The rows of columns, with the cells of key columns.
pub open spec fn items_of(cols: Seq<Vector>, kcols: Seq<Vector>, n: nat) -> Seq<Item> {
    Seq::new(n, |r: int| (row_at(cols, r), key_cells(cols_of(kcols), r)))
}

/// Items without their keys.
pub open spec fn rows_only(items: Seq<Item>) -> Seq<Seq<Val>> {
    items.map_values(|it: Item| it.0)
}

/// The first items, if there is a limit.
pub open spec fn limited<T>(s: Seq<T>, limit: Option<usize>) -> Seq<T> {
    match limit {
        Some(n) => first(s, n as int),
        None => s,
    }
}

proof fn lemma_items_ordered(ks: Seq<SortKeyV>, tys: Seq<Ty>)
    ensures
        orders(item_rule(ks, tys), item_dom(ks, tys)),
{
    keys_are_ordered(ks, tys);
    let rule = item_rule(ks, tys);
    let dom = item_dom(ks, tys);
    let krule = |a: Seq<Val>, b: Seq<Val>| key_order(ks, tys, a, b, 0);
    let kdom = |a: Seq<Val>| key_fits(ks.len(), tys, a);
    assert(orders(krule, kdom));
    assert forall|a: Item, b: Item| dom(a) && dom(b) implies (#[trigger] rule(b, a)) == rule(a, b).flipped() by {
        assert(kdom(a.1) && kdom(b.1));
        assert(krule(b.1, a.1) == krule(a.1, b.1).flipped());
    }
    assert forall|a: Item, b: Item, c: Item|
        dom(a) && dom(b) && dom(c) && (#[trigger] rule(a, b)) != Order::Greater && (#[trigger] rule(b, c))
            != Order::Greater implies rule(a, c) != Order::Greater && (rule(a, b) == Order::Less || rule(b, c)
        == Order::Less ==> rule(a, c) == Order::Less) by {
        assert(kdom(a.1) && kdom(b.1) && kdom(c.1));
        assert(krule(a.1, b.1) != Order::Greater && krule(b.1, c.1) != Order::Greater);
    }
}

/// Sorting the row numbers sorts the items.
proof fn lemma_items_arranged(
    keys: Seq<SortKey>,
    cols: Seq<Vector>,
    kcols: Seq<Vector>,
    n: nat,
    idx: Seq<u32>,
    order: Seq<u32>,
)
    requires
        n <= u32::MAX,
        idx == Seq::new(n, |k: int| (0 + k) as u32),
        order == arranged(idx, row_rule(keys_of(keys), cols_of(kcols))),
    ensures
        arranged(items_of(cols, kcols, n), item_rule(keys_of(keys), key_types(cols_of(kcols)))) == order.map_values(
            |r: u32| (row_at(cols, r as int), key_cells(cols_of(kcols), r as int)),
        ),
{
    let f = |r: u32| (row_at(cols, r as int), key_cells(cols_of(kcols), r as int));
    let rule = row_rule(keys_of(keys), cols_of(kcols));
    let mapped = item_rule(keys_of(keys), key_types(cols_of(kcols)));
    assert(idx.map_values(f) =~= items_of(cols, kcols, n));
    assert forall|i: int, j: int| 0 <= i < idx.len() && 0 <= j < idx.len() implies mapped(
        f(#[trigger] idx[i]),
        f(#[trigger] idx[j]),
    ) == rule(idx[i], idx[j]) by {}
    lemma_arranged_mapped(idx, f, rule, mapped);
}

// --- The operator -----------------------------------------------------------------------

#[derive(Clone, Copy, PartialEq, Eq, Structural, Debug)]
pub enum SortPhase {
    /// Reading and buffering the input.
    Buffering,
    /// Returning the rows in order.
    Emitting,
    Done,
}

pub struct Sort {
    pub input: Child,
    pub keys: Vec<SortKey>,
    /// How many rows are wanted.
    pub limit: Option<usize>,
    pub phase: SortPhase,
    /// The rows buffered.
    pub cols: Vec<Vector>,
    /// Their sort keys.
    pub key_cols: Vec<Vector>,
    pub rows: usize,
    /// Whether the column types are known.
    pub init: bool,
    /// The order of the rows buffered, once it is settled.
    pub order: Vec<u32>,
    /// The next position in `order`.
    pub pos: usize,
    /// All rows that have come in.
    pub all: Ghost<Seq<Item>>,
    /// The types of the key columns.
    pub key_tys: Ghost<Seq<Ty>>,
    pub trace: Ghost<Trace>,
}

/// What has come in: the rows with their keys, the keys' types, and whether these are known.
pub type Taken = (Seq<Item>, Seq<Ty>, bool);

/// What one batch adds to that.
pub open spec fn sort_step(ks: Seq<SortKeyV>) -> spec_fn(Taken, Chunk) -> (Taken, Option<Chunk>) {
    |s: Taken, c: Chunk|
        {
            match sort_keys_value(ks, c.types, c.rows, ks.len() as int) {
                Err(_) => (s, None),
                Ok(kcols) => (
                    (
                        s.0 + Seq::new(c.rows.len(), |i: int| (c.rows[i], key_cells(kcols, i))),
                        if s.2 {
                            s.1
                        } else {
                            key_types(kcols)
                        },
                        true,
                    ),
                    None,
                ),
            }
        }
}

pub open spec fn sort_taken(ks: Seq<SortKeyV>, xs: Seq<Chunk>) -> Taken {
    run(sort_step(ks), (Seq::empty(), Seq::empty(), false), xs).0
}

/// The rows of batches in order, at most as many as wanted.
pub open spec fn sorted_rows(ks: Seq<SortKeyV>, limit: Option<usize>, xs: Seq<Chunk>) -> Seq<Seq<Val>> {
    let t = sort_taken(ks, xs);
    rows_only(limited(arranged(t.0, item_rule(ks, t.1)), limit))
}

/// A buffer holds what is needed of the rows of batches: all of them or, with a limit, enough to
/// tell which come first.
pub open spec fn sort_held(
    ks: Seq<SortKeyV>,
    limit: Option<usize>,
    xs: Seq<Chunk>,
    cols: Seq<Vector>,
    kcols: Seq<Vector>,
    rows: nat,
) -> bool {
    let t = sort_taken(ks, xs);
    let items = items_of(cols, kcols, rows);
    &&& cols_wf(cols, rows as int)
    &&& cols_wf(kcols, rows as int)
    &&& limit is None ==> items == t.0
    &&& limited(arranged(items, item_rule(ks, t.1)), limit) == limited(arranged(t.0, item_rule(ks, t.1)), limit)
}

/// The estimated bytes of rows and their keys.
pub open spec fn sort_bytes(cols: Seq<Vector>, kcols: Seq<Vector>) -> int {
    columns_bytes(columns_bytes(0, cols_of(cols), cols.len() as int), cols_of(kcols), kcols.len() as int)
}

/// Why the last of some batches cannot be buffered: its keys cannot be computed, its columns are
/// stored otherwise than before, or there are too many rows or bytes.
pub open spec fn sort_stuck(ks: Seq<SortKeyV>, limit: Option<usize>, xs: Seq<Chunk>, code: Code) -> bool {
    xs.len() > 0 && match sort_keys_value(ks, xs.last().types, xs.last().rows, ks.len() as int) {
        Err(c) => code == c,
        Ok(kcols) => {
            let before = xs.drop_last();
            ||| code == Code::Internal && before.len() > 0 && (!storage_agrees(before[0].types, xs.last().types)
                || !storage_agrees(sort_taken(ks, before).1, key_types(kcols)))
            ||| code == Code::LimitExceeded && exists|cols: Seq<Vector>, held: Seq<Vector>, rows: nat| #[trigger]
                sort_held(ks, limit, before, cols, held, rows) && rows + xs.last().rows.len() > u32::MAX
            ||| code == Code::Oom && exists|cols: Seq<Vector>, held: Seq<Vector>, rows: nat| #[trigger]
                sort_held(ks, limit, xs, cols, held, rows) && sort_bytes(cols, held) > MAX_BUFFER_BYTES
        },
    }
}

impl Sort {
    pub open spec fn rule(&self) -> spec_fn(Item, Item) -> Order {
        item_rule(keys_of(self.keys@), self.key_tys@)
    }

    pub open spec fn dom(&self) -> spec_fn(Item) -> bool {
        item_dom(keys_of(self.keys@), self.key_tys@)
    }

    /// The rows to be returned, given what has come in so far.
    pub open spec fn wanted(&self) -> Seq<Item> {
        limited(arranged(self.all@, self.rule()), self.limit)
    }

    /// The rows buffered.
    pub open spec fn items(&self) -> Seq<Item> {
        items_of(self.cols@, self.key_cols@, self.rows as nat)
    }

    /// The rows that are still to be returned.
    pub open spec fn to_come(&self) -> Seq<Seq<Val>> {
        Seq::new((self.order@.len() - self.pos) as nat, |k: int| row_at(self.cols@, self.order@[self.pos + k] as int))
    }

    pub open spec fn inv(&self) -> bool {
        match self.phase {
            SortPhase::Buffering => {
                &&& cols_wf(self.cols@, self.rows as int)
                &&& cols_wf(self.key_cols@, self.rows as int)
                &&& self.rows <= u32::MAX
                &&& self.init ==> self.key_cols@.len() == self.keys@.len() && self.key_tys@ == key_types(
                    cols_of(self.key_cols@),
                )
                &&& !self.init ==> self.rows == 0 && self.all@.len() == 0 && self.cols@.len() == 0
                    && self.key_cols@.len() == 0
                &&& all_in(self.all@, self.dom())
                &&& self.limit is None ==> self.items() == self.all@
                &&& self.limit is Some ==> limited(arranged(self.items(), self.rule()), self.limit) == self.wanted()
                &&& self.limit != Some(0usize)
            },
            SortPhase::Emitting => {
                &&& cols_wf(self.cols@, self.rows as int)
                &&& self.rows <= u32::MAX
                &&& self.limit != Some(0usize)
                &&& self.pos <= self.order@.len()
                &&& forall|k: int| 0 <= k < self.order@.len() ==> #[trigger] self.order@[k] < self.rows
            },
            SortPhase::Done => true,
        }
    }

    pub open spec fn same_query(&self, other: Sort) -> bool {
        &&& self.input == other.input
        &&& self.keys == other.keys
        &&& self.limit == other.limit
        &&& self.trace == other.trace
    }

    /// The estimated bytes buffered.
    pub open spec fn size(&self) -> int {
        columns_bytes(
            columns_bytes(0, cols_of(self.cols@), self.cols@.len() as int),
            cols_of(self.key_cols@),
            self.key_cols@.len() as int,
        )
    }

    pub fn new(input: Child, keys: Vec<SortKey>, limit: Option<usize>) -> (r: Result<Sort, Error>)
        requires
            input.op.wf(),
        ensures
            r matches Ok(s) && {
                &&& s.wf()
                &&& s.input == input
                &&& s.keys == keys
                &&& s.limit == limit
                &&& s.all@.len() == 0
                &&& s.trace@ == fresh_trace(input.op.returned())
                &&& s.phase == if limit == Some(0usize) {
                    SortPhase::Done
                } else {
                    SortPhase::Buffering
                }
            },
    {
        let phase: SortPhase = match limit {
            Some(0) => SortPhase::Done,
            _ => SortPhase::Buffering,
        };
        let s = Sort {
            input,
            keys,
            limit,
            phase,
            cols: Vec::new(),
            key_cols: Vec::new(),
            rows: 0,
            init: false,
            order: Vec::new(),
            pos: 0,
            all: Ghost(Seq::empty()),
            key_tys: Ghost(Seq::empty()),
            trace: Ghost(fresh_trace(input.op.returned())),
        };
        assert(s.input == input);
        assert(s.items() =~= s.all@);
        Ok(s)
    }
}

/// The keys' values on a batch, and the first error if one has none.
pub open spec fn sort_keys_value(ks: Seq<SortKeyV>, tys: Seq<Ty>, rows: Seq<Seq<Val>>, k: int) -> Result<
    Seq<ColV>,
    crate::error::Code,
>
    decreases k,
{
    if k <= 0 {
        Ok(Seq::empty())
    } else {
        match sort_keys_value(ks, tys, rows, k - 1) {
            Err(e) => Err(e),
            Ok(vs) => match program_value(ks[k - 1].expr, tys, rows) {
                Err(e) => Err(e),
                Ok(v) => Ok(vs.push(v)),
            },
        }
    }
}

proof fn lemma_keys_stay_failed(ks: Seq<SortKeyV>, tys: Seq<Ty>, rows: Seq<Seq<Val>>, k: int, n: int)
    requires
        0 <= k <= n,
        sort_keys_value(ks, tys, rows, k) is Err,
    ensures
        sort_keys_value(ks, tys, rows, n) == sort_keys_value(ks, tys, rows, k),
    decreases n - k,
{
    if k < n {
        lemma_keys_stay_failed(ks, tys, rows, k + 1, n);
    }
}

/// Evaluates the expressions of sort keys.
pub fn eval_keys(keys: &Vec<SortKey>, vm: &Vm, batch: &Batch) -> (r: Result<Vec<Vector>, Error>)
    requires
        batch.wf(),
    ensures
        match r {
            Ok(cols) => cols_wf(cols@, batch.spec_card()) && cols@.len() == keys@.len() && sort_keys_value(
                keys_of(keys@),
                batch.types(),
                batch.rows(),
                keys@.len() as int,
            ) == Ok::<Seq<ColV>, Code>(cols_of(cols@)),
            Err(e) => sort_keys_value(keys_of(keys@), batch.types(), batch.rows(), keys@.len() as int) == Err::<
                Seq<ColV>,
                Code,
            >(e.code),
        },
{
    let mut cols: Vec<Vector> = Vec::new();
    let mut k: usize = 0;
    assert(cols_of(cols@) =~= Seq::<ColV>::empty());
    while k < keys.len()
        invariant
            batch.wf(),
            k <= keys@.len(),
            cols@.len() == k,
            cols_wf(cols@, batch.spec_card()),
            sort_keys_value(keys_of(keys@), batch.types(), batch.rows(), k as int) == Ok::<Seq<ColV>, Code>(
                cols_of(cols@),
            ),
        decreases keys@.len() - k,
    {
        match vm.eval(&keys[k].expr, batch) {
            Ok(v) => {
                let ghost before = cols@;
                cols.push(v);
                assert(cols_of(cols@) =~= cols_of(before).push(crate::expr::col_of(v)));
            },
            Err(e) => {
                proof {
                    lemma_keys_stay_failed(
                        keys_of(keys@),
                        batch.types(),
                        batch.rows(),
                        k as int + 1,
                        keys@.len() as int,
                    );
                }
                return Err(e);
            },
        }
        k = k + 1;
    }
    Ok(cols)
}

/// Empty columns of the same types.
pub fn empty_like(cols: &Vec<Vector>) -> (r: Vec<Vector>)
    ensures
        r@.len() == cols@.len(),
        cols_wf(r@, 0),
        forall|c: int| 0 <= c < cols@.len() ==> (#[trigger] r@[c]).ty() == cols@[c].ty(),
{
    let mut r: Vec<Vector> = Vec::new();
    let mut c: usize = 0;
    while c < cols.len()
        invariant
            c <= cols@.len(),
            r@.len() == c,
            cols_wf(r@, 0),
            forall|d: int| 0 <= d < c ==> (#[trigger] r@[d]).ty() == cols@[d].ty(),
        decreases cols@.len() - c,
    {
        r.push(Vector::new(cols[c].ty()));
        c = c + 1;
    }
    r
}

/// Whether columns can be appended to others: there are as many, of the same storage.
pub open spec fn storage_agrees(held: Seq<Ty>, tys: Seq<Ty>) -> bool {
    held.len() == tys.len() && forall|c: int| 0 <= c < tys.len() ==> (#[trigger] held[c]).phys() == tys[c].phys()
}

pub open spec fn types_of(cols: Seq<Vector>) -> Seq<Ty> {
    Seq::new(cols.len(), |c: int| cols[c].ty())
}

/// Whether columns can be appended to others.
pub fn can_append(held: &Vec<Vector>, cols: &Vec<Vector>) -> (r: bool)
    ensures
        r == storage_agrees(types_of(held@), types_of(cols@)),
{
    if held.len() != cols.len() {
        return false;
    }
    let mut c: usize = 0;
    while c < cols.len()
        invariant
            held@.len() == cols@.len(),
            c <= cols@.len(),
            forall|d: int| 0 <= d < c ==> (#[trigger] types_of(held@)[d]).phys() == types_of(cols@)[d].phys(),
        decreases cols@.len() - c,
    {
        if held[c].phys() != cols[c].phys() {
            assert(types_of(held@)[c as int].phys() != types_of(cols@)[c as int].phys());
            return false;
        }
        c = c + 1;
    }
    true
}

impl Sort {
    /// The types that a batch has to agree with: those of the first batch.
    pub open spec fn held_types(&self, tys: Seq<Ty>) -> Seq<Ty> {
        if self.init {
            types_of(self.cols@)
        } else {
            tys
        }
    }

    pub open spec fn held_key_types(&self, tys: Seq<Ty>) -> Seq<Ty> {
        if self.init {
            self.key_tys@
        } else {
            tys
        }
    }

    /// Takes a batch into the buffer, and cuts the buffer back if it has grown past what
    /// the limit calls for.
    pub fn absorb(&mut self, batch: Batch, vm: &Vm) -> (r: Result<(), Error>)
        requires
            old(self).inv(),
            old(self).phase == SortPhase::Buffering,
            batch.wf(),
        ensures
            final(self).inv(),
            final(self).same_query(*old(self)),
            final(self).phase == old(self).phase,
            match sort_keys_value(
                keys_of(old(self).keys@),
                batch.types(),
                batch.rows(),
                old(self).keys@.len() as int,
            ) {
                Err(c) => (r matches Err(e) && e.code == c) && *final(self) == *old(self),
                Ok(kcols) => {
                    let n = batch.rows().len();
                    if batch.types().len() != old(self).held_types(batch.types()).len() {
                        (r matches Err(e) && e.code == Code::Internal) && *final(self) == *old(self)
                    } else if old(self).rows + n > u32::MAX {
                        (r matches Err(e) && e.code == Code::LimitExceeded) && *final(self) == *old(self)
                    } else if !storage_agrees(old(self).held_types(batch.types()), batch.types()) || !storage_agrees(
                        old(self).held_key_types(key_types(kcols)),
                        key_types(kcols),
                    ) {
                        (r matches Err(e) && e.code == Code::Internal) && *final(self) == *old(self)
                    } else {
                        &&& final(self).all@ == old(self).all@ + Seq::new(
                            n,
                            |i: int| (batch.rows()[i], key_cells(kcols, i)),
                        )
                        &&& final(self).key_tys@ == old(self).held_key_types(key_types(kcols))
                        &&& types_of(final(self).cols@) == old(self).held_types(batch.types())
                        &&& final(self).init
                        &&& if final(self).size() > MAX_BUFFER_BYTES {
                            r matches Err(e) && e.code == Code::Oom
                        } else {
                            r is Ok
                        }
                    }
                },
            },
    {
        let mut flat = batch;
        flat.materialize();
        let n: usize = flat.card();
        let kvs = match eval_keys(&self.keys, vm, &flat) {
            Ok(k) => k,
            Err(e) => {
                return Err(e);
            },
        };
        let ghost kcols = cols_of(kvs@);
        proof {
            assert(types_of(flat.cols@) =~= batch.types());
            assert(types_of(kvs@) =~= key_types(kcols));
            assert(types_of(self.key_cols@) =~= key_types(cols_of(self.key_cols@)));
        }
        if self.init && flat.cols.len() != self.cols.len() {
            return Err(Error::new(Code::Internal));
        }
        if n > u32::MAX as usize - self.rows {
            return Err(Error::new(Code::LimitExceeded));
        }
        if self.init && !(can_append(&self.cols, &flat.cols) && can_append(&self.key_cols, &kvs)) {
            return Err(Error::new(Code::Internal));
        }
        let ghost before = *self;
        if !self.init {
            self.cols = empty_like(&flat.cols);
            self.key_cols = empty_like(&kvs);
            self.init = true;
            proof {
                self.key_tys@ = key_types(kcols);
                assert(types_of(self.cols@) =~= types_of(flat.cols@));
                assert(types_of(self.key_cols@) =~= types_of(kvs@));
                assert(key_types(cols_of(self.key_cols@)) =~= key_types(kcols));
                assert(self.items() =~= Seq::empty());
                assert(self.all@ =~= Seq::empty());
            }
        }
        let ghost old_items = self.items();
        let ghost kcols0 = self.key_cols@;
        let ghost cols0 = self.cols@;
        let rows: usize = self.rows;
        proof {
            assert forall|c: int| 0 <= c < kvs@.len() implies (#[trigger] self.key_cols@[c]).ty().phys() == kvs@[c].ty().phys() by {
                assert(types_of(self.key_cols@)[c].phys() == types_of(kvs@)[c].phys());
            }
            assert forall|c: int| 0 <= c < flat.cols@.len() implies (#[trigger] self.cols@[c]).ty().phys() == flat.cols@[c].ty().phys() by {
                assert(types_of(self.cols@)[c].phys() == types_of(flat.cols@)[c].phys());
            }
        }
        append_all(&mut self.key_cols, &kvs, rows, n);
        append_all(&mut self.cols, &flat.cols, rows, n);
        self.rows = rows + n;
        let ghost fresh = Seq::new(n as nat, |i: int| (batch.rows()[i], key_cells(kcols, i)));
        proof {
            let all0 = self.all@;
            self.all@ = all0 + fresh;
            assert(key_types(cols_of(self.key_cols@)) =~= key_types(cols_of(kcols0)));
            assert(types_of(self.cols@) =~= types_of(cols0));
            lemma_appended_items(cols0, kcols0, flat.cols@, kvs@, self.cols@, self.key_cols@, rows as nat, n as nat);
            assert forall|i: int| 0 <= i < n implies #[trigger] fresh[i] == items_of(flat.cols@, kvs@, n as nat)[i] by {
                assert(flat.rows()[i] == batch.rows()[i]);
            }
            assert(fresh =~= items_of(flat.cols@, kvs@, n as nat));
            assert(self.items() == old_items + fresh);
            let ks = keys_of(self.keys@);
            assert(all_in(fresh, self.dom())) by {
                assert forall|i: int| 0 <= i < fresh.len() implies (self.dom())(#[trigger] fresh[i]) by {
                    assert forall|k: int| 0 <= k < ks.len() implies (#[trigger] key_cells(kcols, i)[k]).fits(self.key_tys@[k].phys()) by {
                        assert(kvs@[k].wf());
                        assert(kvs@[k]@[i].fits(kvs@[k].ty().phys()));
                        assert(kcols0[k].ty().phys() == kvs@[k].ty().phys());
                    }
                }
            }
            lemma_items_dom(cols0, kcols0, rows as nat, ks, self.key_tys@);
            lemma_items_ordered(ks, self.key_tys@);
            assert(all_in(self.all@, self.dom())) by {
                assert forall|i: int| 0 <= i < self.all@.len() implies (self.dom())(#[trigger] self.all@[i]) by {
                    if i < all0.len() {
                        assert((self.dom())(all0[i]));
                    } else {
                        assert((self.dom())(fresh[i - all0.len()]));
                    }
                }
            }
            if self.limit is Some {
                let m = self.limit->0 as int;
                keeping_the_first_is_enough(old_items, fresh, m, self.rule(), self.dom());
                keeping_the_first_is_enough(all0, fresh, m, self.rule(), self.dom());
            }
        }
        self.compact();
        if self.buffered_bytes() > MAX_BUFFER_BYTES {
            return Err(Error::new(Code::Oom));
        }
        Ok(())
    }

    /// Cuts the buffer back to the best rows once it holds more than twice the limit, and
    /// more than a batch.
    fn compact(&mut self)
        requires
            old(self).inv(),
            old(self).phase == SortPhase::Buffering,
            old(self).init,
        ensures
            final(self).inv(),
            final(self).same_query(*old(self)),
            final(self).phase == old(self).phase,
            final(self).init,
            final(self).all == old(self).all,
            final(self).key_tys == old(self).key_tys,
            types_of(final(self).cols@) == types_of(old(self).cols@),
    {
        let n: usize = match self.limit {
            Some(n) => n,
            None => {
                return;
            },
        };
        let twice: usize = n.saturating_add(n);
        let cap: usize = if twice > BATCH_SIZE {
            twice
        } else {
            BATCH_SIZE
        };
        if self.rows <= cap {
            return;
        }
        let ghost items0 = self.items();
        let ghost rows0 = self.rows;
        let ghost ks = keys_of(self.keys@);
        let idx = row_numbers(0, self.rows);
        let mut order = self.settled(&idx);
        let ghost sorted = order@;
        order.truncate(n);
        let cols = gather_columns(&self.cols, order.as_slice(), self.rows);
        let key_cols = gather_columns(&self.key_cols, order.as_slice(), self.rows);
        proof {
            lemma_items_arranged(self.keys@, self.cols@, self.key_cols@, rows0 as nat, idx@, sorted);
            lemma_items_ordered(ks, self.key_tys@);
            lemma_items_dom(self.cols@, self.key_cols@, rows0 as nat, ks, self.key_tys@);
            let f = |r: u32| (row_at(self.cols@, r as int), key_cells(cols_of(self.key_cols@), r as int));
            assert(order@ == sorted.take(n as int));
            let now = items_of(cols@, key_cols@, n as nat);
            assert forall|k: int| 0 <= k < n implies #[trigger] now[k] == sorted.map_values(f)[k] by {
                assert(row_at(cols@, k) == row_at(self.cols@, order@[k] as int));
                assert(row_at(key_cols@, k) == row_at(self.key_cols@, order@[k] as int));
                assert(key_cells(cols_of(key_cols@), k) =~= row_at(key_cols@, k));
                assert(key_cells(cols_of(self.key_cols@), order@[k] as int) =~= row_at(self.key_cols@, order@[k] as int));
            }
            assert(now =~= first(arranged(items0, self.rule()), n as int));
            let none = Seq::<Item>::empty();
            keeping_the_first_is_enough(items0, none, n as int, self.rule(), self.dom());
            assert(first(arranged(items0, self.rule()), n as int) + none =~= now);
            assert(items0 + none =~= items0);
            assert(key_types(cols_of(key_cols@)) =~= key_types(cols_of(self.key_cols@)));
            assert(types_of(cols@) =~= types_of(self.cols@));
        }
        self.cols = cols;
        self.key_cols = key_cols;
        self.rows = n;
    }

    /// The row numbers in order.
    fn settled(&self, idx: &Vec<u32>) -> (order: Vec<u32>)
        requires
            self.key_cols@.len() == self.keys@.len(),
            cols_wf(self.key_cols@, self.rows as int),
            forall|k: int| 0 <= k < idx@.len() ==> #[trigger] idx@[k] < self.rows,
        ensures
            order@ == arranged(idx@, row_rule(keys_of(self.keys@), cols_of(self.key_cols@))),
            order@.len() == idx@.len(),
            forall|k: int| 0 <= k < order@.len() ==> #[trigger] order@[k] < self.rows,
    {
        let o = KeyedRows { keys: &self.keys, cols: &self.key_cols, rows: self.rows };
        proof {
            lemma_rows_ordered(o);
            assert forall|i: int| 0 <= i < idx@.len() implies (o.dom())(#[trigger] idx@[i]) by {}
        }
        let order = sort_rows(&o, idx);
        proof {
            assert forall|k: int| 0 <= k < order@.len() implies #[trigger] order@[k] < self.rows by {
                assert((o.dom())(order@[k]));
            }
        }
        order
    }

    /// The approximate bytes buffered.
    fn buffered_bytes(&self) -> (n: u64)
        ensures
            n == self.size(),
    {
        columns_size(columns_size(0, &self.cols), &self.key_cols)
    }

    /// The input is read through: settles the order of the rows to be returned.
    pub fn finish(&mut self)
        requires
            old(self).inv(),
            old(self).phase == SortPhase::Buffering,
        ensures
            final(self).inv(),
            final(self).same_query(*old(self)),
            final(self).phase == SortPhase::Emitting,
            final(self).cols == old(self).cols,
            final(self).to_come() == rows_only(old(self).wanted()),
    {
        let ghost items0 = self.items();
        let ghost want = self.wanted();
        let idx = row_numbers(0, self.rows);
        if !self.init {
            self.phase = SortPhase::Emitting;
            self.order = Vec::new();
            self.pos = 0;
            proof {
                assert(want =~= Seq::empty());
                assert(self.to_come() =~= rows_only(want));
            }
            return;
        }
        let mut order = self.settled(&idx);
        let ghost sorted = order@;
        if let Some(n) = self.limit {
            if order.len() > n {
                order.truncate(n);
            }
        }
        proof {
            lemma_items_arranged(self.keys@, self.cols@, self.key_cols@, self.rows as nat, idx@, sorted);
            let f = |r: u32| (row_at(self.cols@, r as int), key_cells(cols_of(self.key_cols@), r as int));
            assert(arranged(items0, self.rule()) == sorted.map_values(f));
            assert(order@.map_values(f) =~= limited(sorted.map_values(f), self.limit));
            assert(want == order@.map_values(f));
        }
        self.order = order;
        self.pos = 0;
        self.key_cols = Vec::new();
        self.phase = SortPhase::Emitting;
        assert(self.to_come() =~= rows_only(want));
    }

    /// What is returned once the rows are settled: the next of those to come.
    pub open spec fn emitted(self, after: Sort, r: Step) -> bool {
            let left = self.to_come();
            let n = if left.len() < BATCH_SIZE {
                left.len() as int
            } else {
                BATCH_SIZE as int
            };
            match r {
                Step::Ready(b) => {
                    &&& n > 0
                    &&& b.wf()
                    &&& b.types() == types_of(self.cols@)
                    &&& b.rows() == left.take(n)
                    &&& after.phase == SortPhase::Emitting
                    &&& after.to_come() == left.skip(n)
                },
                Step::Done => n == 0 && after.phase == SortPhase::Done,
                _ => false,
            }
    }

    /// The next rows in order, at most a batch of them.
    pub fn emit(&mut self) -> (r: Step)
        requires
            old(self).inv(),
            old(self).phase == SortPhase::Emitting,
        ensures
            final(self).inv(),
            final(self).same_query(*old(self)),
            old(self).emitted(*final(self), r),
            r is Ready ==> final(self).cols == old(self).cols,
    {
        let ghost left = self.to_come();
        if self.pos >= self.order.len() {
            self.phase = SortPhase::Done;
            self.cols = Vec::new();
            self.order = Vec::new();
            return Step::Done;
        }
        let rest: usize = self.order.len() - self.pos;
        let n: usize = if rest < BATCH_SIZE {
            rest
        } else {
            BATCH_SIZE
        };
        let total: usize = self.order.len();
        let mut idx: Vec<u32> = Vec::new();
        let mut k: usize = 0;
        while k < n
            invariant
                k <= n,
                self.pos + n <= total,
                total == self.order@.len(),
                idx@.len() == k,
                forall|j: int| 0 <= j < k ==> (#[trigger] idx@[j]) == self.order@[self.pos + j],
            decreases n - k,
        {
            idx.push(self.order[self.pos + k]);
            k = k + 1;
        }
        let cols = gather_columns(&self.cols, idx.as_slice(), self.rows);
        let b = Batch::of_columns(cols, n);
        self.pos = self.pos + n;
        proof {
            assert(b.rows() =~= left.take(n as int));
            assert(self.to_come() =~= left.skip(n as int));
            assert(b.types() =~= types_of(self.cols@));
        }
        Step::Ready(b)
    }
}

proof fn lemma_appended_items(
    cols: Seq<Vector>,
    kcols: Seq<Vector>,
    more: Seq<Vector>,
    kmore: Seq<Vector>,
    cols2: Seq<Vector>,
    kcols2: Seq<Vector>,
    rows: nat,
    n: nat,
)
    requires
        cols.len() == cols2.len() == more.len(),
        kcols.len() == kcols2.len() == kmore.len(),
        forall|r: int| 0 <= r < rows ==> row_at(cols2, r) == row_at(cols, r),
        forall|r: int| 0 <= r < n ==> row_at(cols2, rows + r) == row_at(more, r),
        forall|r: int| 0 <= r < rows ==> row_at(kcols2, r) == row_at(kcols, r),
        forall|r: int| 0 <= r < n ==> row_at(kcols2, rows + r) == row_at(kmore, r),
    ensures
        items_of(cols2, kcols2, rows + n) == items_of(cols, kcols, rows) + items_of(more, kmore, n),
{
    assert forall|r: int| 0 <= r < rows + n implies #[trigger] items_of(cols2, kcols2, rows + n)[r] == (items_of(
        cols,
        kcols,
        rows,
    ) + items_of(more, kmore, n))[r] by {
        assert(key_cells(cols_of(kcols2), r) =~= row_at(kcols2, r));
        if r < rows {
            assert(key_cells(cols_of(kcols), r) =~= row_at(kcols, r));
        } else {
            assert(key_cells(cols_of(kmore), r - rows) =~= row_at(kmore, r - rows));
            assert(row_at(cols2, rows + (r - rows)) == row_at(more, r - rows));
            assert(row_at(kcols2, rows + (r - rows)) == row_at(kmore, r - rows));
        }
    }
    assert(items_of(cols2, kcols2, rows + n) =~= items_of(cols, kcols, rows) + items_of(more, kmore, n));
}

proof fn lemma_items_dom(cols: Seq<Vector>, kcols: Seq<Vector>, rows: nat, ks: Seq<SortKeyV>, tys: Seq<Ty>)
    requires
        cols_wf(kcols, rows as int),
        kcols.len() == ks.len(),
        tys == key_types(cols_of(kcols)),
    ensures
        all_in(items_of(cols, kcols, rows), item_dom(ks, tys)),
{
    let items = items_of(cols, kcols, rows);
    assert forall|r: int| 0 <= r < items.len() implies (item_dom(ks, tys))(#[trigger] items[r]) by {
        assert forall|k: int| 0 <= k < ks.len() implies (#[trigger] items[r].1[k]).fits(tys[k].phys()) by {
            assert(kcols[k].wf());
            assert(kcols[k]@[r].fits(kcols[k].ty().phys()));
        }
    }
}

/// The types of the columns returned: those of the first batch.
pub open spec fn sort_types(xs: Seq<Chunk>) -> Seq<Ty> {
    xs[0].types
}

/// The keys of the rows of batches fit the keys' types.
pub open spec fn keys_fit(ks: Seq<SortKeyV>, xs: Seq<Chunk>) -> bool {
    let t = sort_taken(ks, xs);
    all_in(t.0, item_dom(ks, t.1))
}

impl Sort {
    /// How what has been returned follows from what came in.
    pub open spec fn accounted(&self) -> bool {
        let xs = self.input.op.returned();
        let want = sorted_rows(keys_of(self.keys@), self.limit, xs);
        &&& portions(self.trace@.out, sort_types(xs))
        &&& match self.phase {
            SortPhase::Buffering => {
                &&& self.trace@.out.len() == 0
                &&& sort_taken(keys_of(self.keys@), xs) == (self.all@, self.key_tys@, self.init)
                &&& self.init ==> xs.len() > 0 && types_of(self.cols@) == xs[0].types
                &&& !self.init ==> xs.len() == 0
                &&& self.size() <= MAX_BUFFER_BYTES
            },
            SortPhase::Emitting => {
                &&& self.input.op.spent()
                &&& flat(self.trace@.out) + self.to_come() == want
                &&& self.to_come().len() > 0 ==> types_of(self.cols@) == sort_types(xs)
                &&& keys_fit(keys_of(self.keys@), xs)
            },
            SortPhase::Done => if self.limit == Some(0usize) {
                self.trace@.out.len() == 0
            } else {
                &&& self.input.op.spent()
                &&& flat(self.trace@.out) == want
                &&& keys_fit(keys_of(self.keys@), xs)
            },
        }
    }
}

impl Sort {
    /// What has been returned is what the plan gives.
    pub(crate) proof fn lemma_gave(&self, mem: Seq<MemTable>)
        requires
            self.wf(),
        ensures
            self.traced() && self.sound(mem) ==> gave(self.plan(), mem, self.looked(), self.returned(), self.spent()),
            forall|why: Why| #[trigger]
                stops(self.input.op.plan(), mem, self.input.op.looked(), why) ==> stops(self.plan(), mem, self.looked(), why),
            forall|code: Code|
                supplied(self.input, mem) && #[trigger] stuck(self.plan(), self.input.op.returned(), Seq::empty(), code) ==> stops(
                    self.plan(),
                    mem,
                    self.looked(),
                    Why::Failed(code),
                ),
    {
        reveal_with_fuel(gave, 1);
        reveal_with_fuel(stops, 1);
        if self.traced() && self.sound(mem) {
            let got = flat(self.trace@.out);
            if self.phase == SortPhase::Emitting {
                lemma_begins(got, self.to_come(), false);
            } else {
                lemma_begins(got, Seq::empty(), true);
            }
            let p = self.plan();
            let want = sorted_rows(p->Sort_keys, p->Sort_limit, self.input.op.returned());
            assert(self.phase == SortPhase::Emitting ==> begins(got, want, false));
            assert(self.phase == SortPhase::Done && self.limit != Some(0usize) ==> begins(got, want, true));
        }
    }
}

impl Sort {
    /// The buffer holds what is needed of what has come in.
    proof fn lemma_held(&self, xs: Seq<Chunk>)
        requires
            self.inv(),
            self.phase == SortPhase::Buffering,
            sort_taken(keys_of(self.keys@), xs).0 == self.all@,
            sort_taken(keys_of(self.keys@), xs).1 == self.key_tys@,
        ensures
            sort_held(keys_of(self.keys@), self.limit, xs, self.cols@, self.key_cols@, self.rows as nat),
            sort_bytes(self.cols@, self.key_cols@) == self.size(),
    {
    }
}

impl Operator for Sort {
    open spec fn wf(&self) -> bool {
        &&& self.input.op.wf()
        &&& self.traced() ==> all_taken(self.plan(), self.input.op.returned())
        &&& self.inv()
        &&& self.traced() ==> self.accounted()
    }

    open spec fn plan(&self) -> NodeV {
        NodeV::Sort {
            input: Box::new(self.input.op.plan()),
            keys: keys_of(self.keys@),
            limit: self.limit,
        }
    }

    open spec fn looked(&self) -> Seq<Look> {
        self.input.op.looked()
    }

    open spec fn traced(&self) -> bool {
        self.trace@.ok && self.input.op.traced()
    }

    open spec fn returned(&self) -> Seq<Chunk> {
        self.trace@.out
    }

    open spec fn spent(&self) -> bool {
        self.phase == SortPhase::Done
    }

    open spec fn sound(&self, mem: Seq<MemTable>) -> bool {
        supplied(self.input, mem)
    }

    fn next(&mut self, ctx: &mut ExecContext) -> (r: Result<Step, Error>)
        ensures
            answers(
                r,
                *final(ctx),
                final(self).input.said@,
                old(self).traced(),
                final(self).plan(),
                final(self).input.op.returned(),
                Seq::empty(),
            ),
            old(self).phase == SortPhase::Emitting ==> (r matches Ok(s) && old(self).emitted(*final(self), s)),
            old(self).phase == SortPhase::Done ==> (r matches Ok(Step::Done)) && *final(ctx) == *old(ctx)
                && final(self).input.op == old(self).input.op,
            r matches Ok(Step::Ready(b)) ==> portion(chunk(b), types_of(final(self).cols@)),
    {
        self.input.said = Ghost(Said::Nothing);
        let ghost start = *self;
        let mut fuel: u64 = u64::MAX;
        proof {
            lemma_no_look(self.looked(), ctx.catalog);
        }
        while fuel > 0
            invariant
                self.wf(),
                ctx.wf(),
                ctx.same_data(*old(ctx)),
                looked_on(old(self).looked(), old(ctx).catalog, self.looked(), ctx.catalog),
                ctx.io == old(ctx).io,
                ctx.codec == old(ctx).codec,
                self.input.said@.goes_on(),
                self.input.op.traced() ==> self.input.op.returned().len() + fuel + if self.phase == SortPhase::Buffering {
                    0int
                } else {
                    1int
                } >= u64::MAX,
                start == (Sort { input: start.input, ..*old(self) }),
                start.input.op == old(self).input.op,
                old(self).sound(old(ctx).catalog.mem@) && self.traced() ==> self.sound(old(ctx).catalog.mem@),
                old(self).phase != SortPhase::Buffering ==> *self == start && *ctx == *old(ctx) && fuel == u64::MAX,
                self.keys == old(self).keys,
                self.limit == old(self).limit,
                self.trace == old(self).trace,
                self.input.op.plan() == old(self).input.op.plan(),
                self.input.op.traced() <==> old(self).input.op.traced(),
            decreases fuel,
        {
            match self.phase {
                SortPhase::Buffering => {
                    let ghost before = self.input.op.returned();
                    match self.input.pull(ctx) {
                        Ok(Step::Ready(b)) => {
                            let ghost c = chunk(b);
                            let ghost was = *self;
                            match self.absorb(b, &ctx.vm) {
                                Ok(()) => {
                                    proof {
                                        if self.traced() && before.len() > 0 {
                                            assert(before.push(c)[0] == before[0]);
                                        }
                                        let init: Taken = (Seq::empty(), Seq::empty(), false);
                                        lemma_run_push(sort_step(keys_of(self.keys@)), init, before, c);
                                        if self.traced() {
                                            lemma_taken_push(self.plan(), before, c);
                                        }
                                    }
                                },
                                Err(e) => {
                                    self.trace = Ghost(lost_trace(self.trace@));
                                    proof {
                                        if old(self).traced() {
                                            assert(self.input.op.returned() == before.push(c));
                                            assert(before.push(c).drop_last() =~= before);
                                            let init: Taken = (Seq::empty(), Seq::empty(), false);
                                            lemma_run_push(sort_step(keys_of(self.keys@)), init, before, c);
                                            was.lemma_held(before);
                                            if e.code == Code::Oom && self.size() > MAX_BUFFER_BYTES {
                                                self.lemma_held(before.push(c));
                                            }
                                            assert(stuck(self.plan(), self.input.op.returned(), Seq::empty(), e.code));
                                        }
                                        self.lemma_gave(old(ctx).catalog.mem@);
                                    }
                                    return Err(e);
                                },
                            }
                        },
                        Ok(Step::Done) => {
                            self.finish();
                            assert(flat(Seq::empty()) + self.to_come() =~= self.to_come());
                        },
                        Ok(other) => {
                            proof {
                                self.lemma_gave(old(ctx).catalog.mem@);
                            }
                            return Ok(other);
                        },
                        Err(e) => {
                            proof {
                                self.lemma_gave(old(ctx).catalog.mem@);
                            }
                            return Err(e);
                        },
                    }
                },
                SortPhase::Emitting => {
                    let ghost left = self.to_come();
                    let step = self.emit();
                    if let Step::Ready(b) = &step {
                        proof {
                            lemma_flat_push(self.trace@.out, chunk(*b));
                            assert(flat(self.trace@.out) + b.rows() + self.to_come() =~= flat(self.trace@.out) + left);
                            if self.traced() {
                                lemma_portions_push(self.trace@.out, sort_types(self.input.op.returned()), chunk(*b));
                            }
                        }
                        self.trace = Ghost(grown_trace(self.trace@, chunk(*b)));
                    } else {
                        assert(flat(self.trace@.out) + left =~= flat(self.trace@.out));
                    }
                    proof {
                        self.lemma_gave(old(ctx).catalog.mem@);
                    }
                    return Ok(step);
                },
                SortPhase::Done => {
                    proof {
                        self.lemma_gave(old(ctx).catalog.mem@);
                    }
                    return Ok(Step::Done);
                },
            }
            fuel = fuel - 1;
        }
        proof {
            if old(self).traced() {
                assert(stuck(self.plan(), self.input.op.returned(), Seq::empty(), Code::LimitExceeded));
            }
            self.lemma_gave(old(ctx).catalog.mem@);
        }
        Err(Error::new(Code::LimitExceeded))
    }
}

} // verus!
