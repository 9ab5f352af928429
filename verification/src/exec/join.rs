//! Hash join and nested-loop join.
//!
//! The right input is the build side: it is read through and indexed by its keys
//! before the first left row is looked at. Without keys every pair of rows is a
//! candidate. A residual predicate decides which candidate pairs are matches, and
//! only then are left and right rows counted as matched.
//!
//! Interruptions pass through: the index, the left batch being probed and the
//! match flags stay in the operator.

use crate::catalog::MemTable;
use crate::error::{Code, Error};
use crate::exec::looks::{added, lemma_beside, lemma_looked_twice, lemma_no_look, lemma_within_sum, looked_on, within};
use crate::exec::meaning::{begins, gave, lemma_begins, stops, stuck, supplied, Why};
use crate::exec::recursive::chunk_cols;
use crate::exec::rowkey::{
    col_keys, column_refs, encode_key, entry_of, has_key, inserting_keeps_other_keys, key_has_null, key_total,
    keys_are_distinct, HashIndex,
};
use crate::exec::joined::{
    all_keyed, all_pairs, busy_ok, has_null_key, hit_in, idle_ok, joined, joined_left, keys_of_chunk,
    left_flags, lemma_all_pending, lemma_begun, lemma_chunk_meant, lemma_keyed_push, lemma_left_flags,
    lemma_lot_done, lemma_own_rest, lemma_owned, lemma_passed_over, lemma_pending_any_flags,
    lemma_right_rest, lemma_tried, lot_of, match_rows, own_rows, pair_passes, right_flags, right_keys_of,
    right_rows, side_of, JoinV,
};
use crate::exec::{
    answers, asks, why_of, chunk, flat, fresh_trace, heard, grown_trace, lemma_flat_push, lemma_wider_portion, lost_trace, portion, wider_portion, Chunk, Trace, any_set,
    lemma_kept_some, Child, ExecContext, Look, Operator, Said, Step,
};
use crate::expr::{
    cols_of, holds_of, opt_prog, program_keep, programs_run_row_by_row, programs_value, progs_of, ColV, Program, ProgramV, Vm,
};
use crate::plan::{JoinKind, NodeV};
use crate::vector::{
    append_column, body_bytes, body_size, cols_wf, gathered, kept, null_vector, row_at, sat64,
    Batch, Ty, Val, Vector, BATCH_SIZE, MAX_ROWS,
};
use vstd::prelude::*;

verus! {

/// The row number that means "none".
pub const NONE: u32 = u32::MAX;

/// How many bytes of the build side may be held.
pub const MAX_BUILD_BYTES: u64 = 0x800_0000;

// --- Keys and chains ----------------------------------------------------------------

/// Whether a row has a NULL in one of the columns.
pub open spec fn null_at(cols: Seq<ColV>, i: int) -> bool {
    exists|c: int| 0 <= c < cols.len() && (#[trigger] cols[c]).cells[i] is Null
}

/// The join key of each row. A key with a NULL in it matches nothing.
pub open spec fn join_keys(cols: Seq<ColV>, n: nat) -> Seq<Option<Seq<u8>>> {
    Seq::new(
        n,
        |i: int|
            if null_at(cols, i) {
                None
            } else {
                Some(col_keys(cols, n)[i])
            },
    )
}

/// The last row before `upto` that has a key.
pub open spec fn last_with(keys: Seq<Option<Seq<u8>>>, upto: int, k: Seq<u8>) -> Option<int>
    decreases upto,
{
    if upto <= 0 {
        None
    } else if keys[upto - 1] == Some(k) {
        Some(upto - 1)
    } else {
        last_with(keys, upto - 1, k)
    }
}

/// The rows before `upto` that have a key, the last one first.
pub open spec fn matches_below(keys: Seq<Option<Seq<u8>>>, upto: int, k: Seq<u8>) -> Seq<int>
    decreases upto,
{
    if upto <= 0 {
        Seq::empty()
    } else if keys[upto - 1] == Some(k) {
        seq![upto - 1] + matches_below(keys, upto - 1, k)
    } else {
        matches_below(keys, upto - 1, k)
    }
}

/// A row number as it is linked in a chain.
pub open spec fn link(o: Option<int>) -> u32 {
    match o {
        Some(r) => r as u32,
        None => NONE,
    }
}

/// The value under a key.
pub open spec fn value_of(e: Seq<(Seq<u8>, u32)>, k: Seq<u8>) -> u32 {
    e[entry_of(e, k)].1
}

/// The index leads from each key to its last row, and each row to the one before it
/// with the same key.
pub open spec fn chained(e: Seq<(Seq<u8>, u32)>, next: Seq<u32>, keys: Seq<Option<Seq<u8>>>, upto: int) -> bool {
    &&& forall|k: Seq<u8>|
        #![trigger has_key(e, k)]
        #![trigger last_with(keys, upto, k)]
        has_key(e, k) <==> last_with(keys, upto, k) is Some
    &&& forall|k: Seq<u8>| #[trigger] has_key(e, k) ==> value_of(e, k) == last_with(keys, upto, k)->0
    &&& forall|i: int|
        0 <= i < upto && (#[trigger] keys[i]) is Some ==> next[i] == link(last_with(keys, i, keys[i]->0))
}

proof fn lemma_last_with(keys: Seq<Option<Seq<u8>>>, upto: int, k: Seq<u8>)
    requires
        upto <= keys.len(),
    ensures
        last_with(keys, upto, k) matches Some(r) ==> 0 <= r < upto && keys[r] == Some(k),
        matches_below(keys, upto, k) == match last_with(keys, upto, k) {
            Some(r) => seq![r] + matches_below(keys, r, k),
            None => Seq::empty(),
        },
    decreases upto,
{
    if upto > 0 && keys[upto - 1] != Some(k) {
        lemma_last_with(keys, upto - 1, k);
    }
}

/// A row is among the matches of a key exactly when it has the key.
pub proof fn matches_are_the_rows_with_the_key(keys: Seq<Option<Seq<u8>>>, upto: int, k: Seq<u8>, r: int)
    requires
        0 <= upto <= keys.len(),
    ensures
        matches_below(keys, upto, k).contains(r) <==> 0 <= r < upto && keys[r] == Some(k),
    decreases upto,
{
    if upto > 0 {
        matches_are_the_rows_with_the_key(keys, upto - 1, k, r);
        let rest = matches_below(keys, upto - 1, k);
        let all = matches_below(keys, upto, k);
        if keys[upto - 1] == Some(k) {
            assert(all[0] == upto - 1);
            if rest.contains(r) {
                let j = choose|j: int| 0 <= j < rest.len() && rest[j] == r;
                assert(all[j + 1] == r);
            }
            if all.contains(r) && r != upto - 1 {
                let j = choose|j: int| 0 <= j < all.len() && all[j] == r;
                assert(rest[j - 1] == r);
            }
        }
    }
}

proof fn lemma_key_set(e: Seq<(Seq<u8>, u32)>, key: Seq<u8>, value: u32, other: Seq<u8>)
    requires
        forall|i: int, j: int| 0 <= i < j < e.len() ==> (#[trigger] e[i]).0 != (#[trigger] e[j]).0,
        has_key(e, key),
    ensures
        ({
            let e2 = e.update(entry_of(e, key), (key, value));
            &&& has_key(e2, other) <==> has_key(e, other)
            &&& has_key(e, other) ==> value_of(e2, other) == if other == key {
                value
            } else {
                value_of(e, other)
            }
        }),
{
    let at = entry_of(e, key);
    assert(e[at].0 == key);
    let e2 = e.update(at, (key, value));
    assert forall|i: int| 0 <= i < e.len() implies (#[trigger] e2[i]).0 == e[i].0 by {}
    if has_key(e, other) {
        let i = entry_of(e, other);
        assert(e2[i].0 == other);
        let j = entry_of(e2, other);
        assert(e2[j].0 == other && e[j].0 == other);
        assert(i == j);
        if other == key {
            assert(i == at);
        }
    }
    if has_key(e2, other) {
        let j = entry_of(e2, other);
        assert(e[j].0 == other);
    }
}

/// One more row put at the head of its key's chain.
proof fn lemma_chain_row(
    e: Seq<(Seq<u8>, u32)>,
    e2: Seq<(Seq<u8>, u32)>,
    next: Seq<u32>,
    next2: Seq<u32>,
    keys: Seq<Option<Seq<u8>>>,
    upto: int,
    key: Seq<u8>,
    prev: Option<u32>,
)
    requires
        chained(e, next, keys, upto),
        0 <= upto < keys.len(),
        upto < NONE,
        keys[upto] == Some(key),
        forall|i: int, j: int| 0 <= i < j < e.len() ==> (#[trigger] e[i]).0 != (#[trigger] e[j]).0,
        match prev {
            Some(p) => has_key(e, key) && p == value_of(e, key) && e2 == e.update(entry_of(e, key), (key, upto as u32)),
            None => !has_key(e, key) && e2 == e.push((key, upto as u32)),
        },
        next2 == next.update(upto, match prev {
            Some(p) => p,
            None => NONE,
        }),
        upto < next.len(),
    ensures
        chained(e2, next2, keys, upto + 1),
{
    assert forall|k: Seq<u8>|
        #![trigger has_key(e2, k)]
        #![trigger last_with(keys, upto + 1, k)]
        (has_key(e2, k) <==> last_with(keys, upto + 1, k) is Some) && (has_key(e2, k) ==> value_of(e2, k) == last_with(
            keys,
            upto + 1,
            k,
        )->0) by {
        match prev {
            Some(p) => {
                lemma_key_set(e, key, upto as u32, k);
            },
            None => {
                if k != key {
                    inserting_keeps_other_keys(e, key, upto as u32, k);
                } else {
                    assert(e2[e.len() as int].0 == key);
                    let j = entry_of(e2, key);
                    assert(e2[j].0 == key);
                    if j < e.len() {
                        assert(e[j].0 == key);
                    }
                }
            },
        }
        assert(has_key(e, k) <==> last_with(keys, upto, k) is Some);
    }
    assert forall|i: int| 0 <= i < upto + 1 && (#[trigger] keys[i]) is Some implies next2[i] == link(
        last_with(keys, i, keys[i]->0),
    ) by {
        if i == upto {
            assert(has_key(e, key) <==> last_with(keys, upto, key) is Some);
        }
    }
}

proof fn lemma_same_prefix(a: Seq<Option<Seq<u8>>>, b: Seq<Option<Seq<u8>>>, upto: int, k: Seq<u8>)
    requires
        0 <= upto <= a.len(),
        upto <= b.len(),
        forall|i: int| 0 <= i < upto ==> a[i] == b[i],
    ensures
        last_with(a, upto, k) == last_with(b, upto, k),
    decreases upto,
{
    if upto > 0 {
        lemma_same_prefix(a, b, upto - 1, k);
    }
}

proof fn lemma_chained_extends(
    e: Seq<(Seq<u8>, u32)>,
    next: Seq<u32>,
    next2: Seq<u32>,
    a: Seq<Option<Seq<u8>>>,
    b: Seq<Option<Seq<u8>>>,
)
    requires
        chained(e, next, a, a.len() as int),
        a.len() <= b.len(),
        next.len() == a.len(),
        next2.len() >= a.len(),
        forall|i: int| 0 <= i < a.len() ==> a[i] == b[i],
        forall|i: int| 0 <= i < a.len() ==> next2[i] == next[i],
    ensures
        chained(e, next2, b, a.len() as int),
{
    let n = a.len() as int;
    assert forall|k: Seq<u8>|
        #![trigger has_key(e, k)]
        #![trigger last_with(b, n, k)]
        (has_key(e, k) <==> last_with(b, n, k) is Some) && (has_key(e, k) ==> value_of(e, k) == last_with(b, n, k)->0) by {
        lemma_same_prefix(a, b, n, k);
        assert(has_key(e, k) <==> last_with(a, n, k) is Some);
    }
    assert forall|i: int| 0 <= i < n && (#[trigger] b[i]) is Some implies next2[i] == link(
        last_with(b, i, b[i]->0),
    ) by {
        assert(a[i] is Some);
        lemma_same_prefix(a, b, i, b[i]->0);
    }
}

// --- Sizes ----------------------------------------------------------------------------

/// The estimated bytes that a column of the build side takes, with its share of the chain.
pub open spec fn build_bytes_of(v: ColV) -> int {
    body_bytes(v.ty, v.cells) + v.cells.len() as int / 8 + 4
}

/// The estimated bytes of some columns, on top of what is held.
pub open spec fn build_bytes_after(held: int, cols: Seq<ColV>, k: int) -> int
    decreases k,
{
    if k <= 0 {
        held
    } else {
        sat64(build_bytes_after(held, cols, k - 1) + sat64(build_bytes_of(cols[k - 1])))
    }
}

fn vector_bytes(v: &Vector) -> (r: u64)
    ensures
        r == sat64(build_bytes_of(ColV { ty: v.ty(), cells: v@ })),
{
    let body: u64 = body_size(v);
    let n: usize = v.len();
    body.saturating_add(n as u64 / 8 + 4)
}

fn batch_bytes(held: u64, cols: &Vec<Vector>) -> (r: u64)
    ensures
        r == build_bytes_after(held as int, cols_of(cols@), cols@.len() as int),
{
    let mut r: u64 = held;
    let mut c: usize = 0;
    while c < cols.len()
        invariant
            c <= cols@.len(),
            r == build_bytes_after(held as int, cols_of(cols@), c as int),
        decreases cols@.len() - c,
    {
        r = r.saturating_add(vector_bytes(&cols[c]));
        c = c + 1;
        assert(cols_of(cols@)[c - 1] == (ColV { ty: cols@[c - 1].ty(), cells: cols@[c - 1]@ }));
    }
    r
}

// --- The build side -------------------------------------------------------------------

/// The right input, read through: its rows, and the index over their keys.
pub struct BuildSide {
    /// Whether there are no keys, so that every row is a candidate.
    pub nested: bool,
    pub cols: Vec<Vector>,
    pub rows: usize,
    /// The rows counted. There are more of them than are held once they were too many.
    pub counted: usize,
    /// The estimated bytes counted.
    pub bytes: u64,
    /// From a key to its last row.
    pub index: HashIndex,
    /// From a row to the one before it with the same key.
    pub next: Vec<u32>,
    /// Whether a key with a NULL has been seen.
    pub has_null: bool,
    /// Which rows have been matched.
    pub matched: Vec<bool>,
    /// The key of each row.
    pub keys: Ghost<Seq<Option<Seq<u8>>>>,
}

impl BuildSide {
    pub open spec fn wf(&self) -> bool {
        &&& cols_wf(self.cols@, self.rows as int)
        &&& self.rows < NONE
        &&& self.counted < NONE ==> self.counted == self.rows
        &&& self.index.wf()
        &&& self.index@.len() <= self.rows
        &&& self.keys@.len() == self.rows
        &&& forall|i: int| 0 <= i < self.index@.len() ==> (#[trigger] self.index@[i]).0.len() >= 1
        &&& !self.nested ==> self.next@.len() == self.rows && chained(
            self.index@,
            self.next@,
            self.keys@,
            self.rows as int,
        )
    }

    /// The rows held.
    pub open spec fn row_vals(&self) -> Seq<Seq<Val>> {
        Seq::new(self.rows as nat, |r: int| row_at(self.cols@, r))
    }

    pub open spec fn types(&self) -> Seq<Ty> {
        Seq::new(self.cols@.len(), |c: int| self.cols@[c].ty())
    }

    pub fn new(types: &Vec<Ty>, nested: bool) -> (b: BuildSide)
        ensures
            b.wf(),
            b.nested == nested,
            b.rows == 0,
            b.counted == 0,
            b.bytes == 0,
            b.types() == types@,
            !b.has_null,
            b.matched@.len() == 0,
            b.index@.len() == 0,
    {
        let mut cols: Vec<Vector> = Vec::new();
        let mut c: usize = 0;
        while c < types.len()
            invariant
                c <= types@.len(),
                cols@.len() == c,
                cols_wf(cols@, 0),
                forall|d: int| 0 <= d < c ==> (#[trigger] cols@[d]).ty() == types@[d],
            decreases types@.len() - c,
        {
            cols.push(Vector::new(types[c]));
            c = c + 1;
        }
        let b = BuildSide {
            nested,
            cols,
            rows: 0,
            counted: 0,
            bytes: 0,
            index: HashIndex::new(),
            next: Vec::new(),
            has_null: false,
            matched: Vec::new(),
            keys: Ghost(Seq::empty()),
        };
        assert(b.types() =~= types@);
        b
    }
}

proof fn lemma_keys_bound(e: Seq<(Seq<u8>, u32)>)
    requires
        forall|i: int| 0 <= i < e.len() ==> (#[trigger] e[i]).0.len() >= 1,
    ensures
        key_total(e) >= e.len(),
    decreases e.len(),
{
    if e.len() > 0 {
        let f = e.drop_last();
        assert forall|i: int| 0 <= i < f.len() implies (#[trigger] f[i]).0.len() >= 1 by {
            assert(e[i].0.len() >= 1);
        }
        lemma_keys_bound(f);
        assert(e[e.len() - 1].0.len() >= 1);
    }
}

proof fn lemma_key_nonempty(cols: Seq<Vector>, r: int)
    requires
        cols.len() > 0,
    ensures
        crate::exec::rowkey::key_at(cols, r).len() >= 1,
{
    let tys = crate::exec::rowkey::col_types(cols);
    let row = row_at(cols, r);
    assert(crate::exec::rowkey::key_of(tys, row) == crate::exec::rowkey::key_of(tys, row.drop_last())
        + crate::exec::rowkey::cell_key(row.last(), tys[row.len() - 1]));
}

/// Whether the columns of a batch can be appended to those held.
fn same_storage(held: &Vec<Vector>, cols: &Vec<Vector>) -> (r: bool)
    requires
        held@.len() == cols@.len(),
    ensures
        r == forall|c: int|
            0 <= c < cols@.len() ==> (#[trigger] held@[c]).ty().phys() == cols@[c].ty().phys(),
{
    let mut c: usize = 0;
    while c < cols.len()
        invariant
            held@.len() == cols@.len(),
            c <= cols@.len(),
            forall|d: int| 0 <= d < c ==> (#[trigger] held@[d]).ty().phys() == cols@[d].ty().phys(),
        decreases cols@.len() - c,
    {
        if held[c].phys() != cols[c].phys() {
            return false;
        }
        c = c + 1;
    }
    true
}

/// Appends columns to columns, one by one. They have the same storage.
pub fn append_all(held: &mut Vec<Vector>, cols: &Vec<Vector>, rows: usize, n: usize)
    requires
        old(held)@.len() == cols@.len(),
        cols_wf(old(held)@, rows as int),
        cols_wf(cols@, n as int),
        forall|c: int|
            0 <= c < cols@.len() ==> (#[trigger] old(held)@[c]).ty().phys() == cols@[c].ty().phys(),
    ensures
        final(held)@.len() == cols@.len(),
        cols_wf(final(held)@, rows + n),
        forall|c: int|
            0 <= c < cols@.len() ==> (#[trigger] final(held)@[c]).ty() == old(held)@[c].ty() && final(held)@[c]@
                == old(held)@[c]@ + cols@[c]@,
        forall|r: int| 0 <= r < rows ==> row_at(final(held)@, r) == row_at(old(held)@, r),
        forall|r: int| 0 <= r < n ==> row_at(final(held)@, rows + r) == row_at(cols@, r),
{
    let mut c: usize = 0;
    let ghost before = held@;
    while c < cols.len()
        invariant
            before == old(held)@,
            held@.len() == cols@.len(),
            before.len() == cols@.len(),
            c <= cols@.len(),
            cols_wf(before, rows as int),
            cols_wf(cols@, n as int),
            forall|d: int|
                0 <= d < cols@.len() ==> (#[trigger] before[d]).ty().phys() == cols@[d].ty().phys(),
            forall|d: int| c <= d < cols@.len() ==> held@[d] == before[d],
            forall|d: int|
                0 <= d < c ==> (#[trigger] held@[d]).wf() && held@[d].ty() == before[d].ty() && held@[d]@
                    == before[d]@ + cols@[d]@,
        decreases cols@.len() - c,
    {
        assert(before[c as int].wf() && cols@[c as int].wf());
        let _done = append_column(&mut held[c], &cols[c]);
        c = c + 1;
    }
    proof {
        assert forall|d: int| 0 <= d < cols@.len() implies (#[trigger] held@[d]).wf() && held@[d]@.len() == rows + n by {
            assert(before[d]@.len() == rows && cols@[d]@.len() == n);
        }
        assert forall|r: int| 0 <= r < rows implies row_at(held@, r) == row_at(before, r) by {
            assert forall|d: int| 0 <= d < cols@.len() implies held@[d]@[r] == before[d]@[r] by {
                assert(before[d]@.len() == rows);
            }
            assert(row_at(held@, r) =~= row_at(before, r));
        }
        assert forall|r: int| 0 <= r < n implies row_at(held@, rows + r) == row_at(cols@, r) by {
            assert forall|d: int| 0 <= d < cols@.len() implies held@[d]@[rows + r] == cols@[d]@[r] by {
                assert(before[d]@.len() == rows && cols@[d]@.len() == n);
            }
            assert(row_at(held@, rows + r) =~= row_at(cols@, r));
        }
    }
}

/// What taking a right batch in comes to.
pub open spec fn absorb_outcome(b: BuildSide, keys: Seq<ProgramV>, c: Chunk) -> Result<Seq<Option<Seq<u8>>>, Code> {
    let n = c.rows.len();
    if c.types.len() != b.types().len() {
        Err(Code::Internal)
    } else {
        match programs_value(keys, c.types, c.rows, keys.len() as int) {
            Err(e) => Err(e),
            Ok(cols) => if exists|k: int|
                0 <= k < b.types().len() && #[trigger] b.types()[k].phys() != c.types[k].phys() {
                Err(Code::Internal)
            } else if b.counted + n >= NONE {
                Err(Code::Oom)
            } else if build_bytes_after(b.bytes as int, chunk_cols(c), c.types.len() as int) + key_total(b.index@) > MAX_BUILD_BYTES {
                Err(Code::Oom)
            } else {
                Ok(
                    if b.nested {
                        Seq::new(n, |i: int| None)
                    } else {
                        join_keys(cols, n)
                    },
                )
            },
        }
    }
}

/// A build side that has refused a batch. One that is too large for it stays counted, so that the next
/// one is refused as well, and its rows are held, under no key, as far as they can be numbered.
pub open spec fn absorb_refused(b: BuildSide, keys: Seq<ProgramV>, c: Chunk, a: BuildSide) -> bool {
    let n = c.rows.len();
    let fits = c.types.len() == b.types().len() && programs_value(keys, c.types, c.rows, keys.len() as int) is Ok
        && forall|k: int| 0 <= k < b.types().len() ==> #[trigger] b.types()[k].phys() == c.types[k].phys();
    if !fits {
        a == b
    } else {
        &&& a.bytes == build_bytes_after(b.bytes as int, chunk_cols(c), c.types.len() as int)
        &&& a.counted == if b.counted + n <= usize::MAX {
            b.counted + n
        } else {
            usize::MAX as int
        }
        &&& if b.counted + n >= NONE {
            a == (BuildSide { bytes: a.bytes, counted: a.counted, ..b })
        } else {
            &&& a.row_vals() == b.row_vals() + c.rows
            &&& a.keys@ == b.keys@ + Seq::new(n, |i: int| None::<Seq<u8>>)
            &&& a.index == b.index
            &&& a.has_null == b.has_null
        }
    }
}

/// The estimated bytes of batches taken into the build side.
pub open spec fn taken_bytes(xs: Seq<Chunk>) -> int
    decreases xs.len(),
{
    if xs.len() == 0 {
        0
    } else if xs.last().rows.len() == 0 {
        taken_bytes(xs.drop_last())
    } else {
        build_bytes_after(taken_bytes(xs.drop_last()), chunk_cols(xs.last()), xs.last().types.len() as int)
    }
}

/// Why batches cannot be joined: the last right one cannot be taken into the build side, the last left
/// one has other columns than expected, its keys cannot be computed, or the residual fails on a pair.
pub open spec fn join_stuck(q: JoinV, ls: Seq<Chunk>, rs: Seq<Chunk>, code: Code) -> bool {
    ||| rs.len() > 0 && rs.last().rows.len() > 0 && exists|b: BuildSide|
        b.wf() && b.counted == b.rows && b.bytes == taken_bytes(rs.drop_last()) && b.side() == side_of(
            q,
            rs.drop_last(),
        )
            && #[trigger] absorb_outcome(b, q.right_keys, rs.last()) == Err::<Seq<Option<Seq<u8>>>, Code>(code)
    ||| ls.len() > 0 && ls.last().rows.len() > 0 && {
        ||| code == Code::Internal && ls.last().types.len() != q.left_types.len()
        ||| programs_value(q.left_keys, ls.last().types, ls.last().rows, q.left_keys.len() as int) == Err::<
            Seq<ColV>,
            Code,
        >(code)
        ||| q.residual matches Some(p) && exists|l: Seq<Val>, r: Seq<Val>|
            #![trigger ls.last().rows.contains(l), flat(rs).contains(r)]
            ls.last().rows.contains(l) && flat(rs).contains(r) && program_keep(
                p,
                ls.last().types + q.right_types,
                seq![l + r],
            ) == Err::<Seq<bool>, Code>(code)
    }
}

/// The types of the columns that a join puts behind those of the left rows.
pub open spec fn right_part(q: JoinV) -> Seq<Ty> {
    if q.kind.left_only() {
        Seq::empty()
    } else {
        q.right_types
    }
}

/// A batch as a join hands it out: the left columns are those of a left batch or, where there is no
/// left row, the ones expected.
pub open spec fn join_portion(q: JoinV, ls: Seq<Chunk>, c: Chunk) -> bool {
    wider_portion(c, ls, right_part(q)) || portion(c, q.left_types + right_part(q))
}

pub open spec fn join_shaped(q: JoinV, ls: Seq<Chunk>, out: Seq<Chunk>) -> bool {
    forall|k: int| 0 <= k < out.len() ==> join_portion(q, ls, #[trigger] out[k])
}

proof fn lemma_shaped_more(q: JoinV, ls: Seq<Chunk>, l: Chunk, out: Seq<Chunk>)
    requires
        join_shaped(q, ls, out),
    ensures
        join_shaped(q, ls.push(l), out),
{
    assert forall|k: int| 0 <= k < out.len() implies join_portion(q, ls.push(l), #[trigger] out[k]) by {
        if wider_portion(out[k], ls, right_part(q)) {
            lemma_wider_portion(out[k], ls, l, right_part(q));
        }
    }
}

proof fn lemma_shaped_push(q: JoinV, ls: Seq<Chunk>, out: Seq<Chunk>, c: Chunk)
    requires
        join_shaped(q, ls, out),
        join_portion(q, ls, c),
    ensures
        join_shaped(q, ls, out.push(c)),
{
    assert forall|k: int| 0 <= k < out.push(c).len() implies join_portion(q, ls, #[trigger] out.push(c)[k]) by {
        if k < out.len() {
            assert(join_portion(q, ls, out[k]));
        }
    }
}

impl BuildSide {
    /// Takes a whole right batch in, or refuses it.
    pub fn absorb(&mut self, keys: &Vec<Program>, vm: &Vm, batch: Batch) -> (r: Result<(), Error>)
        requires
            old(self).wf(),
            old(self).nested == (keys@.len() == 0),
            batch.wf(),
        ensures
            final(self).wf(),
            final(self).nested == old(self).nested,
            final(self).types() == old(self).types(),
            final(self).matched == old(self).matched,
            if batch.rows().len() == 0 {
                r is Ok && *final(self) == *old(self)
            } else {
                match absorb_outcome(*old(self), progs_of(keys@), chunk(batch)) {
                    Err(c) => (r matches Err(e) && e.code == c) && absorb_refused(
                        *old(self),
                        progs_of(keys@),
                        chunk(batch),
                        *final(self),
                    ),
                    Ok(new_keys) => {
                        &&& r is Ok
                        &&& final(self).counted == final(self).rows
                        &&& final(self).bytes == build_bytes_after(
                            old(self).bytes as int,
                            chunk_cols(chunk(batch)),
                            batch.types().len() as int,
                        )
                        &&& final(self).row_vals() == old(self).row_vals() + batch.rows()
                        &&& final(self).keys@ == old(self).keys@ + new_keys
                        &&& final(self).has_null == (old(self).has_null || (!old(self).nested && exists|i: int|
                            0 <= i < new_keys.len() && (#[trigger] new_keys[i]) is None))
                    },
                }
            },
    {
        let mut batch = batch;
        let ghost given = batch;
        batch.materialize();
        let n: usize = batch.num_rows();
        assert(given.rows().len() == n);
        if n == 0 {
            return Ok(());
        }
        assert(given.types().len() == given.cols@.len());
        if batch.cols.len() != self.cols.len() {
            return Err(Error::new(Code::Internal));
        }
        let kcols = match vm.eval_all(keys, &batch) {
            Ok(c) => c,
            Err(e) => {
                return Err(e);
            },
        };
        let ok: bool = same_storage(&self.cols, &batch.cols);
        proof {
            assert forall|c: int| 0 <= c < batch.cols@.len() implies self.types()[c] == (#[trigger] self.cols@[c]).ty() && given.types()[c] == batch.cols@[c].ty() by {
                assert(batch.types()[c] == given.types()[c]);
            }
        }
        if !ok {
            proof {
                let c = choose|c: int|
                    0 <= c < batch.cols@.len() && (#[trigger] self.cols@[c]).ty().phys() != batch.cols@[c].ty().phys();
                assert(self.types()[c].phys() != given.types()[c].phys());
            }
            return Err(Error::new(Code::Internal));
        }
        proof {
            assert forall|k: int| 0 <= k < self.types().len() implies #[trigger] self.types()[k].phys() == given.types()[k].phys() by {
                assert(self.cols@[k].ty().phys() == batch.cols@[k].ty().phys());
            }
        }
        let bytes: u64 = batch_bytes(self.bytes, &batch.cols);
        proof {
            let ins = chunk_cols(chunk(given));
            assert forall|c: int| 0 <= c < ins.len() implies #[trigger] cols_of(batch.cols@)[c] == ins[c] by {
                assert forall|i: int| 0 <= i < n implies batch.cols@[c]@[i] == given.rows()[i][c] by {
                    assert(batch.rows()[i] == given.rows()[i]);
                }
                assert(batch.cols@[c]@.len() == n);
                assert(cols_of(batch.cols@)[c] =~= ins[c]);
            }
            assert(cols_of(batch.cols@) =~= ins);
            lemma_keys_bound(self.index@);
        }
        self.bytes = bytes;
        if self.counted >= NONE as usize || n >= NONE as usize - self.counted {
            self.counted = if n <= usize::MAX - self.counted {
                self.counted + n
            } else {
                usize::MAX
            };
            return Err(Error::new(Code::Oom));
        }
        let held: usize = self.index.key_bytes();
        let full: bool = bytes as u128 + held as u128 > MAX_BUILD_BYTES as u128;
        let base: usize = self.rows;
        let ghost old_keys = self.keys@;
        let ghost new_keys: Seq<Option<Seq<u8>>> = if self.nested || full {
            Seq::new(n as nat, |i: int| None)
        } else {
            join_keys(cols_of(kcols@), n as nat)
        };
        let ghost all = old_keys + new_keys;
        append_all(&mut self.cols, &batch.cols, base, n);
        self.rows = base + n;
        self.counted = base + n;
        self.keys = Ghost(all);
        proof {
            assert(self.types() =~= old(self).types());
            assert forall|r: int| 0 <= r < base + n implies #[trigger] self.row_vals()[r] == (old(self).row_vals() + given.rows())[r] by {
                if r >= base {
                    assert(row_at(self.cols@, base + (r - base)) == row_at(batch.cols@, r - base));
                    assert(batch.rows()[r - base] == row_at(batch.cols@, r - base));
                }
            }
            assert(self.row_vals() =~= old(self).row_vals() + given.rows());
        }
        if full {
            if !self.nested {
                let ghost next0 = self.next@;
                self.next.resize(base + n, NONE);
                proof {
                    assert(old_keys == old(self).keys@);
                    lemma_chained_extends(self.index@, next0, self.next@, old_keys, all);
                    lemma_chain_skips(self.index@, self.next@, all, base as int, base + n);
                }
            }
            return Err(Error::new(Code::Oom));
        }
        if !self.nested {
            proof {
                assert(all.take(base as int) =~= old_keys);
                assert(all.skip(base as int) =~= new_keys);
            }
            self.chain(&kcols, base, n);
        }
        Ok(())
    }

    /// Enters the rows from `base` on into the index.
    fn chain(&mut self, kcols: &Vec<Vector>, base: usize, n: usize)
        requires
            !old(self).nested,
            cols_wf(old(self).cols@, old(self).rows as int),
            old(self).rows == base + n,
            old(self).rows < NONE,
            old(self).counted == old(self).rows,
            old(self).index.wf(),
            old(self).index@.len() <= base,
            forall|i: int| 0 <= i < old(self).index@.len() ==> (#[trigger] old(self).index@[i]).0.len() >= 1,
            old(self).keys@.len() == base + n,
            old(self).next@.len() == base,
            chained(old(self).index@, old(self).next@, old(self).keys@.take(base as int), base as int),
            kcols@.len() > 0,
            cols_wf(kcols@, n as int),
            old(self).keys@.skip(base as int) == join_keys(cols_of(kcols@), n as nat),
        ensures
            final(self).wf(),
            final(self).nested == old(self).nested,
            final(self).cols == old(self).cols,
            final(self).rows == old(self).rows,
            final(self).counted == old(self).counted,
            final(self).bytes == old(self).bytes,
            final(self).matched == old(self).matched,
            final(self).keys == old(self).keys,
            final(self).has_null == (old(self).has_null || exists|i: int|
                0 <= i < n && (#[trigger] join_keys(cols_of(kcols@), n as nat)[i]) is None),
    {
        let ghost all = self.keys@;
        let ghost jk = join_keys(cols_of(kcols@), n as nat);
        let ghost next0 = self.next@;
        self.next.resize(base + n, NONE);
        proof {
            assert forall|i: int| 0 <= i < base implies all.take(base as int)[i] == all[i] by {}
            lemma_chained_extends(self.index@, next0, self.next@, all.take(base as int), all);
        }
        let refs = column_refs(kcols);
        let mut keybuf: Vec<u8> = Vec::new();
        let mut r: usize = 0;
        while r < n
            invariant
                r <= n,
                all == old(self).keys@,
                jk == join_keys(cols_of(kcols@), n as nat),
                all.len() == base + n,
                all.skip(base as int) == jk,
                !self.nested,
                self.cols == old(self).cols,
                self.rows == base + n,
                self.rows < NONE,
                self.bytes == old(self).bytes,
                self.counted == old(self).counted,
                self.matched == old(self).matched,
                self.keys == old(self).keys,
                self.rows == old(self).rows,
                self.nested == old(self).nested,
                self.next@.len() == base + n,
                self.index.wf(),
                self.index@.len() <= old(self).index@.len() + r,
                old(self).index@.len() <= base,
                forall|i: int| 0 <= i < self.index@.len() ==> (#[trigger] self.index@[i]).0.len() >= 1,
                chained(self.index@, self.next@, all, base + r),
                kcols@.len() > 0,
                cols_wf(kcols@, n as int),
                refs@.unref() == kcols@,
                refs@.len() == kcols@.len(),
                forall|c: int| 0 <= c < refs@.len() ==> *(#[trigger] refs@[c]) == kcols@[c],
                self.has_null == (old(self).has_null || exists|i: int| 0 <= i < r && (#[trigger] jk[i]) is None),
            decreases n - r,
        {
            assert forall|c: int| 0 <= c < refs@.len() implies r < (#[trigger] refs@[c])@.len() by {
                assert(kcols@[c]@.len() == n);
            }
            assert(all[base + r] == jk[r as int]) by {
                assert(all.skip(base as int)[r as int] == all[base + r]);
            }
            let null: bool = key_has_null(refs.as_slice(), r);
            proof {
                lemma_null_at(kcols@, r as int);
                crate::exec::rowkey::lemma_col_key(kcols@, n as nat, r as int);
            }
            if null {
                assert(jk[r as int] is None);
                self.has_null = true;
                proof {
                    lemma_chain_skip(self.index@, self.next@, all, base + r);
                }
            } else {
                encode_key(refs.as_slice(), r, &mut keybuf);
                let ghost e = self.index@;
                let ghost next1 = self.next@;
                proof {
                    keys_are_distinct(self.index);
                    lemma_key_nonempty(kcols@, r as int);
                    assert(jk[r as int] == Some(keybuf@));
                }
                let prev = self.index.insert_chained(keybuf.as_slice(), (base + r) as u32);
                let linked: u32 = match prev {
                    Some(p) => p,
                    None => NONE,
                };
                self.next.set(base + r, linked);
                proof {
                    lemma_chain_row(e, self.index@, next1, self.next@, all, base + r, keybuf@, prev);
                    assert forall|i: int| 0 <= i < self.index@.len() implies (#[trigger] self.index@[i]).0.len() >= 1 by {
                        if i < e.len() {
                            assert(e[i].0.len() >= 1);
                        }
                    }
                }
            }
            r = r + 1;
        }
    }
}

proof fn lemma_chain_skips(e: Seq<(Seq<u8>, u32)>, next: Seq<u32>, keys: Seq<Option<Seq<u8>>>, from: int, to: int)
    requires
        chained(e, next, keys, from),
        0 <= from <= to <= keys.len(),
        forall|i: int| from <= i < to ==> (#[trigger] keys[i]) is None,
    ensures
        chained(e, next, keys, to),
    decreases to - from,
{
    if from < to {
        lemma_chain_skips(e, next, keys, from, to - 1);
        lemma_chain_skip(e, next, keys, to - 1);
    }
}

proof fn lemma_chain_skip(e: Seq<(Seq<u8>, u32)>, next: Seq<u32>, keys: Seq<Option<Seq<u8>>>, upto: int)
    requires
        chained(e, next, keys, upto),
        0 <= upto < keys.len(),
        keys[upto] is None,
    ensures
        chained(e, next, keys, upto + 1),
{
    assert forall|k: Seq<u8>|
        #![trigger has_key(e, k)]
        #![trigger last_with(keys, upto + 1, k)]
        (has_key(e, k) <==> last_with(keys, upto + 1, k) is Some) && (has_key(e, k) ==> value_of(e, k) == last_with(
            keys,
            upto + 1,
            k,
        )->0) by {
        assert(last_with(keys, upto + 1, k) == last_with(keys, upto, k));
    }
}

proof fn lemma_null_at(cols: Seq<Vector>, r: int)
    ensures
        crate::exec::rowkey::null_among(cols, r) == null_at(cols_of(cols), r),
{
    let vs = cols_of(cols);
    if crate::exec::rowkey::null_among(cols, r) {
        let c = choose|c: int| 0 <= c < cols.len() && #[trigger] cols[c]@[r] is Null;
        assert(vs[c].cells[r] is Null);
    }
    if null_at(vs, r) {
        let c = choose|c: int| 0 <= c < vs.len() && (#[trigger] vs[c]).cells[r] is Null;
        assert(cols[c]@[r] is Null);
    }
}

// --- Probing ----------------------------------------------------------------------------

/// The left batch being probed, and how far.
pub struct Probe {
    /// The left batch, without a selection.
    pub batch: Batch,
    /// The left keys.
    pub keys: Vec<Vector>,
    /// The left row being looked at.
    pub row: usize,
    /// The next build row to try for it; `None` if it has not been started, and
    /// `Some(NONE)` if there is none left.
    pub cursor: Option<u32>,
    /// Which left rows have been matched.
    pub matched: Vec<bool>,
    /// The next row to look at when the left rows themselves are returned.
    pub drain: usize,
}

impl Probe {
    pub open spec fn rows(&self) -> int {
        self.batch.spec_num_rows()
    }

    pub open spec fn left_keys(&self) -> Seq<Option<Seq<u8>>> {
        join_keys(cols_of(self.keys@), self.rows() as nat)
    }
}

/// The build rows that a left key is to be paired with, in the order in which they are
/// tried: the last one first, or all of them in order if there are no keys.
pub open spec fn candidates(b: BuildSide, k: Option<Seq<u8>>) -> Seq<int> {
    if b.nested {
        Seq::new(b.rows as nat, |i: int| i)
    } else {
        match k {
            Some(k) => matches_below(b.keys@, b.rows as int, k),
            None => Seq::empty(),
        }
    }
}

/// A build row is a candidate of a left row exactly when their keys agree and have no
/// NULL, or there are no keys.
pub proof fn candidates_are_the_rows_with_the_key(b: BuildSide, k: Option<Seq<u8>>, r: int)
    requires
        b.wf(),
    ensures
        candidates(b, k).contains(r) <==> 0 <= r < b.rows && (b.nested || (k is Some && b.keys@[r] == k)),
{
    if b.nested {
        if 0 <= r < b.rows {
            assert(candidates(b, k)[r] == r);
        }
    } else {
        match k {
            Some(k) => {
                matches_are_the_rows_with_the_key(b.keys@, b.rows as int, k, r);
            },
            None => {},
        }
    }
}

/// The candidates that are left, given the next one to try.
pub open spec fn candidates_from(b: BuildSide, k: Option<Seq<u8>>, cursor: Option<u32>) -> Seq<int> {
    match cursor {
        None => candidates(b, k),
        Some(c) => if c == NONE {
            Seq::empty()
        } else if b.nested {
            Seq::new((b.rows - c) as nat, |i: int| c + i)
        } else {
            seq![c as int] + matches_below(b.keys@, c as int, k->0)
        },
    }
}

pub open spec fn cursor_ok(b: BuildSide, k: Option<Seq<u8>>, cursor: Option<u32>) -> bool {
    match cursor {
        None => true,
        Some(c) => c == NONE || (c < b.rows && (b.nested || (k is Some && b.keys@[c as int] == k))),
    }
}

/// The pairs of a left row with its candidates.
pub open spec fn row_pairs(i: int, cs: Seq<int>) -> Seq<(int, int)> {
    Seq::new(cs.len(), |j: int| (i, cs[j]))
}

/// The candidate pairs that have not been tried. Where a left row counts once
/// (`once`), a row that is matched already is passed over.
pub open spec fn pending(
    b: BuildSide,
    lk: Seq<Option<Seq<u8>>>,
    matched: Seq<bool>,
    once: bool,
    row: int,
    cursor: Option<u32>,
) -> Seq<(int, int)>
    decreases lk.len() - row,
{
    if row >= lk.len() {
        Seq::empty()
    } else {
        (if once && matched[row] {
            Seq::empty()
        } else {
            row_pairs(row, candidates_from(b, lk[row], cursor))
        }) + pending(b, lk, matched, once, row + 1, None)
    }
}

proof fn lemma_pending_contains(
    b: BuildSide,
    lk: Seq<Option<Seq<u8>>>,
    matched: Seq<bool>,
    once: bool,
    row: int,
    cursor: Option<u32>,
    i: int,
    r: int,
)
    requires
        0 <= row <= lk.len(),
    ensures
        pending(b, lk, matched, once, row, cursor).contains((i, r)) <==> row <= i < lk.len() && !(once && matched[i])
            && candidates_from(
            b,
            lk[i],
            if i == row {
                cursor
            } else {
                None
            },
        ).contains(r),
    decreases lk.len() - row,
{
    if row < lk.len() {
        lemma_pending_contains(b, lk, matched, once, row + 1, None, i, r);
        let all = pending(b, lk, matched, once, row, cursor);
        let cs = candidates_from(b, lk[row], cursor);
        let head = if once && matched[row] {
            Seq::empty()
        } else {
            row_pairs(row, cs)
        };
        let rest = pending(b, lk, matched, once, row + 1, None);
        assert(all == head + rest);
        if all.contains((i, r)) {
            let j = choose|j: int| 0 <= j < all.len() && all[j] == (i, r);
            if j < head.len() {
                assert(cs[j] == r);
            } else {
                assert(rest[j - head.len()] == (i, r));
            }
        }
        if i == row && !(once && matched[i]) && cs.contains(r) {
            let j = choose|j: int| 0 <= j < cs.len() && cs[j] == r;
            assert(all[j] == (i, r));
        }
        if rest.contains((i, r)) {
            let j = choose|j: int| 0 <= j < rest.len() && rest[j] == (i, r);
            assert(all[head.len() + j] == (i, r));
        }
    }
}

/// Trying one candidate leaves the others.
proof fn lemma_next_candidate(b: BuildSide, k: Option<Seq<u8>>, c: u32, after: u32)
    requires
        b.wf(),
        c != NONE,
        cursor_ok(b, k, Some(c)),
        after == if b.nested {
            if c + 1 < b.rows {
                (c + 1) as u32
            } else {
                NONE
            }
        } else {
            b.next@[c as int]
        },
    ensures
        candidates_from(b, k, Some(c)) == seq![c as int] + candidates_from(b, k, Some(after)),
        cursor_ok(b, k, Some(after)),
{
    if b.nested {
        assert(candidates_from(b, k, Some(c)) =~= seq![c as int] + candidates_from(b, k, Some(after)));
    } else {
        lemma_last_with(b.keys@, c as int, k->0);
        assert(b.keys@[c as int] is Some);
        assert(candidates_from(b, k, Some(c)) =~= seq![c as int] + candidates_from(b, k, Some(after)));
    }
}

/// Collects up to a batch of candidate pairs.
#[verifier::rlimit(40)]
fn fill_pairs(build: &BuildSide, probe: &mut Probe, once: bool) -> (r: (Vec<u32>, Vec<u32>))
    requires
        build.wf(),
        probe_ok(*build, *old(probe)),
    ensures
        probe_ok(*build, *final(probe)),
        *final(probe) == (Probe { row: final(probe).row, cursor: final(probe).cursor, ..*old(probe) }),
        ({
            let lk = old(probe).left_keys();
            let all = pending(*build, lk, old(probe).matched@, once, old(probe).row as int, old(probe).cursor);
            let n = if all.len() < BATCH_SIZE {
                all.len() as int
            } else {
                BATCH_SIZE as int
            };
            &&& r.0@.len() == n
            &&& r.1@.len() == n
            &&& forall|k: int|
                0 <= k < n ==> (#[trigger] r.0@[k]) == all[k].0 && r.1@[k] == all[k].1 && r.0@[k] < old(probe).rows()
                    && r.1@[k] < build.rows
            &&& pending(*build, lk, old(probe).matched@, once, final(probe).row as int, final(probe).cursor)
                == all.skip(n)
        }),
{
    let mut lidx: Vec<u32> = Vec::new();
    let mut ridx: Vec<u32> = Vec::new();
    let rows: usize = probe.batch.num_rows();
    let refs = column_refs(&probe.keys);
    let mut keybuf: Vec<u8> = Vec::new();
    let mut row: usize = probe.row;
    let mut cursor: Option<u32> = probe.cursor;
    let ghost lk = probe.left_keys();
    let ghost matched = probe.matched@;
    let ghost all = pending(*build, lk, matched, once, row as int, cursor);
    proof {
        assert(all.skip(0) =~= all);
    }
    while lidx.len() < BATCH_SIZE && row < rows
        invariant
            build.wf(),
            rows == old(probe).rows(),
            rows <= MAX_ROWS,
            *probe == *old(probe),
            row <= rows,
            probe_ok(*build, *old(probe)),
            lk == old(probe).left_keys(),
            lk.len() == rows,
            matched == old(probe).matched@,
            matched.len() == rows,
            row < rows ==> cursor_ok(*build, lk[row as int], cursor),
            row == rows ==> cursor is None,
            refs@.unref() == old(probe).keys@,
            refs@.len() == old(probe).keys@.len(),
            forall|c: int| 0 <= c < refs@.len() ==> *(#[trigger] refs@[c]) == old(probe).keys@[c],
            lidx@.len() == ridx@.len(),
            lidx@.len() <= BATCH_SIZE,
            all == pending(*build, lk, matched, once, old(probe).row as int, old(probe).cursor),
            lidx@.len() <= all.len(),
            pending(*build, lk, matched, once, row as int, cursor) == all.skip(lidx@.len() as int),
            forall|k: int|
                0 <= k < lidx@.len() ==> (#[trigger] lidx@[k]) == all[k].0 && ridx@[k] == all[k].1 && lidx@[k] < rows
                    && ridx@[k] < build.rows,
        decreases BATCH_SIZE - lidx@.len(), rows - row,
    {
        if once && probe.matched[row] {
            assert(pending(*build, lk, matched, once, row as int, cursor) =~= pending(
                *build,
                lk,
                matched,
                once,
                row + 1,
                None,
            ));
            row = row + 1;
            cursor = None;
            continue;
        }
        let cur: u32 = match cursor {
            Some(c) => c,
            None => {
                let head: u32 = if build.nested {
                    if build.rows == 0 {
                        NONE
                    } else {
                        0
                    }
                } else {
                    assert forall|c: int| 0 <= c < refs@.len() implies row < (#[trigger] refs@[c])@.len() by {
                        assert(old(probe).keys@[c]@.len() == rows);
                    }
                    proof {
                        lemma_null_at(old(probe).keys@, row as int);
                        crate::exec::rowkey::lemma_col_key(old(probe).keys@, rows as nat, row as int);
                    }
                    if key_has_null(refs.as_slice(), row) {
                        NONE
                    } else {
                        encode_key(refs.as_slice(), row, &mut keybuf);
                        proof {
                            assert(lk[row as int] == Some(keybuf@));
                            lemma_last_with(build.keys@, build.rows as int, keybuf@);
                            assert(has_key(build.index@, keybuf@) <==> last_with(
                                build.keys@,
                                build.rows as int,
                                keybuf@,
                            ) is Some);
                        }
                        match build.index.lookup(keybuf.as_slice()) {
                            Some(h) => h,
                            None => NONE,
                        }
                    }
                };
                assert(candidates_from(*build, lk[row as int], None) =~= candidates_from(
                    *build,
                    lk[row as int],
                    Some(head),
                ));
                assert(cursor_ok(*build, lk[row as int], Some(head)));
                head
            },
        };
        assert(pending(*build, lk, matched, once, row as int, Some(cur)) == all.skip(lidx@.len() as int));
        if cur == NONE {
            assert(pending(*build, lk, matched, once, row as int, Some(cur)) =~= pending(
                *build,
                lk,
                matched,
                once,
                row + 1,
                None,
            ));
            row = row + 1;
            cursor = None;
            continue;
        }
        let after: u32 = if build.nested {
            if (cur as usize) + 1 < build.rows {
                cur + 1
            } else {
                NONE
            }
        } else {
            build.next[cur as usize]
        };
        proof {
            lemma_next_candidate(*build, lk[row as int], cur, after);
            let cs = candidates_from(*build, lk[row as int], Some(cur));
            let cs2 = candidates_from(*build, lk[row as int], Some(after));
            let rest = pending(*build, lk, matched, once, row + 1, None);
            assert(row_pairs(row as int, cs) =~= seq![(row as int, cur as int)] + row_pairs(row as int, cs2));
            let now = all.skip(lidx@.len() as int);
            assert(now == row_pairs(row as int, cs) + rest);
            assert(now.len() > 0 && now[0] == (row as int, cur as int));
            assert(pending(*build, lk, matched, once, row as int, Some(after)) =~= now.skip(1));
            assert(now.skip(1) =~= all.skip(lidx@.len() as int + 1));
            assert(all[lidx@.len() as int] == now[0]);
        }
        let ghost l0 = lidx@;
        let ghost r0 = ridx@;
        lidx.push(row as u32);
        ridx.push(cur);
        cursor = Some(after);
        assert forall|k: int| 0 <= k < lidx@.len() implies (#[trigger] lidx@[k]) == all[k].0 && ridx@[k] == all[k].1
            && lidx@[k] < rows && ridx@[k] < build.rows by {
            if k < l0.len() {
                assert(lidx@[k] == l0[k] && ridx@[k] == r0[k]);
            }
        }
    }
    probe.row = row;
    probe.cursor = cursor;
    proof {
        let rest = pending(*build, lk, matched, once, row as int, cursor);
        if lidx@.len() < BATCH_SIZE {
            assert(row == rows);
            assert(rest.len() == 0);
            assert(lidx@.len() == all.len());
        }
        assert(pending(*build, lk, matched, once, probe.row as int, probe.cursor) == rest);
    }
    (lidx, ridx)
}

/// The probe fits the build side it is probing.
pub open spec fn probe_ok(b: BuildSide, p: Probe) -> bool {
    &&& p.batch.wf()
    &&& p.batch.sel is None
    &&& cols_wf(p.keys@, p.rows())
    &&& p.matched@.len() == p.rows()
    &&& p.row <= p.rows()
    &&& p.drain <= p.rows()
    &&& p.row < p.rows() ==> cursor_ok(b, p.left_keys()[p.row as int], p.cursor)
    &&& p.row == p.rows() ==> p.cursor is None
}

// --- Matches ------------------------------------------------------------------------------

/// Whether a pair of rows is a match: whether the residual predicate holds of it.
pub open spec fn passes(residual: Option<ProgramV>, tys: Seq<Ty>, row: Seq<Val>) -> bool {
    match residual {
        Some(p) => holds_of(p, tys, row),
        None => true,
    }
}

/// A left row and a build row side by side.
pub open spec fn pair_row(b: BuildSide, p: Probe, i: int, r: int) -> Seq<Val> {
    row_at(p.batch.cols@, i) + row_at(b.cols@, r)
}

pub open spec fn pair_types(b: BuildSide, p: Probe) -> Seq<Ty> {
    p.batch.types() + b.types()
}

/// Whether a left row and a build row match: the keys agree and the residual holds.
pub open spec fn is_match(b: BuildSide, p: Probe, residual: Option<ProgramV>, i: int, r: int) -> bool {
    candidates(b, p.left_keys()[i]).contains(r) && passes(residual, pair_types(b, p), pair_row(b, p, i, r))
}

/// Whether a left row is left out although nothing matches it: `NULL NOT IN (...)` is
/// unknown unless the list is empty.
pub open spec fn unknown(b: BuildSide, p: Probe, null_aware: bool, i: int) -> bool {
    null_aware && !b.nested && b.rows > 0 && p.left_keys()[i] is None
}

/// The match flags say what has been found so far: a matched row has a match, and a row
/// that has one is flagged or the pair is still to be tried.
pub open spec fn flags_ok(b: BuildSide, p: Probe, residual: Option<ProgramV>, once: bool, null_aware: bool) -> bool {
    &&& forall|i: int, r: int|
        0 <= i < p.rows() && #[trigger] is_match(b, p, residual, i, r) ==> p.matched@[i] || pending(
            b,
            p.left_keys(),
            p.matched@,
            once,
            p.row as int,
            p.cursor,
        ).contains((i, r))
    &&& forall|i: int|
        0 <= i < p.rows() && #[trigger] p.matched@[i] ==> unknown(b, p, null_aware, i) || exists|r: int| #[trigger]
            is_match(b, p, residual, i, r)
    &&& forall|i: int| 0 <= i < p.rows() && unknown(b, p, null_aware, i) ==> #[trigger] p.matched@[i]
}

/// Once no candidate is left, a left row is flagged exactly when it has a match, or is
/// left out as unknown. So a row whose every candidate the residual rejected is unmatched.
pub proof fn rows_are_flagged_exactly_if_matched(
    b: BuildSide,
    p: Probe,
    residual: Option<ProgramV>,
    once: bool,
    null_aware: bool,
    i: int,
)
    requires
        flags_ok(b, p, residual, once, null_aware),
        pending(b, p.left_keys(), p.matched@, once, p.row as int, p.cursor).len() == 0,
        0 <= i < p.rows(),
    ensures
        p.matched@[i] ==> unknown(b, p, null_aware, i) || exists|r: int| #[trigger] is_match(b, p, residual, i, r),
        (exists|r: int| #[trigger] is_match(b, p, residual, i, r)) ==> p.matched@[i],
        unknown(b, p, null_aware, i) ==> p.matched@[i],
{
    if exists|r: int| #[trigger] is_match(b, p, residual, i, r) {
        let r = choose|r: int| #[trigger] is_match(b, p, residual, i, r);
        assert(is_match(b, p, residual, i, r));
    }
}

// --- Assembling the output ------------------------------------------------------------

/// As many NULLs as there are columns.
pub open spec fn nulls(n: nat) -> Seq<Val> {
    Seq::new(n, |i: int| Val::Null)
}

fn push_gathered(out: &mut Vec<Vector>, cols: &Vec<Vector>, idx: &Vec<u32>, rows: usize)
    requires
        cols_wf(old(out)@, idx@.len() as int),
        cols_wf(cols@, rows as int),
        forall|k: int| 0 <= k < idx@.len() ==> #[trigger] idx@[k] < rows,
    ensures
        cols_wf(final(out)@, idx@.len() as int),
        final(out)@.len() == old(out)@.len() + cols@.len(),
        forall|c: int| 0 <= c < old(out)@.len() ==> final(out)@[c] == old(out)@[c],
        forall|c: int|
            0 <= c < cols@.len() ==> (#[trigger] final(out)@[old(out)@.len() + c]).ty() == cols@[c].ty() && final(out)@[old(out)@.len() + c]@ == gathered(cols@[c]@, idx@),
{
    let mut c: usize = 0;
    let ghost m = out@.len() as int;
    while c < cols.len()
        invariant
            m == old(out)@.len(),
            c <= cols@.len(),
            out@.len() == m + c,
            cols_wf(out@, idx@.len() as int),
            cols_wf(cols@, rows as int),
            forall|k: int| 0 <= k < idx@.len() ==> #[trigger] idx@[k] < rows,
            forall|d: int| 0 <= d < m ==> out@[d] == old(out)@[d],
            forall|d: int|
                0 <= d < c ==> (#[trigger] out@[m + d]).ty() == cols@[d].ty() && out@[m + d]@ == gathered(
                    cols@[d]@,
                    idx@,
                ),
        decreases cols@.len() - c,
    {
        assert(cols@[c as int].wf());
        let ghost before = out@;
        out.push(cols[c].gather(idx.as_slice()));
        c = c + 1;
    }
}

fn push_nulls(out: &mut Vec<Vector>, tys: &Vec<Ty>, n: usize)
    requires
        cols_wf(old(out)@, n as int),
    ensures
        cols_wf(final(out)@, n as int),
        final(out)@.len() == old(out)@.len() + tys@.len(),
        forall|c: int| 0 <= c < old(out)@.len() ==> final(out)@[c] == old(out)@[c],
        forall|c: int|
            0 <= c < tys@.len() ==> (#[trigger] final(out)@[old(out)@.len() + c]).ty() == tys@[c] && final(out)@[old(out)@.len() + c]@ == Seq::new(n as nat, |i: int| Val::Null),
{
    let mut c: usize = 0;
    let ghost m = out@.len() as int;
    while c < tys.len()
        invariant
            m == old(out)@.len(),
            c <= tys@.len(),
            out@.len() == m + c,
            cols_wf(out@, n as int),
            forall|d: int| 0 <= d < m ==> out@[d] == old(out)@[d],
            forall|d: int|
                0 <= d < c ==> (#[trigger] out@[m + d]).ty() == tys@[d] && out@[m + d]@ == Seq::new(
                    n as nat,
                    |i: int| Val::Null,
                ),
        decreases tys@.len() - c,
    {
        out.push(null_vector(tys[c], n));
        c = c + 1;
    }
}

/// Lays the right columns after the left ones: pairs of rows.
fn assemble_pairs(left: &Batch, build: &BuildSide, lidx: &Vec<u32>, ridx: &Vec<u32>) -> (b: Batch)
    requires
        left.wf(),
        build.wf(),
        lidx@.len() == ridx@.len(),
        lidx@.len() <= MAX_ROWS,
        forall|k: int| 0 <= k < lidx@.len() ==> #[trigger] lidx@[k] < left.spec_num_rows(),
        forall|k: int| 0 <= k < ridx@.len() ==> #[trigger] ridx@[k] < build.rows,
    ensures
        b.wf(),
        b.sel is None,
        b.types() == left.types() + build.types(),
        b.rows() == Seq::new(
            lidx@.len(),
            |k: int| row_at(left.cols@, lidx@[k] as int) + row_at(build.cols@, ridx@[k] as int),
        ),
{
    let mut out: Vec<Vector> = Vec::new();
    let n: usize = lidx.len();
    push_gathered(&mut out, &left.cols, lidx, left.num_rows());
    let ghost first = out@;
    push_gathered(&mut out, &build.cols, ridx, build.rows);
    let b = Batch::of_columns(out, n);
    proof {
        let m = left.cols@.len() as int;
        let want = Seq::new(
            n as nat,
            |k: int| row_at(left.cols@, lidx@[k] as int) + row_at(build.cols@, ridx@[k] as int),
        );
        assert forall|k: int| 0 <= k < n implies #[trigger] b.rows()[k] == want[k] by {
            assert forall|c: int| 0 <= c < m + build.cols@.len() implies b.rows()[k][c] == want[k][c] by {
                if c < m {
                    assert(first[0 + c]@ == gathered(left.cols@[c]@, lidx@));
                    assert(out@[c] == first[c]);
                } else {
                    assert(out@[first.len() + (c - m)]@ == gathered(build.cols@[c - m]@, ridx@));
                }
            }
            assert(b.rows()[k] =~= want[k]);
        }
        assert(b.rows() =~= want);
        assert forall|c: int| 0 <= c < b.types().len() implies b.types()[c] == (left.types() + build.types())[c] by {
            if c < m {
                assert(first[0 + c].ty() == left.cols@[c].ty());
                assert(out@[c] == first[c]);
            } else {
                assert(out@[first.len() + (c - m)].ty() == build.cols@[c - m].ty());
            }
        }
        assert(b.types() =~= left.types() + build.types());
    }
    b
}

/// Left rows, extended with NULLs for the given right columns.
fn assemble_left(left: &Batch, idx: &Vec<u32>, right_types: &Vec<Ty>) -> (b: Batch)
    requires
        left.wf(),
        idx@.len() <= MAX_ROWS,
        forall|k: int| 0 <= k < idx@.len() ==> #[trigger] idx@[k] < left.spec_num_rows(),
    ensures
        b.wf(),
        b.types() == left.types() + right_types@,
        b.rows() == Seq::new(idx@.len(), |k: int| row_at(left.cols@, idx@[k] as int) + nulls(right_types@.len())),
{
    let mut out: Vec<Vector> = Vec::new();
    let n: usize = idx.len();
    push_gathered(&mut out, &left.cols, idx, left.num_rows());
    let ghost first = out@;
    push_nulls(&mut out, right_types, n);
    let b = Batch::of_columns(out, n);
    proof {
        let m = left.cols@.len() as int;
        let want = Seq::new(n as nat, |k: int| row_at(left.cols@, idx@[k] as int) + nulls(right_types@.len()));
        assert forall|k: int| 0 <= k < n implies #[trigger] b.rows()[k] == want[k] by {
            assert forall|c: int| 0 <= c < m + right_types@.len() implies b.rows()[k][c] == want[k][c] by {
                if c < m {
                    assert(first[0 + c]@ == gathered(left.cols@[c]@, idx@));
                    assert(out@[c] == first[c]);
                } else {
                    assert(out@[first.len() + (c - m)]@ == Seq::new(n as nat, |i: int| Val::Null));
                }
            }
            assert(b.rows()[k] =~= want[k]);
        }
        assert(b.rows() =~= want);
        assert forall|c: int| 0 <= c < b.types().len() implies b.types()[c] == (left.types() + right_types@)[c] by {
            if c < m {
                assert(first[0 + c].ty() == left.cols@[c].ty());
                assert(out@[c] == first[c]);
            } else {
                assert(out@[first.len() + (c - m)].ty() == right_types@[c - m]);
            }
        }
        assert(b.types() =~= left.types() + right_types@);
    }
    b
}

/// Build rows, preceded by NULLs for the left columns.
fn assemble_right(left_types: &Vec<Ty>, build: &BuildSide, idx: &Vec<u32>) -> (b: Batch)
    requires
        build.wf(),
        idx@.len() <= MAX_ROWS,
        forall|k: int| 0 <= k < idx@.len() ==> #[trigger] idx@[k] < build.rows,
    ensures
        b.wf(),
        b.types() == left_types@ + build.types(),
        b.rows() == Seq::new(idx@.len(), |k: int| nulls(left_types@.len()) + row_at(build.cols@, idx@[k] as int)),
{
    let mut out: Vec<Vector> = Vec::new();
    let n: usize = idx.len();
    push_nulls(&mut out, left_types, n);
    let ghost first = out@;
    push_gathered(&mut out, &build.cols, idx, build.rows);
    let b = Batch::of_columns(out, n);
    proof {
        let m = left_types@.len() as int;
        let want = Seq::new(n as nat, |k: int| nulls(left_types@.len()) + row_at(build.cols@, idx@[k] as int));
        assert forall|k: int| 0 <= k < n implies #[trigger] b.rows()[k] == want[k] by {
            assert forall|c: int| 0 <= c < m + build.cols@.len() implies b.rows()[k][c] == want[k][c] by {
                if c < m {
                    assert(first[0 + c]@ == Seq::new(n as nat, |i: int| Val::Null));
                    assert(out@[c] == first[c]);
                } else {
                    assert(out@[first.len() + (c - m)]@ == gathered(build.cols@[c - m]@, idx@));
                }
            }
            assert(b.rows()[k] =~= want[k]);
        }
        assert(b.rows() =~= want);
        assert forall|c: int| 0 <= c < b.types().len() implies b.types()[c] == (left_types@ + build.types())[c] by {
            if c < m {
                assert(first[0 + c].ty() == left_types@[c]);
                assert(out@[c] == first[c]);
            } else {
                assert(out@[first.len() + (c - m)].ty() == build.cols@[c - m].ty());
            }
        }
        assert(b.types() =~= left_types@ + build.types());
    }
    b
}

// --- Flags ------------------------------------------------------------------------------

/// Whether a row is among the kept ones.
pub open spec fn hit(idx: Seq<u32>, keep: Seq<bool>, i: int) -> bool {
    exists|k: int| 0 <= k < idx.len() && #[trigger] idx[k] == i && keep[k]
}

fn mark(flags: &mut Vec<bool>, idx: &Vec<u32>, keep: &Vec<bool>)
    requires
        idx@.len() == keep@.len(),
        forall|k: int| 0 <= k < idx@.len() ==> #[trigger] idx@[k] < old(flags)@.len(),
    ensures
        final(flags)@.len() == old(flags)@.len(),
        forall|i: int|
            0 <= i < old(flags)@.len() ==> (#[trigger] final(flags)@[i]) == (old(flags)@[i] || hit(idx@, keep@, i)),
{
    let mut k: usize = 0;
    while k < idx.len()
        invariant
            idx@.len() == keep@.len(),
            k <= idx@.len(),
            flags@.len() == old(flags)@.len(),
            forall|k: int| 0 <= k < idx@.len() ==> #[trigger] idx@[k] < old(flags)@.len(),
            forall|i: int|
                0 <= i < old(flags)@.len() ==> (#[trigger] flags@[i]) == (old(flags)@[i] || hit(
                    idx@.take(k as int),
                    keep@,
                    i,
                )),
        decreases idx@.len() - k,
    {
        let ghost before = flags@;
        if keep[k] {
            flags.set(idx[k] as usize, true);
        }
        k = k + 1;
        proof {
            assert forall|i: int| 0 <= i < old(flags)@.len() implies (#[trigger] flags@[i]) == (old(flags)@[i] || hit(
                idx@.take(k as int),
                keep@,
                i,
            )) by {
                let was = idx@.take(k - 1);
                let now = idx@.take(k as int);
                assert(before[i] == (old(flags)@[i] || hit(was, keep@, i)));
                if hit(was, keep@, i) {
                    let j = choose|j: int| 0 <= j < was.len() && #[trigger] was[j] == i && keep@[j];
                    assert(now[j] == i && keep@[j]);
                }
                if hit(now, keep@, i) && !hit(was, keep@, i) {
                    let j = choose|j: int| 0 <= j < now.len() && #[trigger] now[j] == i && keep@[j];
                    if j < k - 1 {
                        assert(was[j] == i && keep@[j]);
                    }
                }
                if keep@[k - 1] && idx@[k - 1] == i {
                    assert(now[k - 1] == i && keep@[k - 1]);
                }
            }
        }
    }
    assert(idx@.take(k as int) =~= idx@);
}

/// The positions from `from` on whose flag is as wanted.
pub open spec fn flagged(flags: Seq<bool>, want: bool, from: int) -> Seq<int>
    decreases flags.len() - from,
{
    if from >= flags.len() {
        Seq::empty()
    } else if flags[from] == want {
        seq![from] + flagged(flags, want, from + 1)
    } else {
        flagged(flags, want, from + 1)
    }
}

/// Collects up to a batch of positions whose flag is as wanted, and moves past them.
fn take_flagged(flags: &Vec<bool>, want: bool, from: &mut usize) -> (idx: Vec<u32>)
    requires
        *old(from) <= flags@.len() <= u32::MAX,
    ensures
        *final(from) <= flags@.len(),
        ({
            let all = flagged(flags@, want, *old(from) as int);
            let n = if all.len() < BATCH_SIZE {
                all.len() as int
            } else {
                BATCH_SIZE as int
            };
            &&& idx@.len() == n
            &&& forall|k: int| 0 <= k < n ==> (#[trigger] idx@[k]) == all[k] && idx@[k] < flags@.len()
            &&& flagged(flags@, want, *final(from) as int) == all.skip(n)
        }),
{
    let mut idx: Vec<u32> = Vec::new();
    let ghost all = flagged(flags@, want, *from as int);
    assert(all.skip(0) =~= all);
    while *from < flags.len() && idx.len() < BATCH_SIZE
        invariant
            *from <= flags@.len() <= u32::MAX,
            all == flagged(flags@, want, *old(from) as int),
            idx@.len() <= BATCH_SIZE,
            idx@.len() <= all.len(),
            flagged(flags@, want, *from as int) == all.skip(idx@.len() as int),
            forall|k: int| 0 <= k < idx@.len() ==> (#[trigger] idx@[k]) == all[k] && idx@[k] < flags@.len(),
        decreases flags@.len() - *from,
    {
        if flags[*from] == want {
            proof {
                let now = all.skip(idx@.len() as int);
                assert(now[0] == *from);
                assert(now.skip(1) =~= flagged(flags@, want, *from + 1));
                assert(now.skip(1) =~= all.skip(idx@.len() as int + 1));
                assert(all[idx@.len() as int] == now[0]);
            }
            idx.push(*from as u32);
        }
        *from = *from + 1;
    }
    proof {
        if idx@.len() < BATCH_SIZE {
            assert(all.skip(idx@.len() as int).len() == 0);
        }
    }
    idx
}

// --- The operator -----------------------------------------------------------------------

#[derive(Clone, Copy, PartialEq, Eq, Structural, Debug)]
pub enum JoinPhase {
    /// Reading the right input through.
    Building,
    /// Probing the left input, batch by batch.
    Probing,
    /// Returning the build rows that no left row matched.
    DrainingUnmatched,
    Done,
}

pub struct HashJoin {
    pub left: Child,
    pub right: Child,
    pub kind: JoinKind,
    pub left_keys: Vec<Program>,
    pub right_keys: Vec<Program>,
    pub residual: Option<Program>,
    pub left_types: Vec<Ty>,
    pub right_types: Vec<Ty>,
    pub phase: JoinPhase,
    pub build: BuildSide,
    pub probe: Option<Probe>,
    /// The next build row to look at while draining.
    pub drain: usize,
    /// The looks taken for either side.
    pub log: Ghost<Seq<Look>>,
    pub trace: Ghost<Trace>,
}

/// Whether left rows without a match are returned.
pub open spec fn emits_unmatched_left(kind: JoinKind) -> bool {
    kind is Left || kind is Full || kind is Anti || kind is AntiNullAware
}

/// Whether build rows without a match are returned.
pub open spec fn emits_unmatched_right(kind: JoinKind) -> bool {
    kind is Right || kind is Full
}

fn unmatched_left(kind: JoinKind) -> (r: bool)
    ensures
        r == emits_unmatched_left(kind),
{
    match kind {
        JoinKind::Left | JoinKind::Full | JoinKind::Anti | JoinKind::AntiNullAware => true,
        _ => false,
    }
}

fn unmatched_right(kind: JoinKind) -> (r: bool)
    ensures
        r == emits_unmatched_right(kind),
{
    match kind {
        JoinKind::Right | JoinKind::Full => true,
        _ => false,
    }
}

/// What probing gave, as a step; having nothing to return is no interruption.
pub open spec fn as_step(r: Result<Option<Step>, Error>) -> Result<Step, Error> {
    match r {
        Ok(Some(s)) => Ok(s),
        Ok(None) => Ok(Step::Done),
        Err(e) => Err(e),
    }
}

/// What probing a chunk of pairs gave.
pub enum Probed {
    /// No pair is left.
    Exhausted,
    /// Pairs were tried, but there is nothing to return.
    Nothing,
    Rows(Batch),
}

/// Which of the pairs pass the residual.
pub open spec fn residual_keep(
    residual: Option<ProgramV>,
    tys: Seq<Ty>,
    rows: Seq<Seq<Val>>,
) -> Result<Seq<bool>, Code> {
    match residual {
        Some(p) => program_keep(p, tys, rows),
        None => Ok(Seq::new(rows.len(), |i: int| true)),
    }
}

impl HashJoin {
    /// The parts fit together.
    pub open spec fn inv(&self) -> bool {
        &&& self.build.wf()
        &&& self.build.nested == (self.right_keys@.len() == 0)
        &&& self.build.types() == self.right_types@
        &&& self.left_keys@.len() == self.right_keys@.len()
        &&& self.phase != JoinPhase::Building && emits_unmatched_right(self.kind) ==> self.build.matched@.len()
            == self.build.rows
        &&& self.phase == JoinPhase::DrainingUnmatched ==> emits_unmatched_right(self.kind) && self.drain <= self.build.rows
        &&& self.phase == JoinPhase::Building ==> self.probe is None && self.drain == 0
        &&& self.phase == JoinPhase::Probing ==> self.drain == 0
        &&& self.probe matches Some(p) ==> {
            &&& probe_ok(self.build, p)
            &&& self.trace@.ok ==> flags_ok(
                self.build,
                p,
                opt_prog(self.residual),
                self.kind.left_only(),
                self.kind is AntiNullAware,
            )
        }
    }

    /// What stays the same over the operator's life.
    pub open spec fn same_query(&self, other: HashJoin) -> bool {
        &&& self.kind == other.kind
        &&& self.log == other.log
        &&& self.left_keys == other.left_keys
        &&& self.right_keys == other.right_keys
        &&& self.residual == other.residual
        &&& self.left_types == other.left_types
        &&& self.right_types == other.right_types
        &&& self.trace == other.trace
    }

    /// The pairs of the current left batch that have not been tried.
    pub open spec fn pairs_left(&self) -> Seq<(int, int)> {
        match self.probe {
            Some(p) => pending(
                self.build,
                p.left_keys(),
                p.matched@,
                self.kind.left_only(),
                p.row as int,
                p.cursor,
            ),
            None => Seq::empty(),
        }
    }

    pub fn new(
        left: Child,
        right: Child,
        kind: JoinKind,
        left_keys: Vec<Program>,
        right_keys: Vec<Program>,
        residual: Option<Program>,
        left_types: Vec<Ty>,
        right_types: Vec<Ty>,
    ) -> (r: Result<HashJoin, Error>)
        requires
            left.op.wf(),
            right.op.wf(),
        ensures
            match r {
                Ok(j) => {
                    &&& left_keys@.len() == right_keys@.len()
                    &&& j.wf()
                    &&& j.left == left
                    &&& j.right == right
                    &&& j.kind == kind
                    &&& j.left_keys == left_keys
                    &&& j.right_keys == right_keys
                    &&& j.residual == residual
                    &&& j.left_types == left_types
                    &&& j.right_types == right_types
                    &&& j.phase == JoinPhase::Building
                    &&& j.build.rows == 0
                    &&& j.probe is None
                    &&& j.looked() == left.op.looked() + right.op.looked()
                    &&& j.trace@ == fresh_trace(left.op.returned() + right.op.returned())
                },
                Err(e) => left_keys@.len() != right_keys@.len() && e.code == Code::Internal,
            },
    {
        if left_keys.len() != right_keys.len() {
            return Err(Error::new(Code::Internal));
        }
        let build = BuildSide::new(&right_types, right_keys.len() == 0);
        let j = HashJoin {
                left,
                right,
                kind,
                left_keys,
                right_keys,
                residual,
                left_types,
                right_types,
                phase: JoinPhase::Building,
                build,
                probe: None,
                drain: 0,
                log: Ghost(left.op.looked() + right.op.looked()),
                trace: Ghost(fresh_trace(left.op.returned() + right.op.returned())),
            };
        proof {
            assert(j.left == left && j.right == right);
            lemma_within_sum(left.op.looked(), right.op.looked());
            if j.trace@.ok {
                assert(left.op.returned() =~= Seq::empty());
                assert(right.op.returned() =~= Seq::empty());
                assert(j.build.side() =~= side_of(j.asked(), Seq::empty()));
            }
        }
        Ok(j)
    }

    /// Takes a right batch into the build side.
    pub fn absorb(&mut self, vm: &Vm, batch: Batch) -> (r: Result<(), Error>)
        requires
            old(self).inv(),
            old(self).phase == JoinPhase::Building,
            batch.wf(),
        ensures
            final(self).inv(),
            *final(self) == (HashJoin { build: final(self).build, ..*old(self) }),
            if batch.rows().len() == 0 {
                r is Ok && final(self).build == old(self).build
            } else {
                match absorb_outcome(old(self).build, progs_of(old(self).right_keys@), chunk(batch)) {
                    Err(c) => (r matches Err(e) && e.code == c) && absorb_refused(
                        old(self).build,
                        progs_of(old(self).right_keys@),
                        chunk(batch),
                        final(self).build,
                    ),
                    Ok(new_keys) => {
                        &&& r is Ok
                        &&& final(self).build.counted == final(self).build.rows
                        &&& final(self).build.bytes == build_bytes_after(
                            old(self).build.bytes as int,
                            chunk_cols(chunk(batch)),
                            batch.types().len() as int,
                        )
                        &&& final(self).build.row_vals() == old(self).build.row_vals() + batch.rows()
                        &&& final(self).build.keys@ == old(self).build.keys@ + new_keys
                        &&& final(self).build.has_null == (old(self).build.has_null || (!old(self).build.nested
                            && exists|i: int| 0 <= i < new_keys.len() && (#[trigger] new_keys[i]) is None))
                    },
                }
            },
    {
        self.build.absorb(&self.right_keys, vm, batch)
    }

    /// The right input is read through. A NULL among its keys makes `NOT IN` unknown for
    /// every left row, so that nothing is returned.
    pub fn finish_build(&mut self)
        requires
            old(self).inv(),
            old(self).phase == JoinPhase::Building,
        ensures
            final(self).inv(),
            final(self).same_query(*old(self)),
            final(self).left == old(self).left,
            final(self).right == old(self).right,
            final(self).probe is None,
            final(self).build == (BuildSide { matched: final(self).build.matched, ..old(self).build }),
            final(self).build.side() == old(self).build.side(),
            emits_unmatched_right(old(self).kind) ==> forall|r: int|
                0 <= r < final(self).build.rows ==> !#[trigger] final(self).build.matched@[r],
            final(self).phase == if old(self).kind is AntiNullAware && old(self).build.has_null {
                JoinPhase::Done
            } else {
                JoinPhase::Probing
            },
    {
        if unmatched_right(self.kind) {
            self.build.matched = unset_flags(self.build.rows);
        }
        assert(self.build.row_vals() =~= old(self).build.row_vals());
        assert(self.build.types() =~= old(self).build.types());
        assert(self.build.side() =~= old(self).build.side());
        self.phase = if self.kind == JoinKind::AntiNullAware && self.build.has_null {
            JoinPhase::Done
        } else {
            JoinPhase::Probing
        };
    }

    /// Starts probing a left batch, unless it has no rows.
    pub fn begin_probe(&mut self, vm: &Vm, batch: Batch) -> (r: Result<(), Error>)
        requires
            old(self).inv(),
            old(self).phase == JoinPhase::Probing,
            old(self).probe is None,
            batch.wf(),
        ensures
            final(self).inv(),
            *final(self) == (HashJoin { probe: final(self).probe, ..*old(self) }),
            if batch.rows().len() == 0 {
                r is Ok && final(self).probe is None
            } else if batch.types().len() != old(self).left_types@.len() {
                (r matches Err(e) && e.code == Code::Internal) && final(self).probe is None
            } else {
                match programs_value(
                    progs_of(old(self).left_keys@),
                    batch.types(),
                    batch.rows(),
                    old(self).left_keys@.len() as int,
                ) {
                    Err(c) => (r matches Err(e) && e.code == c) && final(self).probe is None,
                    Ok(cols) => {
                        &&& r is Ok
                        &&& final(self).probe matches Some(p)
                        &&& p.batch.rows() == batch.rows()
                        &&& p.batch.types() == batch.types()
                        &&& p.left_keys() == join_keys(cols, batch.rows().len())
                        &&& p.row == 0
                        &&& p.cursor is None
                        &&& p.drain == 0
                        &&& forall|i: int|
                            0 <= i < p.rows() ==> (#[trigger] p.matched@[i]) == unknown(
                                old(self).build,
                                p,
                                old(self).kind is AntiNullAware,
                                i,
                            )
                    },
                }
            },
    {
        let mut batch = batch;
        let ghost given = batch;
        batch.materialize();
        let rows: usize = batch.num_rows();
        if rows == 0 {
            return Ok(());
        }
        assert(given.types().len() == given.cols@.len());
        if batch.cols.len() != self.left_types.len() {
            return Err(Error::new(Code::Internal));
        }
        let keys = match vm.eval_all(&self.left_keys, &batch) {
            Ok(k) => k,
            Err(e) => {
                return Err(e);
            },
        };
        let ghost lk = join_keys(cols_of(keys@), rows as nat);
        let leave_out: bool = self.kind == JoinKind::AntiNullAware && !self.build.nested && self.build.rows > 0;
        let mut matched: Vec<bool> = Vec::new();
        let refs = column_refs(&keys);
        let mut i: usize = 0;
        while i < rows
            invariant
                i <= rows,
                matched@.len() == i,
                cols_wf(keys@, rows as int),
                lk == join_keys(cols_of(keys@), rows as nat),
                refs@.unref() == keys@,
                refs@.len() == keys@.len(),
                forall|c: int| 0 <= c < refs@.len() ==> *(#[trigger] refs@[c]) == keys@[c],
                forall|j: int| 0 <= j < i ==> (#[trigger] matched@[j]) == (leave_out && lk[j] is None),
            decreases rows - i,
        {
            assert forall|c: int| 0 <= c < refs@.len() implies i < (#[trigger] refs@[c])@.len() by {
                assert(keys@[c]@.len() == rows);
            }
            proof {
                lemma_null_at(keys@, i as int);
            }
            let null: bool = key_has_null(refs.as_slice(), i);
            matched.push(leave_out && null);
            i = i + 1;
        }
        let p = Probe { batch, keys, row: 0, cursor: None, matched, drain: 0 };
        proof {
            let once = self.kind.left_only();
            assert(p.left_keys() == lk);
            assert forall|i: int, r: int| 0 <= i < p.rows() && #[trigger] is_match(
                self.build,
                p,
                opt_prog(self.residual),
                i,
                r,
            ) implies p.matched@[i] || pending(self.build, lk, p.matched@, once, 0, None).contains((i, r)) by {
                lemma_pending_contains(self.build, lk, p.matched@, once, 0, None, i, r);
            }
        }
        self.probe = Some(p);
        Ok(())
    }

    /// Tries up to a batch of candidate pairs.
    #[verifier::rlimit(40)]
    pub fn probe_chunk(&mut self, vm: &Vm) -> (r: Result<Probed, Error>)
        requires
            old(self).inv(),
            old(self).phase == JoinPhase::Probing,
            old(self).probe is Some,
        ensures
            final(self).inv(),
            final(self).same_query(HashJoin { trace: final(self).trace, ..*old(self) }),
            final(self).trace@ == if r is Err {
                lost_trace(old(self).trace@)
            } else {
                old(self).trace@
            },
            final(self).left == old(self).left,
            final(self).right == old(self).right,
            final(self).phase == old(self).phase,
            final(self).drain == old(self).drain,
            final(self).probe is Some,
            final(self).probe->0.batch == old(self).probe->0.batch,
            final(self).probe->0.keys == old(self).probe->0.keys,
            final(self).probe->0.drain == old(self).probe->0.drain,
            final(self).build == (BuildSide { matched: final(self).build.matched, ..old(self).build }),
            final(self).build.side() == old(self).build.side(),
            ({
                let p = old(self).probe->0;
                let b = old(self).build;
                let all = old(self).pairs_left();
                let n = if all.len() < BATCH_SIZE {
                    all.len() as int
                } else {
                    BATCH_SIZE as int
                };
                let rows = Seq::new(n as nat, |k: int| pair_row(b, p, all[k].0, all[k].1));
                if n == 0 {
                    &&& r matches Ok(Probed::Exhausted)
                    &&& final(self).pairs_left().len() == 0
                    &&& final(self).probe->0.matched == p.matched
                    &&& final(self).build.matched == b.matched
                } else {
                    match residual_keep(opt_prog(old(self).residual), pair_types(b, p), rows) {
                        Err(c) => {
                            &&& r matches Err(e) && e.code == c
                            &&& final(self).pairs_left() == all.skip(n)
                            &&& final(self).probe->0.matched == p.matched
                            &&& final(self).build == b
                            &&& 0 <= all[0].0 < p.rows() && 0 <= all[0].1 < b.rows
                        },
                        Ok(keep) => {
                            &&& !old(self).kind.left_only() ==> final(self).pairs_left() == all.skip(n)
                            &&& final(self).pairs_left().len() < all.len()
                            &&& forall|i: int|
                                0 <= i < p.rows() ==> (#[trigger] final(self).probe->0.matched@[i]) == (p.matched@[i]
                                    || exists|k: int| 0 <= k < n && (#[trigger] all[k]).0 == i && keep[k])
                            &&& emits_unmatched_right(old(self).kind) ==> forall|x: int|
                                0 <= x < b.rows ==> (#[trigger] final(self).build.matched@[x]) == (b.matched@[x]
                                    || exists|k: int| 0 <= k < n && (#[trigger] all[k]).1 == x && keep[k])
                            &&& match r {
                                Ok(Probed::Rows(out)) => {
                                    &&& !old(self).kind.left_only()
                                    &&& any_set(keep)
                                    &&& out.wf()
                                    &&& 0 < out.rows().len() <= BATCH_SIZE
                                    &&& out.types() == pair_types(b, p)
                                    &&& out.rows() == kept(rows, keep)
                                },
                                Ok(Probed::Nothing) => old(self).kind.left_only() || !any_set(keep),
                                _ => false,
                            }
                        },
                    }
                }
            }),
    {
        let once: bool = self.kind.is_semi();
        let mut p: Probe = match self.probe.take() {
            Some(p) => p,
            None => {
                return Err(Error::new(Code::Internal));
            },
        };
        let ghost p0 = p;
        let ghost b0 = self.build;
        let ghost all = pending(b0, p0.left_keys(), p0.matched@, once, p0.row as int, p0.cursor);
        let (lidx, ridx) = fill_pairs(&self.build, &mut p, once);
        let ghost n = lidx@.len() as int;
        assert forall|k: int| 0 <= k < n implies (#[trigger] ridx@[k]) == all[k].1 && ridx@[k] < self.build.rows by {
            assert(lidx@[k] == all[k].0);
        }
        let ghost rows = Seq::new(n as nat, |k: int| pair_row(b0, p0, all[k].0, all[k].1));
        let ghost rest = all.skip(n);
        if lidx.len() == 0 {
            proof {
                assert(rest =~= all);
                if self.trace@.ok {
                    lemma_flags_moved(b0, p0, p, opt_prog(self.residual), once, self.kind is AntiNullAware);
                }
            }
            self.probe = Some(p);
            return Ok(Probed::Exhausted);
        }
        let out = assemble_pairs(&p.batch, &self.build, &lidx, &ridx);
        proof {
            assert(out.rows() =~= rows);
        }
        let keep: Vec<bool> = match &self.residual {
            Some(prog) => match vm.eval_flags(prog, &out) {
                Ok(k) => k,
                Err(e) => {
                    assert(lidx@[0] == all[0].0 && ridx@[0] == all[0].1);
                    self.probe = Some(p);
                    self.trace = Ghost(lost_trace(self.trace@));
                    return Err(e);
                },
            },
            None => set_flags(lidx.len()),
        };
        proof {
            assert(residual_keep(opt_prog(self.residual), pair_types(b0, p0), rows) == Ok::<Seq<bool>, Code>(keep@)) by {
                if self.residual is None {
                    assert(keep@ =~= Seq::new(rows.len(), |i: int| true));
                }
            }
        }
        mark(&mut p.matched, &lidx, &keep);
        if unmatched_right(self.kind) {
            mark(&mut self.build.matched, &ridx, &keep);
        }
        proof {
            lemma_hits(lidx@, all, keep@, n, true);
            lemma_hits(ridx@, all, keep@, n, false);
            if self.trace@.ok {
                lemma_flags_kept(
                    b0,
                    p0,
                    p,
                    opt_prog(self.residual),
                    once,
                    self.kind is AntiNullAware,
                    all,
                    n,
                    keep@,
                );
                lemma_flags_same_build(b0, self.build, p, opt_prog(self.residual), once, self.kind is AntiNullAware);
            }
            assert(self.build.types() =~= b0.types());
            assert(self.build.side() =~= b0.side());
            lemma_pending_same_build(b0, self.build, p.left_keys(), p.matched@, once, p.row as int, p.cursor);
            lemma_pending_shrinks(b0, p.left_keys(), p0.matched@, p.matched@, once, p.row as int, p.cursor);
            if !once {
                lemma_pending_any_flags(b0, p.left_keys(), p0.matched@, p.matched@, p.row as int, p.cursor);
            }
        }
        self.probe = Some(p);
        if once {
            return Ok(Probed::Nothing);
        }
        proof {
            lemma_kept_some(rows, keep@);
            crate::vector::lemma_kept_subset(rows, keep@);
        }
        if self.residual.is_none() {
            proof {
                crate::vector::lemma_kept_all(rows, keep@);
                assert(keep@[0]);
            }
            return Ok(Probed::Rows(out));
        }
        let b = out.narrowed(&keep);
        if b.card() == 0 {
            return Ok(Probed::Nothing);
        }
        Ok(Probed::Rows(b))
    }

    /// Returns left rows themselves, once their candidates are exhausted: for LEFT and FULL
    /// the unmatched ones with NULLs, for ANTI the unmatched ones, for SEMI the matched ones.
    pub fn drain_left(&mut self) -> (r: Option<Batch>)
        requires
            old(self).inv(),
            old(self).probe is Some,
        ensures
            final(self).inv(),
            final(self).probe is Some,
            *final(self) == (HashJoin { probe: final(self).probe, ..*old(self) }),
            final(self).probe->0 == (Probe { drain: final(self).probe->0.drain, ..old(self).probe->0 }),
            ({
                let p = old(self).probe->0;
                let semi = old(self).kind is Semi;
                let all = if emits_unmatched_left(old(self).kind) || semi {
                    flagged(p.matched@, semi, p.drain as int)
                } else {
                    Seq::empty()
                };
                let n = if all.len() < BATCH_SIZE {
                    all.len() as int
                } else {
                    BATCH_SIZE as int
                };
                let pad = if old(self).kind.left_only() {
                    Seq::empty()
                } else {
                    nulls(old(self).right_types@.len())
                };
                match r {
                    Some(b) => {
                        &&& n > 0
                        &&& b.wf()
                        &&& b.types() == p.batch.types() + if old(self).kind.left_only() {
                            Seq::empty()
                        } else {
                            old(self).right_types@
                        }
                        &&& b.rows() == Seq::new(n as nat, |k: int| row_at(p.batch.cols@, all[k]) + pad)
                        &&& flagged(p.matched@, semi, final(self).probe->0.drain as int) == all.skip(n)
                    },
                    None => n == 0,
                }
            }),
    {
        let semi: bool = self.kind == JoinKind::Semi;
        if !(unmatched_left(self.kind) || semi) {
            return None;
        }
        let once: bool = self.kind.is_semi();
        let mut p: Probe = match self.probe.take() {
            Some(p) => p,
            None => {
                return None;
            },
        };
        let ghost p0 = p;
        let idx = take_flagged(&p.matched, semi, &mut p.drain);
        proof {
            if self.trace@.ok {
                lemma_flags_moved(self.build, p0, p, opt_prog(self.residual), once, self.kind is AntiNullAware);
            }
        }
        if idx.len() == 0 {
            self.probe = Some(p);
            return None;
        }
        let none: Vec<Ty> = Vec::new();
        let b = assemble_left(&p.batch, &idx, if once { &none } else { &self.right_types });
        proof {
            let all = flagged(p0.matched@, semi, p0.drain as int);
            let pad = if self.kind.left_only() {
                Seq::empty()
            } else {
                nulls(self.right_types@.len())
            };
            assert(nulls(0) =~= Seq::<Val>::empty());
            assert(b.rows() =~= Seq::new(idx@.len(), |k: int| row_at(p0.batch.cols@, all[k]) + pad));
            if once {
                assert(none@ =~= Seq::<Ty>::empty());
            }
        }
        self.probe = Some(p);
        Some(b)
    }

    /// Returns the build rows that no left row matched, preceded by NULLs.
    pub fn drain_right(&mut self) -> (r: Option<Batch>)
        requires
            old(self).inv(),
            old(self).phase == JoinPhase::DrainingUnmatched,
        ensures
            final(self).inv(),
            *final(self) == (HashJoin { drain: final(self).drain, ..*old(self) }),
            ({
                let all = flagged(old(self).build.matched@, false, old(self).drain as int);
                let n = if all.len() < BATCH_SIZE {
                    all.len() as int
                } else {
                    BATCH_SIZE as int
                };
                match r {
                    Some(b) => {
                        &&& n > 0
                        &&& b.wf()
                        &&& b.types() == old(self).left_types@ + old(self).build.types()
                        &&& b.rows() == Seq::new(
                            n as nat,
                            |k: int| nulls(old(self).left_types@.len()) + row_at(old(self).build.cols@, all[k]),
                        )
                        &&& flagged(old(self).build.matched@, false, final(self).drain as int) == all.skip(n)
                    },
                    None => n == 0,
                }
            }),
    {
        let ghost all = flagged(self.build.matched@, false, self.drain as int);
        let idx = take_flagged(&self.build.matched, false, &mut self.drain);
        if idx.len() == 0 {
            return None;
        }
        let b = assemble_right(&self.left_types, &self.build, &idx);
        proof {
            assert(b.rows() =~= Seq::new(
                idx@.len(),
                |k: int| nulls(self.left_types@.len()) + row_at(self.build.cols@, all[k]),
            ));
        }
        Some(b)
    }

    /// Advances the probing by one step; `None` if there was nothing to return.
    #[verifier::rlimit(60)]
    fn probe_step(&mut self, ctx: &mut ExecContext) -> (r: Result<Option<Step>, Error>)
        requires
            old(self).wf(),
            old(self).phase == JoinPhase::Probing,
            old(self).left.said@.goes_on(),
            old(ctx).wf(),
        ensures
            asks(*old(ctx), as_step(r), *final(ctx), old(self).looked(), final(self).looked()),
            looked_on(old(self).looked(), old(ctx).catalog, final(self).looked(), final(ctx).catalog),
            answers(
                as_step(r),
                *final(ctx),
                final(self).left.said@,
                old(self).traced(),
                final(self).plan(),
                final(self).left.op.returned(),
                final(self).right.op.returned(),
            ),
            old(self).traced() && old(self).sound(old(ctx).catalog.mem@) ==> (why_of(as_step(r)) matches Some(why) ==> stops(
                final(self).plan(),
                old(ctx).catalog.mem@,
                final(self).looked(),
                why,
            )),
            old(self).probe is Some ==> final(self).left == old(self).left,
            final(self).traced() ==> final(self).left.op.returned().len() == old(self).left.op.returned().len() + if old(
                self,
            ).probe is None && final(self).left.said@ is Batch {
                1int
            } else {
                0int
            },
            r matches Ok(None) ==> if old(self).probe is Some {
                final(self).phase == JoinPhase::Probing && final(self).effort() < old(self).effort()
            } else {
                &&& final(self).left.said@ is Batch || final(self).left.said@ is End
                &&& final(self).left.said@ is End <==> final(self).phase != JoinPhase::Probing
            },
            final(self).wf(),
            final(ctx).wf(),
            final(ctx).same_data(*old(ctx)),
            final(self).same_asked(*old(self)),
            final(self).left.op.plan() == old(self).left.op.plan(),
            final(self).right == old(self).right,
            r matches Ok(Some(s)) ==> !(s is Done),
            r matches Ok(Some(Step::Ready(b))) ==> b.wf() && 0 < b.rows().len() <= BATCH_SIZE,
            final(self).traced() ==> (r matches Ok(Some(Step::Ready(b))) ==> join_portion(
                final(self).asked(),
                final(self).left.op.returned(),
                chunk(b),
            )),
            final(self).traced() ==> old(self).traced() && final(self).trace@.out == match r {
                Ok(Some(Step::Ready(b))) => old(self).trace@.out.push(chunk(b)),
                _ => old(self).trace@.out,
            },
            r is Ok && old(self).traced() ==> final(self).traced(),
            old(self).sound(old(ctx).catalog.mem@) && final(self).traced() ==> final(self).sound(old(ctx).catalog.mem@),
            final(self).phase == JoinPhase::Probing || final(self).phase == if emits_unmatched_right(old(self).kind) {
                JoinPhase::DrainingUnmatched
            } else {
                JoinPhase::Done
            },
    {
        let ghost q = self.asked();
        let ghost side = self.build.side();
        let ghost mem = old(ctx).catalog.mem@;
        proof {
            lemma_no_look(self.looked(), ctx.catalog);
        }
        if self.probe.is_none() {
            let ghost before = self.left.op.returned();
            let ghost at = self.left.op.looked();
            let ghost log = self.log@;
            let ghost from = ctx.catalog;
            let step = self.left.pull(ctx);
            self.log = Ghost(added(log, at, self.left.op.looked()));
            proof {
                lemma_beside(log, at, from, self.left.op.looked(), ctx.catalog);
                lemma_looked_twice(old(self).looked(), old(ctx).catalog, log, from, self.looked(), ctx.catalog);
            }
            match step {
                Ok(Step::Ready(b)) => {
                    let ghost c = chunk(b);
                    match self.begin_probe(&ctx.vm, b) {
                        Ok(()) => {
                            proof {
                                if self.traced() {
                                    self.lemma_probe_begun(before, c);
                                    lemma_keyed_push(progs_of(self.left_keys@), before, c);
                                    lemma_shaped_more(q, before, c, self.trace@.out);
                                }
                            }
                        },
                        Err(e) => {
                            self.trace = Ghost(lost_trace(self.trace@));
                            proof {
                                if old(self).traced() {
                                    assert(self.left.op.returned() == before.push(c));
                                    assert(join_stuck(
                                        self.asked(),
                                        self.left.op.returned(),
                                        self.right.op.returned(),
                                        e.code,
                                    ));
                                    assert(stuck(
                                        self.plan(),
                                        self.left.op.returned(),
                                        self.right.op.returned(),
                                        e.code,
                                    ));
                                }
                                self.lemma_stops(mem);
                            }
                            return Err(e);
                        },
                    }
                },
                Ok(Step::Done) => {
                    self.phase = if unmatched_right(self.kind) {
                        JoinPhase::DrainingUnmatched
                    } else {
                        JoinPhase::Done
                    };
                    proof {
                        if self.traced() {
                            let xs = self.left.op.returned();
                            assert(joined_left(q, side, xs) + Seq::<Seq<Val>>::empty() =~= joined_left(q, side, xs));
                        }
                    }
                    return Ok(None);
                },
                Ok(other) => {
                    proof {
                        self.lemma_stops(mem);
                    }
                    return Ok(Some(other));
                },
                Err(e) => {
                    proof {
                        self.lemma_stops(mem);
                    }
                    return Err(e);
                },
            }
            if self.probe.is_none() {
                return Ok(None);
            }
        }
        let ghost was = *self;
        match self.probe_chunk(&ctx.vm) {
            Ok(Probed::Rows(b)) => {
                self.trace = Ghost(grown_trace(self.trace@, chunk(b)));
                proof {
                    if self.traced() {
                        lemma_flat_push(was.trace@.out, chunk(b));
                        lemma_pairs_tried(was, *self, Some(b));
                        lemma_left_portion(was, b);
                    }
                }
                return Ok(Some(Step::Ready(b)));
            },
            Ok(Probed::Nothing) => {
                proof {
                    if self.traced() {
                        lemma_pairs_tried(was, *self, None);
                    }
                }
                return Ok(None);
            },
            Ok(Probed::Exhausted) => {},
            Err(e) => {
                proof {
                    if old(self).traced() {
                        lemma_residual_stuck(was, e.code);
                        assert(self.asked() == was.asked());
                        assert(stuck(self.plan(), self.left.op.returned(), self.right.op.returned(), e.code));
                    }
                    self.lemma_stops(mem);
                }
                return Err(e);
            },
        }
        let ghost mid = *self;
        proof {
            if self.traced() {
                assert(was.pairs_left().len() == 0);
                assert(mid.pairs_left() =~= was.pairs_left());
                lemma_left_flags(q, mid.build, mid.probe->0, mid.kind.left_only());
            }
        }
        if let Some(b) = self.drain_left() {
            self.trace = Ghost(grown_trace(self.trace@, chunk(b)));
            proof {
                if self.traced() {
                    lemma_flat_push(was.trace@.out, chunk(b));
                    lemma_left_drained(mid, *self, b);
                    lemma_left_portion(mid, b);
                }
            }
            return Ok(Some(Step::Ready(b)));
        }
        proof {
            if mid.traced() {
                let p = mid.probe->0;
                assert(own_rows(q, side, p.lot(), p.drain as int) =~= Seq::empty());
                lemma_lot_done(
                    q,
                    side,
                    mid.left.op.returned(),
                    mid.build.matched@,
                    mid.trace@.out,
                    p.lot(),
                    mid.pairs_left(),
                    p.drain as int,
                );
            }
        }
        self.probe = None;
        Ok(None)
    }

    /// What the join is asked for.
    pub open spec fn asked(&self) -> JoinV {
        JoinV {
            kind: self.kind,
            left_keys: progs_of(self.left_keys@),
            right_keys: progs_of(self.right_keys@),
            residual: opt_prog(self.residual),
            left_types: self.left_types@,
            right_types: self.right_types@,
        }
    }

    pub open spec fn same_asked(&self, other: HashJoin) -> bool {
        &&& self.kind == other.kind
        &&& self.left_keys == other.left_keys
        &&& self.right_keys == other.right_keys
        &&& self.residual == other.residual
        &&& self.left_types == other.left_types
        &&& self.right_types == other.right_types
    }

    /// What is still to be done with the current left batch.
    pub open spec fn effort(&self) -> nat {
        match self.probe {
            None => 0,
            Some(_) => 1 + self.pairs_left().len(),
        }
    }

    /// How what has been returned follows from what came in.
    pub open spec fn accounted(&self) -> bool {
        let q = self.asked();
        let s = self.build.side();
        let xs = self.left.op.returned();
        let out = self.trace@.out;
        let null_aware = self.kind is AntiNullAware && has_null_key(s);
        &&& s == side_of(q, self.right.op.returned())
        &&& self.build.has_null == has_null_key(s)
        &&& self.build.counted == self.build.rows
        &&& self.build.bytes == taken_bytes(self.right.op.returned())
        &&& match self.phase {
            JoinPhase::Building => xs.len() == 0 && out.len() == 0,
            JoinPhase::Probing => {
                &&& self.right.op.spent()
                &&& !null_aware
                &&& match self.probe {
                    None => idle_ok(q, s, xs, self.build.matched@, out),
                    Some(p) => busy_ok(
                        q,
                        s,
                        xs,
                        self.build.matched@,
                        out,
                        p.lot(),
                        self.pairs_left(),
                        p.drain as int,
                    ),
                }
            },
            JoinPhase::DrainingUnmatched => {
                &&& self.right.op.spent() && self.left.op.spent()
                &&& !null_aware
                &&& self.build.matched@ == right_flags(q, s, xs)
                &&& flat(out) + right_rows(q, s, xs, self.drain as int) == joined(q, s, xs)
            },
            JoinPhase::Done => {
                &&& self.right.op.spent() && (null_aware || self.left.op.spent())
                &&& null_aware ==> xs.len() == 0
                &&& flat(out) == joined(q, s, xs)
            },
        }
    }

    /// A left batch is there to be probed.
    proof fn lemma_probe_begun(&self, before: Seq<Chunk>, c: Chunk)
        requires
            self.inv(),
            self.left.op.returned() == before.push(c),
            idle_ok(self.asked(), self.build.side(), before, self.build.matched@, self.trace@.out),
            if c.rows.len() == 0 {
                self.probe is None
            } else {
                &&& self.probe matches Some(p) && {
                    &&& p.batch.rows() == c.rows
                    &&& p.batch.types() == c.types
                    &&& p.left_keys() == keys_of_chunk(self.asked().left_keys, c)
                    &&& p.row == 0
                    &&& p.cursor is None
                    &&& p.drain == 0
                }
            },
        ensures
            match self.probe {
                None => idle_ok(
                    self.asked(),
                    self.build.side(),
                    self.left.op.returned(),
                    self.build.matched@,
                    self.trace@.out,
                ),
                Some(p) => busy_ok(
                    self.asked(),
                    self.build.side(),
                    self.left.op.returned(),
                    self.build.matched@,
                    self.trace@.out,
                    p.lot(),
                    self.pairs_left(),
                    p.drain as int,
                ),
            },
    {
        let q = self.asked();
        let s = self.build.side();
        match self.probe {
            None => {
                lemma_passed_over(q, s, before, self.build.matched@, self.trace@.out, c);
            },
            Some(p) => {
                assert(p.lot() =~= lot_of(q.left_keys, c));
                lemma_all_pending(self.build, p.left_keys(), p.matched@, 0);
                lemma_begun(q, s, before, self.build.matched@, self.trace@.out, c, self.pairs_left());
            },
        }
    }
}

/// With more rows matched, no more pairs are pending.
proof fn lemma_pending_shrinks(
    b: BuildSide,
    lk: Seq<Option<Seq<u8>>>,
    m: Seq<bool>,
    m2: Seq<bool>,
    once: bool,
    row: int,
    cursor: Option<u32>,
)
    requires
        0 <= row,
        forall|i: int| 0 <= i < lk.len() && #[trigger] m[i] ==> m2[i],
    ensures
        pending(b, lk, m2, once, row, cursor).len() <= pending(b, lk, m, once, row, cursor).len(),
    decreases lk.len() - row,
{
    if row < lk.len() {
        lemma_pending_shrinks(b, lk, m, m2, once, row + 1, None);
    }
}

/// A chunk of pairs was tried.
proof fn lemma_pairs_tried(was: HashJoin, now: HashJoin, b: Option<Batch>)
    requires
        was.inv(),
        was.accounted(),
        was.phase == JoinPhase::Probing,
        was.probe is Some,
        now.probe is Some,
        now.same_asked(was),
        now.phase == was.phase,
        now.left == was.left,
        now.right == was.right,
        now.build == (BuildSide { matched: now.build.matched, ..was.build }),
        now.build.side() == was.build.side(),
        now.probe->0.batch == was.probe->0.batch,
        now.probe->0.keys == was.probe->0.keys,
        now.probe->0.drain == was.probe->0.drain,
        now.inv(),
        match b {
            Some(b) => flat(now.trace@.out) == flat(was.trace@.out) + b.rows(),
            None => flat(now.trace@.out) == flat(was.trace@.out),
        },
        ({
            let p = was.probe->0;
            let bs = was.build;
            let all = was.pairs_left();
            let n = if all.len() < BATCH_SIZE {
                all.len() as int
            } else {
                BATCH_SIZE as int
            };
            let rows = Seq::new(n as nat, |k: int| pair_row(bs, p, all[k].0, all[k].1));
            &&& n > 0
            &&& residual_keep(opt_prog(was.residual), pair_types(bs, p), rows) matches Ok(keep) && {
                &&& !was.kind.left_only() ==> now.pairs_left() == all.skip(n)
                &&& emits_unmatched_right(was.kind) ==> forall|x: int|
                    0 <= x < bs.rows ==> (#[trigger] now.build.matched@[x]) == (bs.matched@[x] || exists|k: int|
                        0 <= k < n && (#[trigger] all[k]).1 == x && keep[k])
                &&& match b {
                    Some(b) => !was.kind.left_only() && b.rows() == kept(rows, keep),
                    None => was.kind.left_only() || !any_set(keep),
                }
            }
        }),
    ensures
        now.accounted(),
{
    let q = was.asked();
    let s = was.build.side();
    let p = was.probe->0;
    let l = p.lot();
    let all = was.pairs_left();
    let n = if all.len() < BATCH_SIZE {
        all.len() as int
    } else {
        BATCH_SIZE as int
    };
    let ps = all.take(n);
    let rows = Seq::new(n as nat, |k: int| pair_row(was.build, p, all[k].0, all[k].1));
    let keep = residual_keep(opt_prog(was.residual), pair_types(was.build, p), rows)->Ok_0;
    if !was.kind.left_only() {
        let whole = all_pairs(s, l);
        let t = whole.len() - all.len();
        crate::exec::joined::lemma_pairs_in_range(s, l.keys, 0);
        assert forall|k: int| 0 <= k < ps.len() implies 0 <= (#[trigger] ps[k]).0 < p.rows() && 0 <= ps[k].1
            < was.build.rows by {
            assert(whole.skip(t)[k] == whole[t + k]);
            assert(ps[k] == all[k]);
        }
        assert(rows =~= Seq::new(ps.len(), |k: int| pair_row(was.build, p, ps[k].0, ps[k].1)));
        lemma_chunk_meant(q, was.build, p, ps, keep);
        let fl = Seq::new(ps.len(), |k: int| pair_passes(q, s, l, ps[k]));
        lemma_kept_some(rows, keep);
        assert(match_rows(q, s, l, ps) == kept(rows, keep));
        if b is None {
            assert(kept(rows, keep) =~= Seq::empty());
            assert(flat(was.trace@.out) + kept(rows, keep) =~= flat(was.trace@.out));
        }
        if emits_unmatched_right(was.kind) {
            assert forall|x: int| 0 <= x < s.rows.len() implies (#[trigger] now.build.matched@[x]) == (
            was.build.matched@[x] || hit_in(q, s, l, ps, x)) by {
                if hit_in(q, s, l, ps, x) {
                    let k = choose|k: int| 0 <= k < ps.len() && (#[trigger] ps[k]).1 == x && pair_passes(q, s, l, ps[k]);
                    assert(all[k].1 == x && keep[k]);
                }
                if exists|k: int| 0 <= k < n && (#[trigger] all[k]).1 == x && keep[k] {
                    let k = choose|k: int| 0 <= k < n && (#[trigger] all[k]).1 == x && keep[k];
                    assert(ps[k].1 == x && pair_passes(q, s, l, ps[k]));
                }
            }
        }
    } else {
        assert(flat(was.trace@.out) + match_rows(q, s, l, ps) =~= flat(was.trace@.out));
    }
    lemma_tried(
        q,
        s,
        was.left.op.returned(),
        was.build.matched@,
        now.build.matched@,
        was.trace@.out,
        now.trace@.out,
        l,
        all,
        now.pairs_left(),
        n,
        p.drain as int,
    );
    assert(now.probe->0.lot() =~= l);
}

/// Left rows were returned by themselves.
proof fn lemma_left_drained(was: HashJoin, now: HashJoin, b: Batch)
    requires
        was.inv(),
        was.accounted(),
        was.phase == JoinPhase::Probing,
        was.probe is Some,
        was.pairs_left().len() == 0,
        was.probe->0.matched@ == left_flags(was.asked(), was.build.side(), was.probe->0.lot()),
        now == (HashJoin { probe: now.probe, trace: now.trace, ..was }),
        now.probe is Some,
        now.probe->0 == (Probe { drain: now.probe->0.drain, ..was.probe->0 }),
        flat(now.trace@.out) == flat(was.trace@.out) + b.rows(),
        ({
            let p = was.probe->0;
            let semi = was.kind is Semi;
            let all = if emits_unmatched_left(was.kind) || semi {
                flagged(p.matched@, semi, p.drain as int)
            } else {
                Seq::empty()
            };
            let n = if all.len() < BATCH_SIZE {
                all.len() as int
            } else {
                BATCH_SIZE as int
            };
            let pad = if was.kind.left_only() {
                Seq::empty()
            } else {
                nulls(was.right_types@.len())
            };
            &&& n > 0
            &&& b.rows() == Seq::new(n as nat, |k: int| row_at(p.batch.cols@, all[k]) + pad)
            &&& flagged(p.matched@, semi, now.probe->0.drain as int) == all.skip(n)
        }),
    ensures
        now.accounted(),
{
    let q = was.asked();
    let s = was.build.side();
    let p = was.probe->0;
    let l = p.lot();
    let semi = was.kind is Semi;
    let idx = flagged(p.matched@, semi, p.drain as int);
    let n = if idx.len() < BATCH_SIZE {
        idx.len() as int
    } else {
        BATCH_SIZE as int
    };
    lemma_own_rest(q, s, l, p.drain as int, now.probe->0.drain as int, n);
    lemma_flagged_range(p.matched@, semi, p.drain as int);
    let pad = if q.kind.left_only() {
        Seq::empty()
    } else {
        nulls(q.right_types.len())
    };
    assert forall|k: int| 0 <= k < n implies #[trigger] b.rows()[k] == l.rows[idx[k]] + pad by {
        assert(0 <= idx[k] < p.matched@.len());
        assert(p.batch.rows()[idx[k]] == row_at(p.batch.cols@, idx[k]));
    }
    assert(b.rows() =~= Seq::new(n as nat, |k: int| l.rows[idx[k]] + pad));
    lemma_owned(
        q,
        s,
        was.left.op.returned(),
        was.build.matched@,
        was.trace@.out,
        now.trace@.out,
        l,
        was.pairs_left(),
        p.drain as int,
        now.probe->0.drain as int,
        b.rows(),
    );
    assert(now.probe->0.lot() =~= l);
}

/// A batch with the columns of the left batch being probed can be handed out.
proof fn lemma_left_portion(j: HashJoin, b: Batch)
    requires
        j.inv(),
        j.accounted(),
        j.phase == JoinPhase::Probing,
        j.probe is Some,
        join_shaped(j.asked(), j.left.op.returned(), j.trace@.out),
        0 < b.rows().len() <= BATCH_SIZE,
        b.types() == j.probe->0.batch.types() + right_part(j.asked()),
    ensures
        join_portion(j.asked(), j.left.op.returned(), chunk(b)),
        join_shaped(j.asked(), j.left.op.returned(), j.trace@.out.push(chunk(b))),
{
    let ls = j.left.op.returned();
    assert(j.probe->0.lot() == lot_of(j.asked().left_keys, ls.last()));
    assert(ls[ls.len() - 1].types == j.probe->0.batch.types());
    assert(wider_portion(chunk(b), ls, right_part(j.asked())));
    lemma_shaped_push(j.asked(), ls, j.trace@.out, chunk(b));
}

proof fn lemma_flagged_range(flags: Seq<bool>, want: bool, from: int)
    requires
        0 <= from,
    ensures
        forall|k: int|
            0 <= k < flagged(flags, want, from).len() ==> from <= (#[trigger] flagged(flags, want, from)[k]) < flags.len(),
    decreases flags.len() - from,
{
    if from < flags.len() {
        lemma_flagged_range(flags, want, from + 1);
        let rest = flagged(flags, want, from + 1);
        let all = flagged(flags, want, from);
        assert forall|k: int| 0 <= k < all.len() implies from <= (#[trigger] all[k]) < flags.len() by {
            if flags[from] == want {
                if k > 0 {
                    assert(all[k] == rest[k - 1]);
                }
            } else {
                assert(all[k] == rest[k]);
            }
        }
    }
}

fn set_flags(n: usize) -> (r: Vec<bool>)
    ensures
        r@ == Seq::new(n as nat, |i: int| true),
{
    let mut r: Vec<bool> = Vec::new();
    let mut i: usize = 0;
    while i < n
        invariant
            i <= n,
            r@ == Seq::new(i as nat, |i: int| true),
        decreases n - i,
    {
        r.push(true);
        i = i + 1;
        assert(r@ =~= Seq::new(i as nat, |i: int| true));
    }
    r
}

fn unset_flags(n: usize) -> (r: Vec<bool>)
    ensures
        r@ == Seq::new(n as nat, |i: int| false),
{
    let mut r: Vec<bool> = Vec::new();
    let mut i: usize = 0;
    while i < n
        invariant
            i <= n,
            r@ == Seq::new(i as nat, |i: int| false),
        decreases n - i,
    {
        r.push(false);
        i = i + 1;
        assert(r@ =~= Seq::new(i as nat, |i: int| false));
    }
    r
}

/// Moving on without trying a pair keeps the flags right.
proof fn lemma_flags_moved(b: BuildSide, p0: Probe, p: Probe, residual: Option<ProgramV>, once: bool, null_aware: bool)
    requires
        flags_ok(b, p0, residual, once, null_aware),
        p.batch == p0.batch,
        p.keys == p0.keys,
        p.matched == p0.matched,
        pending(b, p.left_keys(), p.matched@, once, p.row as int, p.cursor) == pending(
            b,
            p0.left_keys(),
            p0.matched@,
            once,
            p0.row as int,
            p0.cursor,
        ),
    ensures
        flags_ok(b, p, residual, once, null_aware),
{
    assert forall|i: int, r: int| 0 <= i < p.rows() && #[trigger] is_match(b, p, residual, i, r) implies p.matched@[i]
        || pending(b, p.left_keys(), p.matched@, once, p.row as int, p.cursor).contains((i, r)) by {
        assert(is_match(b, p0, residual, i, r));
    }
    assert forall|i: int| 0 <= i < p.rows() && #[trigger] p.matched@[i] implies unknown(b, p, null_aware, i) || exists|
        r: int,
    | #[trigger] is_match(b, p, residual, i, r) by {
        assert(p0.matched@[i]);
        if !unknown(b, p0, null_aware, i) {
            let r = choose|r: int| #[trigger] is_match(b, p0, residual, i, r);
            assert(is_match(b, p, residual, i, r));
        }
    }
}

proof fn lemma_flags_same_build(
    b: BuildSide,
    b2: BuildSide,
    p: Probe,
    residual: Option<ProgramV>,
    once: bool,
    null_aware: bool,
)
    requires
        flags_ok(b, p, residual, once, null_aware),
        probe_ok(b, p),
        b2 == (BuildSide { matched: b2.matched, ..b }),
    ensures
        flags_ok(b2, p, residual, once, null_aware),
        probe_ok(b2, p),
{
    assert forall|lk: Seq<Option<Seq<u8>>>, m: Seq<bool>, row: int, c: Option<u32>| #[trigger]
        pending(b2, lk, m, once, row, c) == pending(b, lk, m, once, row, c) by {
        lemma_pending_same_build(b, b2, lk, m, once, row, c);
    }
    assert(b2.types() =~= b.types());
    assert forall|i: int, r: int| 0 <= i < p.rows() && #[trigger] is_match(b2, p, residual, i, r) implies p.matched@[i]
        || pending(b2, p.left_keys(), p.matched@, once, p.row as int, p.cursor).contains((i, r)) by {
        assert(is_match(b, p, residual, i, r));
    }
    assert forall|i: int| 0 <= i < p.rows() && #[trigger] p.matched@[i] implies unknown(b2, p, null_aware, i)
        || exists|r: int| #[trigger] is_match(b2, p, residual, i, r) by {
        if !unknown(b, p, null_aware, i) {
            let r = choose|r: int| #[trigger] is_match(b, p, residual, i, r);
            assert(is_match(b2, p, residual, i, r));
        }
    }
}

proof fn lemma_pending_same_build(
    b: BuildSide,
    b2: BuildSide,
    lk: Seq<Option<Seq<u8>>>,
    m: Seq<bool>,
    once: bool,
    row: int,
    c: Option<u32>,
)
    requires
        b2 == (BuildSide { matched: b2.matched, ..b }),
    ensures
        pending(b2, lk, m, once, row, c) == pending(b, lk, m, once, row, c),
    decreases lk.len() - row,
{
    if row < lk.len() {
        lemma_pending_same_build(b, b2, lk, m, once, row + 1, None);
        assert(candidates(b2, lk[row]) == candidates(b, lk[row]));
    }
}

proof fn lemma_hits(idx: Seq<u32>, all: Seq<(int, int)>, keep: Seq<bool>, n: int, left: bool)
    requires
        idx.len() == n <= all.len(),
        keep.len() == n,
        forall|k: int|
            0 <= k < n ==> (#[trigger] idx[k]) == if left {
                all[k].0
            } else {
                all[k].1
            },
    ensures
        left ==> forall|i: int|
            #[trigger] hit(idx, keep, i) <==> exists|k: int| 0 <= k < n && (#[trigger] all[k]).0 == i && keep[k],
        !left ==> forall|i: int|
            #[trigger] hit(idx, keep, i) <==> exists|k: int| 0 <= k < n && (#[trigger] all[k]).1 == i && keep[k],
{
    if left {
        assert forall|i: int| #[trigger] hit(idx, keep, i) <==> exists|k: int|
            0 <= k < n && (#[trigger] all[k]).0 == i && keep[k] by {
            if hit(idx, keep, i) {
                let k = choose|k: int| 0 <= k < idx.len() && #[trigger] idx[k] == i && keep[k];
                assert(all[k].0 == i);
            }
            if exists|k: int| 0 <= k < n && (#[trigger] all[k]).0 == i && keep[k] {
                let k = choose|k: int| 0 <= k < n && (#[trigger] all[k]).0 == i && keep[k];
                assert(idx[k] == i);
            }
        }
    } else {
        assert forall|i: int| #[trigger] hit(idx, keep, i) <==> exists|k: int|
            0 <= k < n && (#[trigger] all[k]).1 == i && keep[k] by {
            if hit(idx, keep, i) {
                let k = choose|k: int| 0 <= k < idx.len() && #[trigger] idx[k] == i && keep[k];
                assert(all[k].1 == i);
            }
            if exists|k: int| 0 <= k < n && (#[trigger] all[k]).1 == i && keep[k] {
                let k = choose|k: int| 0 <= k < n && (#[trigger] all[k]).1 == i && keep[k];
                assert(idx[k] == i);
            }
        }
    }
}

/// After a chunk of pairs was tried and the rows of those that pass were flagged, the
/// flags are right again.
proof fn lemma_flags_kept(
    b: BuildSide,
    p0: Probe,
    p: Probe,
    residual: Option<ProgramV>,
    once: bool,
    null_aware: bool,
    all: Seq<(int, int)>,
    n: int,
    keep: Seq<bool>,
)
    requires
        b.wf(),
        probe_ok(b, p0),
        probe_ok(b, p),
        flags_ok(b, p0, residual, once, null_aware),
        p.batch == p0.batch,
        p.keys == p0.keys,
        all == pending(b, p0.left_keys(), p0.matched@, once, p0.row as int, p0.cursor),
        0 <= n <= all.len(),
        pending(b, p0.left_keys(), p0.matched@, once, p.row as int, p.cursor) == all.skip(n),
        residual_keep(
            residual,
            pair_types(b, p0),
            Seq::new(n as nat, |k: int| pair_row(b, p0, all[k].0, all[k].1)),
        ) == Ok::<Seq<bool>, Code>(keep),
        p.matched@.len() == p0.matched@.len(),
        forall|i: int|
            0 <= i < p.rows() ==> (#[trigger] p.matched@[i]) == (p0.matched@[i] || exists|k: int|
                0 <= k < n && (#[trigger] all[k]).0 == i && keep[k]),
    ensures
        flags_ok(b, p, residual, once, null_aware),
{
    let lk = p0.left_keys();
    let rows = Seq::new(n as nat, |k: int| pair_row(b, p0, all[k].0, all[k].1));
    let tys = pair_types(b, p0);
    assert forall|k: int| 0 <= k < n implies (#[trigger] keep[k]) == passes(residual, tys, rows[k]) by {
        match residual {
            Some(prog) => {
                programs_run_row_by_row(prog, tys, rows, k);
            },
            None => {},
        }
    }
    assert forall|i: int, r: int| 0 <= i < p.rows() && #[trigger] is_match(b, p, residual, i, r) implies p.matched@[i]
        || pending(b, p.left_keys(), p.matched@, once, p.row as int, p.cursor).contains((i, r)) by {
        assert(is_match(b, p0, residual, i, r));
        if !p.matched@[i] {
            assert(!p0.matched@[i]);
            assert(all.contains((i, r)));
            let j = choose|j: int| 0 <= j < all.len() && all[j] == (i, r);
            if j < n {
                assert(rows[j] == pair_row(b, p0, i, r));
                assert(keep[j]);
                assert(all[j].0 == i);
                assert(false);
            }
            assert(all.skip(n)[j - n] == (i, r));
            lemma_pending_contains(b, lk, p0.matched@, once, p.row as int, p.cursor, i, r);
            lemma_pending_contains(b, lk, p.matched@, once, p.row as int, p.cursor, i, r);
        }
    }
    assert forall|i: int| 0 <= i < p.rows() && #[trigger] p.matched@[i] implies unknown(b, p, null_aware, i) || exists|
        r: int,
    | #[trigger] is_match(b, p, residual, i, r) by {
        if p0.matched@[i] {
            if !unknown(b, p0, null_aware, i) {
                let r = choose|r: int| #[trigger] is_match(b, p0, residual, i, r);
                assert(is_match(b, p, residual, i, r));
            }
        } else {
            let k = choose|k: int| 0 <= k < n && (#[trigger] all[k]).0 == i && keep[k];
            let r = all[k].1;
            assert(all[k] == (i, r));
            assert(all.contains((i, r)));
            lemma_pending_contains(b, lk, p0.matched@, once, p0.row as int, p0.cursor, i, r);
            if i == p0.row {
                lemma_from_within(b, lk[i], p0.cursor, r);
            }
            assert(rows[k] == pair_row(b, p0, i, r));
            assert(is_match(b, p, residual, i, r));
        }
    }
}

/// The candidates that are left are candidates.
proof fn lemma_from_within(b: BuildSide, k: Option<Seq<u8>>, cursor: Option<u32>, r: int)
    requires
        b.wf(),
        cursor_ok(b, k, cursor),
        candidates_from(b, k, cursor).contains(r),
    ensures
        candidates(b, k).contains(r),
{
    candidates_are_the_rows_with_the_key(b, k, r);
    match cursor {
        None => {},
        Some(c) => {
            let cs = candidates_from(b, k, cursor);
            let j = choose|j: int| 0 <= j < cs.len() && cs[j] == r;
            if !b.nested {
                let below = matches_below(b.keys@, c as int, k->0);
                matches_are_the_rows_with_the_key(b.keys@, c as int, k->0, r);
                if j > 0 {
                    assert(below[j - 1] == r);
                }
            }
        },
    }
}

/// The residual fails on a pair of a row of the last left batch and a right row.
proof fn lemma_residual_stuck(was: HashJoin, code: Code)
    requires
        was.inv(),
        was.accounted(),
        was.phase == JoinPhase::Probing,
        was.probe is Some,
        ({
            let p = was.probe->0;
            let all = was.pairs_left();
            let n = if all.len() < BATCH_SIZE {
                all.len() as int
            } else {
                BATCH_SIZE as int
            };
            let rows = Seq::new(n as nat, |k: int| pair_row(was.build, p, all[k].0, all[k].1));
            &&& n > 0
            &&& 0 <= all[0].0 < p.rows()
            &&& 0 <= all[0].1 < was.build.rows
            &&& residual_keep(opt_prog(was.residual), pair_types(was.build, p), rows) == Err::<Seq<bool>, Code>(code)
        }),
    ensures
        join_stuck(was.asked(), was.left.op.returned(), was.right.op.returned(), code),
{
    let p = was.probe->0;
    let all = was.pairs_left();
    let n = if all.len() < BATCH_SIZE {
        all.len() as int
    } else {
        BATCH_SIZE as int
    };
    let rows = Seq::new(n as nat, |k: int| pair_row(was.build, p, all[k].0, all[k].1));
    let prog = was.asked().residual->0;
    let ls = was.left.op.returned();
    let rs = was.right.op.returned();
    programs_run_row_by_row(prog, pair_types(was.build, p), rows, 0);
    let l = p.batch.rows()[all[0].0];
    let r = was.build.row_vals()[all[0].1];
    assert(p.lot() == lot_of(was.asked().left_keys, ls.last()));
    assert(ls.last().rows == p.batch.rows());
    assert(ls.last().rows.contains(l));
    assert(was.build.side().rows == flat(rs));
    assert(flat(rs).contains(r));
    assert(rows[0] == l + r);
}

/// A right batch was taken in.
proof fn lemma_side_grows(was: HashJoin, now: HashJoin, before: Seq<Chunk>, batch: Batch)
    requires
        was.inv(),
        was.build.side() == side_of(was.asked(), before),
        was.build.has_null == has_null_key(was.build.side()),
        was.build.bytes == taken_bytes(before),
        now.same_asked(was),
        now.build.types() == was.build.types(),
        now.build.nested == was.build.nested,
        if batch.rows().len() == 0 {
            now.build == was.build
        } else {
            &&& absorb_outcome(was.build, was.asked().right_keys, chunk(batch)) matches Ok(new_keys) && {
                &&& now.build.bytes == build_bytes_after(
                    was.build.bytes as int,
                    chunk_cols(chunk(batch)),
                    batch.types().len() as int,
                )
                &&& now.build.row_vals() == was.build.row_vals() + batch.rows()
                &&& now.build.keys@ == was.build.keys@ + new_keys
                &&& now.build.has_null == (was.build.has_null || (!was.build.nested && exists|i: int|
                    0 <= i < new_keys.len() && (#[trigger] new_keys[i]) is None))
            }
        },
    ensures
        now.build.side() == side_of(now.asked(), before.push(chunk(batch))),
        now.build.has_null == has_null_key(now.build.side()),
        now.build.bytes == taken_bytes(before.push(chunk(batch))),
{
    let q = was.asked();
    let c = chunk(batch);
    assert(before.push(c).drop_last() =~= before);
    lemma_flat_push(before, c);
    if c.rows.len() == 0 {
        assert(flat(before) + c.rows =~= flat(before));
        assert(right_keys_of(q.right_keys, before.push(c)) =~= right_keys_of(q.right_keys, before));
        assert(now.build.side() =~= side_of(q, before.push(c)));
    } else {
        let a = was.build.keys@;
        let fresh = absorb_outcome(was.build, q.right_keys, c)->Ok_0;
        let progs = q.right_keys;
        let cols = programs_value(progs, c.types, c.rows, progs.len() as int)->Ok_0;
        assert(fresh =~= if was.build.nested {
            Seq::new(c.rows.len(), |i: int| None)
        } else {
            join_keys(cols, c.rows.len())
        });
        assert(now.build.side() =~= side_of(q, before.push(c)));
        if !was.build.nested {
            if has_null_key(was.build.side()) {
                let i = choose|i: int| 0 <= i < a.len() && (#[trigger] a[i]) is None;
                assert(now.build.keys@[i] is None);
            }
            if exists|i: int| 0 <= i < fresh.len() && (#[trigger] fresh[i]) is None {
                let i = choose|i: int| 0 <= i < fresh.len() && (#[trigger] fresh[i]) is None;
                assert(now.build.keys@[a.len() + i] is None);
            }
            if has_null_key(now.build.side()) {
                let i = choose|i: int| 0 <= i < now.build.keys@.len() && (#[trigger] now.build.keys@[i]) is None;
                if i < a.len() {
                    assert(a[i] is None);
                } else {
                    assert(fresh[i - a.len()] is None);
                }
            }
        }
    }
}

impl HashJoin {
    /// The join stops if an input does, or if it cannot go on.
    proof fn lemma_stops(&self, mem: Seq<MemTable>)
        requires
            within(self.left.op.looked(), self.log@),
            within(self.right.op.looked(), self.log@),
        ensures
            forall|why: Why| #[trigger]
                stops(self.left.op.plan(), mem, self.left.op.looked(), why) ==> stops(self.plan(), mem, self.looked(), why),
            forall|why: Why| #[trigger]
                stops(self.right.op.plan(), mem, self.right.op.looked(), why) ==> stops(self.plan(), mem, self.looked(), why),
            forall|code: Code|
                supplied(self.left, mem) && supplied(self.right, mem) && #[trigger] stuck(
                    self.plan(),
                    self.left.op.returned(),
                    self.right.op.returned(),
                    code,
                ) ==> stops(self.plan(), mem, self.looked(), Why::Failed(code)),
    {
        reveal_with_fuel(stops, 1);
    }

    /// What has been returned is what the plan gives.
    pub(crate) proof fn lemma_gave(&self, mem: Seq<MemTable>)
        requires
            self.wf(),
        ensures
            self.traced() && self.sound(mem) ==> gave(self.plan(), mem, self.looked(), self.returned(), self.spent()),
            forall|why: Why| #[trigger]
                stops(self.left.op.plan(), mem, self.left.op.looked(), why) ==> stops(self.plan(), mem, self.looked(), why),
            forall|why: Why| #[trigger]
                stops(self.right.op.plan(), mem, self.right.op.looked(), why) ==> stops(self.plan(), mem, self.looked(), why),
            forall|code: Code|
                supplied(self.left, mem) && supplied(self.right, mem) && #[trigger] stuck(
                    self.plan(),
                    self.left.op.returned(),
                    self.right.op.returned(),
                    code,
                ) ==> stops(self.plan(), mem, self.looked(), Why::Failed(code)),
    {
        self.lemma_stops(mem);
        reveal_with_fuel(gave, 1);
        if self.traced() && self.sound(mem) && self.phase != JoinPhase::Building {
            let q = self.asked();
            let xs = self.left.op.returned();
            let s = side_of(q, self.right.op.returned());
            let got = flat(self.trace@.out);
            let all = joined(q, s, xs);
            let late = if emits_unmatched_right(q.kind) {
                right_rows(q, s, xs, 0)
            } else {
                Seq::empty()
            };
            match self.phase {
                JoinPhase::Probing => {
                    let rest = match self.probe {
                        None => late,
                        Some(p) => match_rows(q, s, p.lot(), self.pairs_left()) + own_rows(q, s, p.lot(), p.drain as int) + late,
                    };
                    assert(got + rest =~= all);
                    lemma_begins(got, rest, false);
                },
                JoinPhase::DrainingUnmatched => {
                    lemma_begins(got, right_rows(q, s, xs, self.drain as int), false);
                },
                _ => {
                    lemma_begins(got, Seq::empty(), true);
                },
            }
            assert(begins(got, all, self.spent()));
            assert(supplied(self.left, mem));
        }
    }
}

impl Operator for HashJoin {
    open spec fn wf(&self) -> bool {
        &&& self.left.op.wf()
        &&& self.right.op.wf()
        &&& self.inv()
        &&& within(self.left.op.looked(), self.log@)
        &&& within(self.right.op.looked(), self.log@)
        &&& self.traced() ==> self.accounted()
        &&& self.traced() ==> join_shaped(self.asked(), self.left.op.returned(), self.trace@.out)
        &&& self.traced() ==> all_keyed(progs_of(self.left_keys@), self.left.op.returned())
        &&& self.traced() ==> all_keyed(progs_of(self.right_keys@), self.right.op.returned())
    }

    open spec fn plan(&self) -> NodeV {
        NodeV::Join {
            left: Box::new(self.left.op.plan()),
            right: Box::new(self.right.op.plan()),
            kind: self.kind,
            left_keys: progs_of(self.left_keys@),
            right_keys: progs_of(self.right_keys@),
            residual: opt_prog(self.residual),
            left_types: self.left_types@,
            right_types: self.right_types@,
        }
    }

    open spec fn looked(&self) -> Seq<Look> {
        self.log@
    }

    open spec fn traced(&self) -> bool {
        self.trace@.ok && self.left.op.traced() && self.right.op.traced()
    }

    open spec fn returned(&self) -> Seq<Chunk> {
        self.trace@.out
    }

    open spec fn spent(&self) -> bool {
        self.phase == JoinPhase::Done
    }

    open spec fn sound(&self, mem: Seq<MemTable>) -> bool {
        supplied(self.left, mem) && supplied(self.right, mem)
    }

    #[verifier::rlimit(90)]
    fn next(&mut self, ctx: &mut ExecContext) -> (r: Result<Step, Error>)
        ensures
            answers(
                r,
                *final(ctx),
                heard(final(self).left.said@, final(self).right.said@),
                old(self).traced(),
                final(self).plan(),
                final(self).left.op.returned(),
                final(self).right.op.returned(),
            ),
            old(self).phase == JoinPhase::Done ==> r matches Ok(Step::Done),
            old(self).phase == JoinPhase::DrainingUnmatched ==> if flagged(
                old(self).build.matched@,
                false,
                old(self).drain as int,
            ).len() > 0 {
                r matches Ok(Step::Ready(_))
            } else {
                r matches Ok(Step::Done)
            },
            r matches Ok(Step::Ready(b)) ==> 0 < b.rows().len() <= BATCH_SIZE,
            final(self).traced() ==> (r matches Ok(Step::Ready(b)) ==> join_portion(
                final(self).asked(),
                final(self).left.op.returned(),
                chunk(b),
            )),
    {
        self.left.said = Ghost(Said::Nothing);
        self.right.said = Ghost(Said::Nothing);
        let ghost start = *self;
        let mut fuel: u64 = u64::MAX;
        proof {
            lemma_no_look(self.looked(), ctx.catalog);
        }
        while fuel > 0
            invariant
                self.wf(),
                ctx.wf(),
                ctx.same_data(*old(ctx)),
                looked_on(old(self).looked(), old(ctx).catalog, self.looked(), ctx.catalog),
                ctx.io == old(ctx).io,
                ctx.codec == old(ctx).codec,
                self.left.said@.goes_on(),
                self.right.said@.goes_on(),
                self.traced() ==> self.left.op.returned().len() + self.right.op.returned().len() + fuel + match self.phase {
                    JoinPhase::Building => 0int,
                    JoinPhase::Probing => 1int,
                    _ => 2int,
                } >= u64::MAX,
                start == (HashJoin { left: start.left, right: start.right, ..*old(self) }),
                old(self).sound(old(ctx).catalog.mem@) && self.traced() ==> self.sound(old(ctx).catalog.mem@),
                old(self).phase == JoinPhase::Done ==> *self == start && fuel == u64::MAX,
                old(self).phase == JoinPhase::DrainingUnmatched ==> {
                    ||| *self == start && fuel == u64::MAX
                    ||| {
                        &&& self.phase == JoinPhase::Done
                        &&& fuel == u64::MAX
                        &&& flagged(old(self).build.matched@, false, old(self).drain as int).len() == 0
                    }
                },
                self.same_asked(*old(self)),
                self.left.op.plan() == old(self).left.op.plan(),
                self.right.op.plan() == old(self).right.op.plan(),
                self.traced() <==> old(self).traced(),
                self.traced() ==> self.trace@.out == old(self).trace@.out,
            decreases
                    fuel,
                    match self.phase {
                        JoinPhase::Done => 0int,
                        JoinPhase::DrainingUnmatched => 1int,
                        _ => 2int,
                    },
                    self.effort(),
        {
            match self.phase {
                JoinPhase::Building => {
                    let ghost before = self.right.op.returned();
                    let ghost at = self.right.op.looked();
                    let ghost log = self.log@;
                    let ghost from = ctx.catalog;
                    let step = self.right.pull(ctx);
                    self.log = Ghost(added(log, at, self.right.op.looked()));
                    proof {
                        lemma_beside(log, at, from, self.right.op.looked(), ctx.catalog);
                        lemma_looked_twice(old(self).looked(), old(ctx).catalog, log, from, self.looked(), ctx.catalog);
                    }
                    match step {
                        Ok(Step::Ready(b)) => {
                            let ghost was = *self;
                            match self.absorb(&ctx.vm, b) {
                                Ok(()) => {
                                    proof {
                                        if self.traced() {
                                            lemma_side_grows(was, *self, before, b);
                                            lemma_keyed_push(progs_of(self.right_keys@), before, chunk(b));
                                        }
                                    }
                                },
                                Err(e) => {
                                    self.trace = Ghost(lost_trace(self.trace@));
                                    proof {
                                        if old(self).traced() {
                                            let c = chunk(b);
                                            assert(self.right.op.returned() == before.push(c));
                                            assert(before.push(c).drop_last() =~= before);
                                            assert(absorb_outcome(was.build, self.asked().right_keys, c) is Err);
                                            assert(stuck(
                                                self.plan(),
                                                self.left.op.returned(),
                                                self.right.op.returned(),
                                                e.code,
                                            ));
                                        }
                                        self.lemma_gave(old(ctx).catalog.mem@);
                                    }
                                    return Err(e);
                                },
                            }
                        },
                        Ok(Step::Done) => {
                            self.finish_build();
                            proof {
                                if self.traced() {
                                    self.lemma_build_finished();
                                }
                            }
                        },
                        Ok(other) => {
                            proof {
                                self.lemma_gave(old(ctx).catalog.mem@);
                            }
                            return Ok(other);
                        },
                        Err(e) => {
                            proof {
                                self.lemma_gave(old(ctx).catalog.mem@);
                            }
                            return Err(e);
                        },
                    }
                    fuel = fuel - 1;
                },
                JoinPhase::Probing => {
                    let pulls: bool = self.probe.is_none();
                    let ghost log = self.log@;
                    let ghost from = ctx.catalog;
                    let step = self.probe_step(ctx);
                    proof {
                        lemma_looked_twice(old(self).looked(), old(ctx).catalog, log, from, self.looked(), ctx.catalog);
                    }
                    match step {
                        Ok(Some(s)) => {
                            proof {
                                self.lemma_gave(old(ctx).catalog.mem@);
                            }
                            return Ok(s);
                        },
                        Ok(None) => {
                            if pulls {
                                fuel = fuel - 1;
                            }
                        },
                        Err(e) => {
                            proof {
                                self.lemma_gave(old(ctx).catalog.mem@);
                            }
                            return Err(e);
                        },
                    }
                },
                JoinPhase::DrainingUnmatched => {
                    let ghost was = *self;
                    match self.drain_right() {
                        Some(b) => {
                            self.trace = Ghost(grown_trace(self.trace@, chunk(b)));
                            proof {
                                if self.traced() {
                                    lemma_flat_push(was.trace@.out, chunk(b));
                                    lemma_right_drained(was, *self, b);
                                    assert(portion(chunk(b), was.left_types@ + right_part(was.asked())));
                                    lemma_shaped_push(was.asked(), was.left.op.returned(), was.trace@.out, chunk(b));
                                }
                            }
                            proof {
                                self.lemma_gave(old(ctx).catalog.mem@);
                            }
                            return Ok(Step::Ready(b));
                        },
                        None => {
                            self.phase = JoinPhase::Done;
                            proof {
                                if self.traced() {
                                    let q = self.asked();
                                    let xs = self.left.op.returned();
                                    let rest = right_rows(q, was.build.side(), xs, was.drain as int);
                                    assert(rest =~= Seq::empty());
                                    assert(flat(self.trace@.out) + rest =~= flat(self.trace@.out));
                                }
                            }
                        },
                    }
                },
                JoinPhase::Done => {
                    proof {
                        self.lemma_gave(old(ctx).catalog.mem@);
                    }
                    return Ok(Step::Done);
                },
            }
        }
        proof {
            if old(self).traced() {
                assert(stuck(
                    self.plan(),
                    self.left.op.returned(),
                    self.right.op.returned(),
                    Code::LimitExceeded,
                ));
            }
            self.lemma_gave(old(ctx).catalog.mem@);
        }
        Err(Error::new(Code::LimitExceeded))
    }
}

impl HashJoin {
    proof fn lemma_build_finished(&self)
        requires
            self.build.side() == side_of(self.asked(), self.right.op.returned()),
            self.build.has_null == has_null_key(self.build.side()),
            self.build.counted == self.build.rows,
            self.build.bytes == taken_bytes(self.right.op.returned()),
            self.right.op.spent(),
            self.left.op.returned().len() == 0,
            self.trace@.out.len() == 0,
            self.probe is None,
            emits_unmatched_right(self.kind) ==> self.build.matched@.len() == self.build.rows && forall|r: int|
                0 <= r < self.build.rows ==> !#[trigger] self.build.matched@[r],
            self.phase == if self.kind is AntiNullAware && self.build.has_null {
                JoinPhase::Done
            } else {
                JoinPhase::Probing
            },
        ensures
            self.accounted(),
    {
        let q = self.asked();
        let s = self.build.side();
        let xs = self.left.op.returned();
        assert(flat(self.trace@.out) =~= Seq::empty());
        assert(joined_left(q, s, xs) =~= Seq::empty());
        if emits_unmatched_right(self.kind) {
            assert(self.build.matched@ =~= right_flags(q, s, xs));
        }
    }
}

/// Right rows were returned by themselves.
proof fn lemma_right_drained(was: HashJoin, now: HashJoin, b: Batch)
    requires
        was.inv(),
        was.accounted(),
        was.phase == JoinPhase::DrainingUnmatched,
        now == (HashJoin { drain: now.drain, trace: now.trace, ..was }),
        flat(now.trace@.out) == flat(was.trace@.out) + b.rows(),
        ({
            let all = flagged(was.build.matched@, false, was.drain as int);
            let n = if all.len() < BATCH_SIZE {
                all.len() as int
            } else {
                BATCH_SIZE as int
            };
            &&& n > 0
            &&& b.rows() == Seq::new(
                n as nat,
                |k: int| nulls(was.left_types@.len()) + row_at(was.build.cols@, all[k]),
            )
            &&& flagged(was.build.matched@, false, now.drain as int) == all.skip(n)
        }),
    ensures
        now.accounted(),
{
    let q = was.asked();
    let s = was.build.side();
    let xs = was.left.op.returned();
    let idx = flagged(was.build.matched@, false, was.drain as int);
    let n = if idx.len() < BATCH_SIZE {
        idx.len() as int
    } else {
        BATCH_SIZE as int
    };
    lemma_right_rest(q, s, xs, was.drain as int, now.drain as int, n);
    lemma_flagged_range(was.build.matched@, false, was.drain as int);
    assert forall|k: int| 0 <= k < n implies #[trigger] b.rows()[k] == nulls(q.left_types.len()) + s.rows[idx[k]] by {
        assert(0 <= idx[k] < was.build.matched@.len());
        assert(was.build.row_vals()[idx[k]] == row_at(was.build.cols@, idx[k]));
    }
    assert(b.rows() =~= Seq::new(n as nat, |k: int| nulls(q.left_types.len()) + s.rows[idx[k]]));
    assert(flat(now.trace@.out) + right_rows(q, s, xs, now.drain as int) =~= flat(was.trace@.out) + right_rows(
        q,
        s,
        xs,
        was.drain as int,
    ));
}

} // verus!
