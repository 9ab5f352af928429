//! Set operations: UNION, INTERSECT and EXCEPT.
//!
//! Rows are the same if their keys are, so NULL equals NULL here. `UNION ALL`
//! passes rows through. `UNION` keeps the keys that it has returned. `INTERSECT`
//! and `EXCEPT` read the right input through first and count its keys; the left
//! rows then use the counts up.

use crate::catalog::MemTable;
use crate::error::{Code, Error};
use crate::exec::looks::{added, lemma_beside, lemma_looked_twice, lemma_no_look, lemma_within_sum, looked_on, within};
use crate::exec::meaning::{gave, set_gave, stops, stuck, supplied, Why};
use crate::exec::rowkey::{
    col_keys, column_refs, encode_key, entry_of, grown, has_key, index_bytes, lemma_col_key, lemma_grown_bounds,
    lemma_full_index, lemma_grown_more, lemma_key_total_positive, HashIndex, max_keys,
};
use crate::exec::{
    answers, any_set, chunk, fresh_trace, heard, grown_trace, lemma_kept_some, lemma_run_push, lost_trace, run, Chunk, Trace,
    Child, ExecContext, Look, Operator, Said, Step,
};
use crate::expr::cols_of;
use crate::plan::{NodeV, SetOpKind};
use crate::vector::{kept, sat64, Batch, PhysType, Ty};
use vstd::prelude::*;

verus! {

/// The bytes that the keys may use.
pub const MAX_STATE_BYTES: u64 = 0x400_0000;

#[derive(Clone, Copy, PartialEq, Eq, Structural, Debug)]
pub enum SetPhase {
    /// Counting the right input's keys.
    BuildRight,
    /// Streaming the left input.
    Left,
    /// Streaming the right input of a union.
    Right,
    Done,
}

pub struct SetOp {
    pub left: Child,
    pub right: Child,
    pub op: SetOpKind,
    pub all: bool,
    pub phase: SetPhase,
    /// The storage of the columns, taken from the first batch.
    pub shape: Option<Vec<PhysType>>,
    /// The right keys; the value is the position in `counts`.
    pub index: HashIndex,
    /// How often each right key is still to be used up.
    pub counts: Vec<u32>,
    /// The keys returned so far, where none is returned twice.
    pub seen: HashIndex,
    /// How often each right key occurs, once that is known.
    pub built: Ghost<Seq<u32>>,
    /// The looks taken for either side.
    pub log: Ghost<Seq<Look>>,
    pub trace: Ghost<Trace>,
}

// --- What is returned -----------------------------------------------------------------

/// The count of a key.
pub open spec fn stock(e: Seq<(Seq<u8>, u32)>, counts: Seq<u32>, key: Seq<u8>) -> int {
    if has_key(e, key) {
        counts[entry_of(e, key)] as int
    } else {
        0
    }
}

/// Whether a row with a key belongs to the result, leaving duplicates aside.
pub open spec fn qualifies(op: SetOpKind, all: bool, e: Seq<(Seq<u8>, u32)>, counts: Seq<u32>, key: Seq<u8>) -> bool {
    match op {
        SetOpKind::Union => true,
        SetOpKind::Intersect => if all {
            stock(e, counts, key) > 0
        } else {
            has_key(e, key)
        },
        SetOpKind::Except => if all {
            stock(e, counts, key) == 0
        } else {
            !has_key(e, key)
        },
    }
}

/// The counts after a row: with `ALL`, a left row uses up a right one.
pub open spec fn counts_after(
    op: SetOpKind,
    all: bool,
    e: Seq<(Seq<u8>, u32)>,
    counts: Seq<u32>,
    key: Seq<u8>,
) -> Seq<u32> {
    if all && !(op is Union) && stock(e, counts, key) > 0 {
        counts.update(entry_of(e, key), (counts[entry_of(e, key)] - 1) as u32)
    } else {
        counts
    }
}

/// The keys returned after a row; kept only where none is returned twice.
pub open spec fn seen_after(
    op: SetOpKind,
    all: bool,
    e: Seq<(Seq<u8>, u32)>,
    counts: Seq<u32>,
    seen: Seq<(Seq<u8>, u32)>,
    key: Seq<u8>,
) -> Seq<(Seq<u8>, u32)> {
    if !all && qualifies(op, all, e, counts, key) && !has_key(seen, key) {
        seen.push((key, seen.len() as u32))
    } else {
        seen
    }
}

/// Whether a row is returned.
pub open spec fn returned(
    op: SetOpKind,
    all: bool,
    e: Seq<(Seq<u8>, u32)>,
    counts: Seq<u32>,
    seen: Seq<(Seq<u8>, u32)>,
    key: Seq<u8>,
) -> bool {
    qualifies(op, all, e, counts, key) && (all || !has_key(seen, key))
}

/// The counts after the first `k` rows.
pub open spec fn counts_at(
    op: SetOpKind,
    all: bool,
    e: Seq<(Seq<u8>, u32)>,
    counts: Seq<u32>,
    keys: Seq<Seq<u8>>,
    k: int,
) -> Seq<
    u32,
>
    decreases k,
{
    if k <= 0 {
        counts
    } else {
        counts_after(op, all, e, counts_at(op, all, e, counts, keys, k - 1), keys[k - 1])
    }
}

/// The keys returned after the first `k` rows.
pub open spec fn seen_at(
    op: SetOpKind,
    all: bool,
    e: Seq<(Seq<u8>, u32)>,
    counts: Seq<u32>,
    seen: Seq<(Seq<u8>, u32)>,
    keys: Seq<Seq<u8>>,
    k: int,
) -> Seq<(Seq<u8>, u32)>
    decreases k,
{
    if k <= 0 {
        seen
    } else {
        seen_after(
            op,
            all,
            e,
            counts_at(op, all, e, counts, keys, k - 1),
            seen_at(op, all, e, counts, seen, keys, k - 1),
            keys[k - 1],
        )
    }
}

/// Which of the rows are returned.
pub open spec fn returned_flags(
    op: SetOpKind,
    all: bool,
    e: Seq<(Seq<u8>, u32)>,
    counts: Seq<u32>,
    seen: Seq<(Seq<u8>, u32)>,
    keys: Seq<Seq<u8>>,
) -> Seq<bool> {
    Seq::new(
        keys.len(),
        |k: int|
            returned(
                op,
                all,
                e,
                counts_at(op, all, e, counts, keys, k),
                seen_at(op, all, e, counts, seen, keys, k),
                keys[k],
            ),
    )
}

// --- Laws -----------------------------------------------------------------------------

/// How often a key occurs among the first `n`.
pub open spec fn tally(keys: Seq<Seq<u8>>, n: int, key: Seq<u8>) -> int
    decreases n,
{
    if n <= 0 {
        0
    } else {
        tally(keys, n - 1, key) + if keys[n - 1] == key {
            1int
        } else {
            0
        }
    }
}

/// How many rows with a key are returned among the first `n`.
pub open spec fn returned_tally(flags: Seq<bool>, keys: Seq<Seq<u8>>, n: int, key: Seq<u8>) -> int
    decreases n,
{
    if n <= 0 {
        0
    } else {
        returned_tally(flags, keys, n - 1, key) + if flags[n - 1] && keys[n - 1] == key {
            1int
        } else {
            0
        }
    }
}

/// No key occurs twice in the index, and each leads to its own count.
pub open spec fn numbered(e: Seq<(Seq<u8>, u32)>, counts: Seq<u32>) -> bool {
    &&& counts.len() == e.len()
    &&& forall|i: int| 0 <= i < e.len() ==> (#[trigger] e[i]).1 == i
    &&& forall|i: int, j: int| 0 <= i < j < e.len() ==> (#[trigger] e[i]).0 != (#[trigger] e[j]).0
}

proof fn lemma_stock_after(
    op: SetOpKind,
    all: bool,
    e: Seq<(Seq<u8>, u32)>,
    counts: Seq<u32>,
    used: Seq<u8>,
    key: Seq<u8>,
)
    requires
        numbered(e, counts),
    ensures
        numbered(e, counts_after(op, all, e, counts, used)),
        stock(e, counts_after(op, all, e, counts, used), key) == if all && !(op is Union) && used == key && stock(
            e,
            counts,
            key,
        ) > 0 {
            stock(e, counts, key) - 1
        } else {
            stock(e, counts, key)
        },
        stock(e, counts, key) >= 0,
{
    if has_key(e, key) && has_key(e, used) {
        let i = entry_of(e, key);
        let j = entry_of(e, used);
        assert(e[i].0 == key && e[j].0 == used);
        if i == j {
            assert(key == used);
        }
    }
}

/// `INTERSECT ALL` returns a row as often as both sides have it, and `EXCEPT ALL` as
/// often as the left side has it more than the right.
pub proof fn all_versions_count_duplicates(
    op: SetOpKind,
    e: Seq<(Seq<u8>, u32)>,
    counts: Seq<u32>,
    seen: Seq<(Seq<u8>, u32)>,
    keys: Seq<Seq<u8>>,
    n: int,
    key: Seq<u8>,
)
    requires
        0 <= n <= keys.len(),
        numbered(e, counts),
    ensures
        ({
            let flags = returned_flags(op, true, e, counts, seen, keys);
            let got = returned_tally(flags, keys, n, key);
            let left = tally(keys, n, key);
            let right = stock(e, counts, key);
            match op {
                SetOpKind::Union => got == left,
                SetOpKind::Intersect => got == if left < right {
                    left
                } else {
                    right
                },
                SetOpKind::Except => got == if left < right {
                    0
                } else {
                    left - right
                },
            }
        }),
        numbered(e, counts_at(op, true, e, counts, keys, n)),
        !(op is Union) ==> stock(e, counts_at(op, true, e, counts, keys, n), key) == if tally(keys, n, key) < stock(
            e,
            counts,
            key,
        ) {
            stock(e, counts, key) - tally(keys, n, key)
        } else {
            0
        },
        tally(keys, n, key) >= 0,
    decreases n,
{
    lemma_stock_after(op, true, e, counts, key, key);
    if n > 0 {
        all_versions_count_duplicates(op, e, counts, seen, keys, n - 1, key);
        let before = counts_at(op, true, e, counts, keys, n - 1);
        lemma_stock_after(op, true, e, before, keys[n - 1], key);
    }
}

/// Without `ALL`, a row is returned at most once: by `UNION` if it occurs, by
/// `INTERSECT` if the right side has it too, and by `EXCEPT` if it does not.
pub proof fn distinct_versions_return_a_row_once(
    op: SetOpKind,
    e: Seq<(Seq<u8>, u32)>,
    counts: Seq<u32>,
    keys: Seq<Seq<u8>>,
    n: int,
    key: Seq<u8>,
)
    requires
        0 <= n <= keys.len(),
    ensures
        ({
            let seen = Seq::<(Seq<u8>, u32)>::empty();
            let flags = returned_flags(op, false, e, counts, seen, keys);
            let got = returned_tally(flags, keys, n, key);
            let wanted = match op {
                SetOpKind::Union => true,
                SetOpKind::Intersect => has_key(e, key),
                SetOpKind::Except => !has_key(e, key),
            };
            &&& got == if wanted && tally(keys, n, key) > 0 {
                1int
            } else {
                0
            }
            &&& has_key(seen_at(op, false, e, counts, seen, keys, n), key) <==> got == 1
            &&& tally(keys, n, key) >= 0
            &&& counts_at(op, false, e, counts, keys, n) == counts
        }),
    decreases n,
{
    let seen = Seq::<(Seq<u8>, u32)>::empty();
    if n > 0 {
        distinct_versions_return_a_row_once(op, e, counts, keys, n - 1, key);
        let before = seen_at(op, false, e, counts, seen, keys, n - 1);
        let now = seen_at(op, false, e, counts, seen, keys, n);
        if now != before {
            assert(now == before.push((keys[n - 1], before.len() as u32)));
            if has_key(before, key) {
                let i = entry_of(before, key);
                assert(now[i].0 == key);
            }
            if has_key(now, key) && keys[n - 1] != key {
                let i = entry_of(now, key);
                assert(before[i].0 == key);
            }
            assert(now[before.len() as int].0 == keys[n - 1]);
        }
    } else {
        assert(!has_key(seen, key));
    }
}

// --- Shapes ---------------------------------------------------------------------------

/// What is wrong with a batch's columns, if anything.
pub open spec fn shape_fault(shape: Option<Vec<PhysType>>, tys: Seq<Ty>) -> Option<Code> {
    match shape {
        None => None,
        Some(s) => if s@.len() != tys.len() {
            Some(Code::Internal)
        } else if exists|c: int| 0 <= c < tys.len() && (#[trigger] tys[c]).phys() != s@[c] {
            Some(Code::TypeMismatch)
        } else {
            None
        },
    }
}

/// The storage of columns.
pub open spec fn storage_of(tys: Seq<Ty>) -> Seq<PhysType> {
    Seq::new(tys.len(), |c: int| tys[c].phys())
}

/// The memory that the state is estimated to take.
pub open spec fn state_bytes(e: Seq<(Seq<u8>, u32)>, seen: Seq<(Seq<u8>, u32)>) -> int {
    sat64(sat64(index_bytes(e) + e.len() * 4) + index_bytes(seen))
}

proof fn lemma_seen_grows(
    op: SetOpKind,
    all: bool,
    e: Seq<(Seq<u8>, u32)>,
    counts: Seq<u32>,
    seen: Seq<(Seq<u8>, u32)>,
    keys: Seq<Seq<u8>>,
    k: int,
)
    requires
        0 <= k,
    ensures
        seen.len() <= seen_at(op, all, e, counts, seen, keys, k).len() <= seen.len() + k,
        index_bytes(seen_at(op, all, e, counts, seen, keys, k)) >= index_bytes(seen),
        all ==> seen_at(op, all, e, counts, seen, keys, k) == seen,
    decreases k,
{
    if k > 0 {
        lemma_seen_grows(op, all, e, counts, seen, keys, k - 1);
        let before = seen_at(op, all, e, counts, seen, keys, k - 1);
        let now = seen_at(op, all, e, counts, seen, keys, k);
        if now != before {
            assert(now.drop_last() =~= before);
        }
    }
}

/// Looking at more keys leaves no fewer of them seen.
proof fn lemma_seen_more(
    op: SetOpKind,
    all: bool,
    e: Seq<(Seq<u8>, u32)>,
    counts: Seq<u32>,
    seen: Seq<(Seq<u8>, u32)>,
    keys: Seq<Seq<u8>>,
    i: int,
    k: int,
)
    requires
        0 <= i <= k,
    ensures
        seen_at(op, all, e, counts, seen, keys, i).len() <= seen_at(op, all, e, counts, seen, keys, k).len(),
    decreases k,
{
    if i < k {
        lemma_seen_more(op, all, e, counts, seen, keys, i, k - 1);
    }
}

// --- The operator -----------------------------------------------------------------------

impl SetOp {
    pub open spec fn inv(&self) -> bool {
        &&& self.index.wf()
        &&& self.seen.wf()
        &&& numbered(self.index@, self.counts@)
    }

    pub open spec fn same_query(&self, other: SetOp) -> bool {
        &&& self.left == other.left
        &&& self.right == other.right
        &&& self.op == other.op
        &&& self.all == other.all
        &&& self.phase == other.phase
        &&& self.trace == other.trace
        &&& self.built == other.built
        &&& self.log == other.log
    }

    pub fn new(left: Child, right: Child, op: SetOpKind, all: bool) -> (r: Result<SetOp, Error>)
        requires
            left.op.wf(),
            right.op.wf(),
        ensures
            r matches Ok(s) && {
                &&& s.wf()
                &&& s.left == left
                &&& s.right == right
                &&& s.op == op
                &&& s.all == all
                &&& s.phase == if op is Union {
                    SetPhase::Left
                } else {
                    SetPhase::BuildRight
                }
                &&& s.shape is None
                &&& s.index@.len() == 0
                &&& s.seen@.len() == 0
                &&& s.looked() == left.op.looked() + right.op.looked()
                &&& s.trace@ == fresh_trace(left.op.returned() + right.op.returned())
            },
    {
        let phase: SetPhase = if op == SetOpKind::Union {
            SetPhase::Left
        } else {
            SetPhase::BuildRight
        };
        let s = SetOp {
                left,
                right,
                op,
                all,
                phase,
                shape: None,
                index: HashIndex::new(),
                counts: Vec::new(),
                seen: HashIndex::new(),
                built: Ghost(Seq::empty()),
                log: Ghost(left.op.looked() + right.op.looked()),
                trace: Ghost(fresh_trace(left.op.returned() + right.op.returned())),
            };
        proof {
            assert(s.left == left && s.right == right);
            lemma_within_sum(left.op.looked(), right.op.looked());
            assert(s.index@ =~= Seq::empty());
            assert(s.seen@ =~= Seq::empty());
            assert(s.counts@ =~= Seq::empty());
            if s.trace@.ok {
                assert(left.op.returned() =~= Seq::empty());
                assert(right.op.returned() =~= Seq::empty());
                assert(left.op.returned() + right.op.returned() =~= Seq::empty());
            }
        }
        Ok(s)
    }

    /// Whether rows simply pass through.
    pub fn pass_through(&self) -> (r: bool)
        ensures
            r == (self.op is Union && self.all),
    {
        self.op == SetOpKind::Union && self.all
    }

    /// The approximate memory use.
    pub fn mem_used(&self) -> (n: u64)
        requires
            self.inv(),
        ensures
            n == state_bytes(self.index@, self.seen@),
    {
        proof {
            lemma_key_total_positive(self.index@);
            lemma_key_total_positive(self.seen@);
        }
        let a: u64 = self.index.approx_bytes();
        let len: usize = self.counts.len();
        let c: u64 = len as u64;
        let c4: u64 = if c > u64::MAX / 4 {
            u64::MAX
        } else {
            c * 4
        };
        a.saturating_add(c4).saturating_add(self.seen.approx_bytes())
    }

    /// Checks that the columns agree with those of the first batch.
    pub fn check_shape(&mut self, batch: &Batch) -> (r: Result<(), Error>)
        ensures
            match shape_fault(old(self).shape, batch.types()) {
                Some(c) => (r matches Err(e) && e.code == c) && *final(self) == *old(self),
                None => {
                    &&& r is Ok
                    &&& *final(self) == (SetOp { shape: final(self).shape, ..*old(self) })
                    &&& final(self).shape matches Some(s)
                    &&& s@ == storage_of(batch.types())
                },
            },
    {
        match &self.shape {
            Some(s) => {
                if batch.cols.len() != s.len() {
                    return Err(Error::new(Code::Internal));
                }
                let mut c: usize = 0;
                while c < s.len()
                    invariant
                        *self == *old(self),
                        self.shape == Some(*s),
                        batch.cols@.len() == s@.len(),
                        c <= s@.len(),
                        forall|d: int| 0 <= d < c ==> (#[trigger] batch.types()[d]).phys() == s@[d],
                    decreases s@.len() - c,
                {
                    if batch.cols[c].phys() != s[c] {
                        assert(batch.types()[c as int].phys() != s@[c as int]);
                        return Err(Error::new(Code::TypeMismatch));
                    }
                    c = c + 1;
                }
                assert(s@ =~= storage_of(batch.types()));
                Ok(())
            },
            None => {
                let mut s: Vec<PhysType> = Vec::new();
                let mut c: usize = 0;
                while c < batch.cols.len()
                    invariant
                        c <= batch.cols@.len(),
                        s@ == storage_of(batch.types()).take(c as int),
                    decreases batch.cols@.len() - c,
                {
                    s.push(batch.cols[c].phys());
                    c = c + 1;
                    assert(s@ =~= storage_of(batch.types()).take(c as int));
                }
                assert(s@ =~= storage_of(batch.types()));
                self.shape = Some(s);
                Ok(())
            },
        }
    }

    /// Counts the keys of a right batch. Where they are too many, they stay counted, so that more are
    /// refused as well.
    pub fn absorb_right(&mut self, batch: Batch) -> (r: Result<(), Error>)
        requires
            old(self).inv(),
            batch.wf(),
        ensures
            final(self).inv(),
            final(self).same_query(*old(self)),
            final(self).seen == old(self).seen,
            final(self).shape == old(self).shape || (final(self).shape matches Some(s) && s@ == storage_of(batch.types())),
            if batch.rows().len() == 0 {
                r is Ok && *final(self) == *old(self)
            } else {
                match shape_fault(old(self).shape, batch.types()) {
                    Some(c) => (r matches Err(e) && e.code == c) && *final(self) == *old(self),
                    None => {
                        let keys = batch_keys(batch);
                        let after = grown(old(self).index@, keys, keys.len() as int);
                        match r {
                            Ok(()) => {
                                &&& state_bytes(after, old(self).seen@) <= MAX_STATE_BYTES
                                &&& final(self).index@ == after
                                &&& forall|key: Seq<u8>| #[trigger]
                                    stock(final(self).index@, final(self).counts@, key) == stock(
                                        old(self).index@,
                                        old(self).counts@,
                                        key,
                                    ) + tally(keys, keys.len() as int, key)
                            },
                            Err(e) => {
                                ||| e.code == Code::Oom && state_bytes(after, old(self).seen@) > MAX_STATE_BYTES && state_bytes(
                                    final(self).index@,
                                    final(self).seen@,
                                ) > MAX_STATE_BYTES
                                ||| e.code == Code::LimitExceeded && exists|key: Seq<u8>| #[trigger]
                                    stock(old(self).index@, old(self).counts@, key) + tally(
                                        keys,
                                        keys.len() as int,
                                        key,
                                    ) > u32::MAX
                            },
                        }
                    },
                }
            },
    {
        if batch.card() == 0 {
            return Ok(());
        }
        match self.check_shape(&batch) {
            Ok(()) => {},
            Err(e) => {
                return Err(e);
            },
        }
        let mut flat = batch;
        let ghost keys = batch_keys(batch);
        flat.materialize();
        proof {
            lemma_batch_keys(batch, flat);
            lemma_grown_bounds(self.index@, keys, keys.len() as int);
            lemma_key_total_positive(self.index@);
            lemma_key_total_positive(self.seen@);
        }
        if self.mem_used() > MAX_STATE_BYTES {
            return Err(Error::new(Code::Oom));
        }
        let rows: usize = flat.num_rows();
        let refs = column_refs(&flat.cols);
        let mut keybuf: Vec<u8> = Vec::new();
        let ghost e = self.index@;
        let ghost c0 = self.counts@;
        let mut r: usize = 0;
        while r < rows
            invariant
                r <= rows,
                rows == keys.len(),
                rows == flat.spec_num_rows(),
                flat.wf(),
                batch.rows().len() > 0,
                shape_fault(old(self).shape, batch.types()) is None,
                keys == batch_keys(batch),
                keys == col_keys(cols_of(flat.cols@), rows as nat),
                refs@.unref() == flat.cols@,
                refs@.len() == flat.cols@.len(),
                forall|c: int| 0 <= c < refs@.len() ==> *(#[trigger] refs@[c]) == flat.cols@[c],
                self.inv(),
                self.same_query(*old(self)),
                self.shape == old(self).shape || (self.shape matches Some(s) && s@ == storage_of(batch.types())),
                self.seen == old(self).seen,
                e == old(self).index@,
                c0 == old(self).counts@,
                self.index@ == grown(e, keys, r as int),
                forall|key: Seq<u8>| #[trigger]
                    stock(self.index@, self.counts@, key) == stock(e, c0, key) + tally(keys, r as int, key),
            decreases rows - r,
        {
            assert forall|c: int| 0 <= c < refs@.len() implies r < (#[trigger] refs@[c])@.len() by {
                assert(flat.cols@[c]@.len() == rows);
            }
            encode_key(refs.as_slice(), r, &mut keybuf);
            let ghost before = self.index@;
            let ghost counts1 = self.counts@;
            proof {
                lemma_col_key(flat.cols@, rows as nat, r as int);
            }
            if self.index.len() >= max_keys() {
                proof {
                    lemma_grown_more(e, keys, r as int, rows as int);
                    lemma_full_index(grown(e, keys, rows as int));
                    lemma_full_index(self.index@);
                    lemma_key_total_positive(self.seen@);
                }
                return Err(Error::new(Code::Oom));
            }
            let (slot, fresh) = self.index.get_or_insert(keybuf.as_slice());
            if fresh {
                self.counts.push(0);
            }
            let at: usize = slot as usize;
            proof {
                lemma_slot(before, counts1, self.index@, self.counts@, keybuf@, at as int);
            }
            let c: u32 = self.counts[at];
            if c == u32::MAX {
                proof {
                    let key = keybuf@;
                    assert(stock(before, counts1, key) == u32::MAX);
                    lemma_tally_grows(keys, r as int, keys.len() as int, key);
                    assert(stock(e, c0, key) + tally(keys, keys.len() as int, key) > u32::MAX);
                    crate::exec::rowkey::keys_are_distinct(self.index);
                }
                return Err(Error::new(Code::LimitExceeded));
            }
            self.counts.set(at, c + 1);
            proof {
                if fresh {
                    assert(self.counts@ =~= counts1.push((c + 1) as u32));
                } else {
                    assert(self.counts@ =~= counts1.update(at as int, (c + 1) as u32));
                }
                crate::exec::rowkey::keys_are_distinct(self.index);
                assert forall|key: Seq<u8>| #[trigger] stock(self.index@, self.counts@, key) == stock(e, c0, key)
                    + tally(keys, r + 1, key) by {
                    lemma_stock_counted(before, counts1, self.index@, self.counts@, keybuf@, at as int, key);
                    assert(stock(before, counts1, key) == stock(e, c0, key) + tally(keys, r as int, key));
                }
            }
            r = r + 1;
        }
        if self.mem_used() > MAX_STATE_BYTES {
            return Err(Error::new(Code::Oom));
        }
        Ok(())
    }

    /// Whether the row with a key is returned; uses up a right row if it is matched.
    fn keep(&mut self, key: &[u8]) -> (r: bool)
        requires
            old(self).inv(),
            old(self).seen@.len() < max_keys(),
        ensures
            final(self).inv(),
            final(self).same_query(*old(self)),
            final(self).shape == old(self).shape,
            final(self).index == old(self).index,
            r == returned(old(self).op, old(self).all, old(self).index@, old(self).counts@, old(self).seen@, key@),
            final(self).counts@ == counts_after(
                old(self).op,
                old(self).all,
                old(self).index@,
                old(self).counts@,
                key@,
            ),
            final(self).seen@ == seen_after(
                old(self).op,
                old(self).all,
                old(self).index@,
                old(self).counts@,
                old(self).seen@,
                key@,
            ),
    {
        proof {
            lemma_stock_after(self.op, self.all, self.index@, self.counts@, key@, key@);
        }
        let qualifies: bool = match self.op {
            SetOpKind::Union => true,
            SetOpKind::Intersect => match self.index.lookup(key) {
                None => false,
                Some(slot) => {
                    proof {
                        assert(self.index@[entry_of(self.index@, key@)].1 == entry_of(self.index@, key@));
                    }
                    if !self.all {
                        true
                    } else {
                        let c: u32 = self.counts[slot as usize];
                        if c > 0 {
                            self.counts.set(slot as usize, c - 1);
                            true
                        } else {
                            false
                        }
                    }
                },
            },
            SetOpKind::Except => match self.index.lookup(key) {
                None => true,
                Some(slot) => {
                    proof {
                        assert(self.index@[entry_of(self.index@, key@)].1 == entry_of(self.index@, key@));
                    }
                    if !self.all {
                        false
                    } else {
                        let c: u32 = self.counts[slot as usize];
                        if c > 0 {
                            self.counts.set(slot as usize, c - 1);
                            false
                        } else {
                            true
                        }
                    }
                },
            },
        };
        if !qualifies {
            return false;
        }
        if self.all {
            return true;
        }
        let (_, fresh) = self.seen.get_or_insert(key);
        fresh
    }

    /// Narrows a batch to the rows that are returned; `None` if there are none.
    pub fn filter(&mut self, batch: Batch) -> (r: Result<Option<Batch>, Error>)
        requires
            old(self).inv(),
            batch.wf(),
        ensures
            final(self).inv(),
            final(self).same_query(*old(self)),
            final(self).index == old(self).index,
            final(self).shape == old(self).shape || (final(self).shape matches Some(s) && s@ == storage_of(batch.types())),
            if batch.rows().len() == 0 {
                (r matches Ok(None)) && *final(self) == *old(self)
            } else {
                match shape_fault(old(self).shape, batch.types()) {
                    Some(c) => (r matches Err(e) && e.code == c) && *final(self) == *old(self),
                    None => if old(self).op is Union && old(self).all {
                        &&& r matches Ok(Some(b)) && b == batch
                        &&& final(self).seen == old(self).seen
                        &&& final(self).counts == old(self).counts
                    } else {
                        let keys = batch_keys(batch);
                        let flags = returned_flags(
                            old(self).op,
                            old(self).all,
                            old(self).index@,
                            old(self).counts@,
                            old(self).seen@,
                            keys,
                        );
                        let after = seen_at(
                            old(self).op,
                            old(self).all,
                            old(self).index@,
                            old(self).counts@,
                            old(self).seen@,
                            keys,
                            keys.len() as int,
                        );
                        if state_bytes(old(self).index@, after) > MAX_STATE_BYTES {
                            &&& r matches Err(e) && e.code == Code::Oom
                            &&& state_bytes(final(self).index@, final(self).seen@) > MAX_STATE_BYTES
                        } else {
                            &&& final(self).seen@ == after
                            &&& final(self).counts@ == counts_at(
                                old(self).op,
                                old(self).all,
                                old(self).index@,
                                old(self).counts@,
                                keys,
                                keys.len() as int,
                            )
                            &&& match r {
                                Ok(Some(b)) => {
                                    &&& any_set(flags)
                                    &&& b.wf()
                                    &&& b.types() == batch.types()
                                    &&& b.rows() == kept(batch.rows(), flags)
                                },
                                Ok(None) => !any_set(flags),
                                Err(_) => false,
                            }
                        }
                    },
                }
            },
    {
        if batch.card() == 0 {
            return Ok(None);
        }
        match self.check_shape(&batch) {
            Ok(()) => {},
            Err(e) => {
                return Err(e);
            },
        }
        if self.pass_through() {
            return Ok(Some(batch));
        }
        let mut flat = batch;
        let ghost keys = batch_keys(batch);
        flat.materialize();
        let ghost e = self.index@;
        let ghost c0 = self.counts@;
        let ghost s0 = self.seen@;
        let ghost op = self.op;
        let ghost all = self.all;
        proof {
            lemma_batch_keys(batch, flat);
            lemma_seen_grows(op, all, e, c0, s0, keys, keys.len() as int);
            lemma_key_total_positive(self.index@);
            lemma_key_total_positive(self.seen@);
        }
        if self.mem_used() > MAX_STATE_BYTES {
            return Err(Error::new(Code::Oom));
        }
        let rows: usize = flat.num_rows();
        let refs = column_refs(&flat.cols);
        let mut keybuf: Vec<u8> = Vec::new();
        let mut flags: Vec<bool> = Vec::new();
        let ghost want = returned_flags(op, all, e, c0, s0, keys);
        let mut r: usize = 0;
        while r < rows
            invariant
                r <= rows,
                rows == keys.len(),
                rows == flat.spec_num_rows(),
                flat.wf(),
                keys == col_keys(cols_of(flat.cols@), rows as nat),
                refs@.unref() == flat.cols@,
                refs@.len() == flat.cols@.len(),
                forall|c: int| 0 <= c < refs@.len() ==> *(#[trigger] refs@[c]) == flat.cols@[c],
                self.shape == old(self).shape || (self.shape matches Some(s) && s@ == storage_of(batch.types())),
                self.inv(),
                self.same_query(*old(self)),
                self.index == old(self).index,
                e == self.index@,
                op == self.op,
                all == self.all,
                c0 == old(self).counts@,
                s0 == old(self).seen@,
                batch.rows().len() > 0,
                shape_fault(old(self).shape, batch.types()) is None,
                !(op is Union && all),
                keys == batch_keys(batch),
                self.counts@ == counts_at(op, all, e, c0, keys, r as int),
                self.seen@ == seen_at(op, all, e, c0, s0, keys, r as int),
                want == returned_flags(op, all, e, c0, s0, keys),
                flags@ == want.take(r as int),
            decreases rows - r,
        {
            assert forall|c: int| 0 <= c < refs@.len() implies r < (#[trigger] refs@[c])@.len() by {
                assert(flat.cols@[c]@.len() == rows);
            }
            encode_key(refs.as_slice(), r, &mut keybuf);
            proof {
                lemma_col_key(flat.cols@, rows as nat, r as int);
            }
            if self.seen.len() >= max_keys() {
                proof {
                    lemma_seen_more(op, all, e, c0, s0, keys, r as int, rows as int);
                    lemma_full_index(seen_at(op, all, e, c0, s0, keys, rows as int));
                    lemma_full_index(self.seen@);
                    lemma_key_total_positive(e);
                }
                return Err(Error::new(Code::Oom));
            }
            let k: bool = self.keep(keybuf.as_slice());
            flags.push(k);
            r = r + 1;
            assert(flags@ =~= want.take(r as int));
        }
        assert(flags@ =~= want);
        if self.mem_used() > MAX_STATE_BYTES {
            return Err(Error::new(Code::Oom));
        }
        proof {
            lemma_kept_some(flat.rows(), flags@);
        }
        let b = flat.narrowed(&flags);
        if b.card() == 0 {
            return Ok(None);
        }
        Ok(Some(b))
    }
}

/// The keys of rows, over all columns.
pub open spec fn chunk_keys(c: Chunk) -> Seq<Seq<u8>> {
    col_keys(Seq::new(c.types.len(), |k: int| crate::expr::input_col(c.types, c.rows, k)), c.rows.len())
}

/// The keys of a batch's rows.
pub open spec fn batch_keys(b: Batch) -> Seq<Seq<u8>> {
    chunk_keys(chunk(b))
}

proof fn lemma_batch_keys(given: Batch, b: Batch)
    requires
        b.wf(),
        b.sel is None,
        b.rows() == given.rows(),
        b.types() == given.types(),
    ensures
        batch_keys(given) == col_keys(cols_of(b.cols@), b.spec_num_rows() as nat),
        batch_keys(given).len() == b.spec_num_rows(),
{
    let n = b.spec_num_rows();
    assert(b.rows().len() == n);
    let ins = Seq::new(
        given.types().len(),
        |c: int| crate::expr::input_col(given.types(), given.rows(), c),
    );
    assert(b.types().len() == b.cols@.len());
    assert forall|c: int| 0 <= c < ins.len() implies #[trigger] cols_of(b.cols@)[c] == ins[c] by {
        assert forall|i: int| 0 <= i < n implies b.cols@[c]@[i] == given.rows()[i][c] by {
            assert(b.rows()[i] == given.rows()[i]);
        }
        assert(b.cols@[c]@.len() == n);
        assert(b.types()[c] == given.types()[c]);
        assert(cols_of(b.cols@)[c] =~= ins[c]);
    }
    assert(cols_of(b.cols@) =~= ins);
}

proof fn lemma_tally_grows(keys: Seq<Seq<u8>>, r: int, n: int, key: Seq<u8>)
    requires
        0 <= r < n <= keys.len(),
        keys[r] == key,
    ensures
        tally(keys, n, key) >= tally(keys, r, key) + 1,
    decreases n,
{
    if n - 1 > r {
        lemma_tally_grows(keys, r, n - 1, key);
    }
}

/// Where a key's count stands after the key was looked up.
proof fn lemma_slot(
    before: Seq<(Seq<u8>, u32)>,
    c1: Seq<u32>,
    e: Seq<(Seq<u8>, u32)>,
    c2: Seq<u32>,
    key: Seq<u8>,
    at: int,
)
    requires
        numbered(before, c1),
        has_key(before, key) ==> e == before && c2 == c1 && at == before[entry_of(before, key)].1,
        !has_key(before, key) ==> e == before.push((key, at as u32)) && c2 == c1.push(0) && at == before.len(),
        at <= u32::MAX,
    ensures
        0 <= at < c2.len(),
        e[at].0 == key,
        c2[at] == stock(before, c1, key),
        c2.len() == e.len(),
        forall|i: int| 0 <= i < e.len() ==> (#[trigger] e[i]).1 == i,
{
    if has_key(before, key) {
        let i = entry_of(before, key);
        assert(before[i].0 == key && before[i].1 == i);
    }
}

proof fn lemma_stock_counted(
    before: Seq<(Seq<u8>, u32)>,
    c1: Seq<u32>,
    e: Seq<(Seq<u8>, u32)>,
    c3: Seq<u32>,
    key: Seq<u8>,
    at: int,
    other: Seq<u8>,
)
    requires
        numbered(before, c1),
        numbered(e, c3),
        0 <= at < e.len(),
        e[at].0 == key,
        has_key(before, key) ==> e == before && at == entry_of(before, key) && c3 == c1.update(at, c3[at]),
        !has_key(before, key) ==> e == before.push((key, at as u32)) && at == before.len() && c3 == c1.push(c3[at]),
        c3[at] == stock(before, c1, key) + 1,
    ensures
        stock(e, c3, other) == stock(before, c1, other) + if other == key {
            1int
        } else {
            0
        },
{
    if has_key(e, other) {
        let i = entry_of(e, other);
        assert(e[i].0 == other);
        if other == key {
            assert(i == at);
        } else {
            assert(i != at);
            assert(before[i].0 == other);
            let j = entry_of(before, other);
            assert(before[j].0 == other);
            assert(e[j].0 == other);
            assert(i == j);
        }
    } else {
        if has_key(before, other) {
            let j = entry_of(before, other);
            assert(e[j].0 == other);
        }
    }
}

/// How often a key occurs in the rows of batches.
pub open spec fn total_tally(xs: Seq<Chunk>, key: Seq<u8>) -> int
    decreases xs.len(),
{
    if xs.len() == 0 {
        0
    } else {
        total_tally(xs.drop_last(), key) + tally(chunk_keys(xs.last()), chunk_keys(xs.last()).len() as int, key)
    }
}

/// The index of the keys of batches.
pub open spec fn right_index(xs: Seq<Chunk>) -> Seq<(Seq<u8>, u32)>
    decreases xs.len(),
{
    if xs.len() == 0 {
        Seq::empty()
    } else {
        grown(right_index(xs.drop_last()), chunk_keys(xs.last()), chunk_keys(xs.last()).len() as int)
    }
}

/// The counts and the keys returned.
pub type SetState = (Seq<u32>, Seq<(Seq<u8>, u32)>);

/// What one batch does to them, and what is returned of it.
pub open spec fn set_step(op: SetOpKind, all: bool, e: Seq<(Seq<u8>, u32)>) -> spec_fn(SetState, Chunk) -> (
    SetState,
    Option<Chunk>,
) {
    |s: SetState, c: Chunk|
        {
            let keys = chunk_keys(c);
            let flags = returned_flags(op, all, e, s.0, s.1, keys);
            if c.rows.len() == 0 {
                (s, None)
            } else if op is Union && all {
                (s, Some(c))
            } else {
                (
                    (
                        counts_at(op, all, e, s.0, keys, keys.len() as int),
                        seen_at(op, all, e, s.0, s.1, keys, keys.len() as int),
                    ),
                    if any_set(flags) {
                        Some(Chunk { types: c.types, rows: kept(c.rows, flags) })
                    } else {
                        None
                    },
                )
            }
        }
}

/// Why batches of the two sides cannot be worked on: two of them are of different shapes, a row
/// comes too often on the right side, or there are too many keys.
pub open spec fn set_stuck(op: SetOpKind, all: bool, ls: Seq<Chunk>, rs: Seq<Chunk>, code: Code) -> bool {
    ||| exists|a: Chunk, b: Chunk|
        #![trigger (ls + rs).contains(a), (ls + rs).contains(b)]
        (ls + rs).contains(a) && (ls + rs).contains(b) && {
            ||| code == Code::Internal && a.types.len() != b.types.len()
            ||| code == Code::TypeMismatch && storage_of(a.types) != storage_of(b.types)
        }
    ||| !(op is Union) && code == Code::LimitExceeded && exists|key: Seq<u8>| #[trigger] total_tally(rs, key) > u32::MAX
    ||| !(op is Union) && code == Code::Oom && state_bytes(right_index(rs), Seq::empty()) > MAX_STATE_BYTES
    ||| code == Code::Oom && exists|counts: Seq<u32>| #[trigger]
        set_counted(op, rs, counts) && {
            let e = if op is Union {
                Seq::empty()
            } else {
                right_index(rs)
            };
            let xs = if op is Union {
                ls + rs
            } else {
                ls
            };
            state_bytes(e, run(set_step(op, all, e), (counts, Seq::empty()), xs).0.1) > MAX_STATE_BYTES
        }
}

/// The shape is that of one of some batches.
pub open spec fn shape_came(shape: Option<Vec<PhysType>>, xs: Seq<Chunk>) -> bool {
    shape matches Some(s) ==> exists|a: Chunk| #[trigger] xs.contains(a) && s@ == storage_of(a.types)
}

/// Counts are those of the keys of the right side; by `UNION` nothing is counted.
pub open spec fn set_counted(op: SetOpKind, rs: Seq<Chunk>, counts: Seq<u32>) -> bool {
    if op is Union {
        counts.len() == 0
    } else {
        forall|key: Seq<u8>| #[trigger] stock(right_index(rs), counts, key) == total_tally(rs, key)
    }
}

impl SetOp {
    pub open spec fn step(&self) -> spec_fn(SetState, Chunk) -> (SetState, Option<Chunk>) {
        set_step(self.op, self.all, self.index@)
    }

    pub open spec fn start(&self) -> SetState {
        (self.built@, Seq::empty())
    }

    /// The batches of which rows are returned: those of the left side and, by `UNION`, those
    /// of the right side after them.
    pub open spec fn filtered(&self) -> Seq<Chunk> {
        if self.op is Union {
            self.left.op.returned() + self.right.op.returned()
        } else {
            self.left.op.returned()
        }
    }

    /// The index and the counts are those of the right side.
    pub open spec fn right_counted(&self, counts: Seq<u32>) -> bool {
        &&& self.index@ == right_index(self.right.op.returned())
        &&& forall|key: Seq<u8>| #[trigger]
            stock(self.index@, counts, key) == total_tally(self.right.op.returned(), key)
    }

    /// The shape is that of a batch that came in.
    pub open spec fn shaped(&self) -> bool {
        shape_came(self.shape, self.left.op.returned() + self.right.op.returned())
    }

    /// How what has been returned follows from what came in.
    pub open spec fn accounted(&self) -> bool {
        let after = run(self.step(), self.start(), self.filtered());
        &&& self.shaped()
        &&& state_bytes(self.index@, self.seen@) <= MAX_STATE_BYTES
        &&& match self.phase {
            SetPhase::BuildRight => {
                &&& !(self.op is Union)
                &&& self.trace@.out.len() == 0
                &&& self.left.op.returned().len() == 0
                &&& self.seen@.len() == 0
                &&& self.right_counted(self.counts@)
            },
            SetPhase::Left => {
                &&& after == ((self.counts@, self.seen@), self.trace@.out)
                &&& self.op is Union ==> self.index@.len() == 0 && self.built@.len() == 0
                    && self.right.op.returned().len() == 0
                &&& !(self.op is Union) ==> self.right.op.spent() && self.right_counted(self.built@)
                &&& numbered(self.index@, self.built@)
            },
            SetPhase::Right => {
                &&& self.op is Union
                &&& self.index@.len() == 0 && self.built@.len() == 0
                &&& after == ((self.counts@, self.seen@), self.trace@.out)
                &&& self.left.op.spent()
            },
            SetPhase::Done => {
                &&& after == ((self.counts@, self.seen@), self.trace@.out)
                &&& self.op is Union ==> self.index@.len() == 0 && self.built@.len() == 0
                &&& !(self.op is Union) ==> self.right_counted(self.built@)
                &&& numbered(self.index@, self.built@)
                &&& self.left.op.spent()
                &&& self.right.op.spent()
            },
        }
    }
}

impl SetOp {
    /// What has been returned is what the plan gives.
    pub(crate) proof fn lemma_gave(&self, mem: Seq<MemTable>)
        requires
            self.wf(),
        ensures
            self.traced() && self.sound(mem) ==> gave(self.plan(), mem, self.looked(), self.returned(), self.spent()),
            forall|why: Why| #[trigger]
                stops(self.left.op.plan(), mem, self.left.op.looked(), why) ==> stops(self.plan(), mem, self.looked(), why),
            forall|why: Why| #[trigger]
                stops(self.right.op.plan(), mem, self.right.op.looked(), why) ==> stops(self.plan(), mem, self.looked(), why),
            forall|code: Code|
                supplied(self.left, mem) && supplied(self.right, mem) && #[trigger] stuck(
                    self.plan(),
                    self.left.op.returned(),
                    self.right.op.returned(),
                    code,
                ) ==> stops(self.plan(), mem, self.looked(), Why::Failed(code)),
    {
        reveal_with_fuel(gave, 1);
        reveal_with_fuel(stops, 1);
        if self.traced() && self.sound(mem) && self.phase != SetPhase::BuildRight {
            let ls = self.left.op.returned();
            let rs = self.right.op.returned();
            if self.op is Union {
                assert(self.index@ =~= Seq::empty());
                assert(ls + rs == self.filtered());
            }
            let p = self.plan();
            assert(set_gave(p->SetOp_op, p->SetOp_all, ls, rs, self.built@, self.trace@.out));
        }
    }
}

/// The batches of both sides before the last one of the left or the right side.
spec fn came_before(s: SetOp, before: Seq<Chunk>, left: bool) -> Seq<Chunk> {
    if left {
        before + s.right.op.returned()
    } else {
        s.left.op.returned() + before
    }
}

/// A batch that agrees with the shape leaves it that of a batch that came in.
proof fn lemma_in_shape(was: SetOp, now: SetOp, before: Seq<Chunk>, c: Chunk, left: bool)
    requires
        now.left == was.left,
        now.right == was.right,
        left ==> was.left.op.returned() == before.push(c),
        !left ==> was.right.op.returned() == before.push(c),
        now.shape == was.shape || (now.shape matches Some(s) && s@ == storage_of(c.types)),
        shape_came(was.shape, came_before(was, before, left)),
    ensures
        now.shaped(),
{
    let all = was.left.op.returned() + was.right.op.returned();
    lemma_came_in(was, before, c, left);
    if now.shape == was.shape && was.shape is Some {
        let old_all = came_before(was, before, left);
        let a = choose|a: Chunk| #[trigger] old_all.contains(a) && was.shape->0@ == storage_of(a.types);
        assert(all.contains(a));
    }
}

/// What came in before is still among what came in, and so is the last batch.
proof fn lemma_came_in(was: SetOp, before: Seq<Chunk>, c: Chunk, left: bool)
    requires
        left ==> was.left.op.returned() == before.push(c),
        !left ==> was.right.op.returned() == before.push(c),
    ensures
        (was.left.op.returned() + was.right.op.returned()).contains(c),
        forall|a: Chunk|
            #[trigger] came_before(was, before, left).contains(a) ==> (was.left.op.returned() + was.right.op.returned()).contains(a),
{
    let ls = was.left.op.returned();
    let rs = was.right.op.returned();
    let all = ls + rs;
    if left {
        assert(all[before.len() as int] == c);
    } else {
        assert(all[(ls.len() + before.len()) as int] == c);
    }
    assert forall|a: Chunk|
        #[trigger] came_before(was, before, left).contains(a) implies all.contains(a) by {
        let part = came_before(was, before, left);
        let i = choose|i: int| 0 <= i < part.len() && part[i] == a;
        if left && i >= before.len() {
            assert(all[i + 1] == a);
        } else {
            assert(all[i] == a);
        }
    }
}

/// A batch that does not agree with the shape is of another one than a batch that came in.
proof fn lemma_out_of_shape(was: SetOp, before: Seq<Chunk>, c: Chunk, left: bool, code: Code)
    requires
        left ==> was.left.op.returned() == before.push(c),
        !left ==> was.right.op.returned() == before.push(c),
        shape_came(was.shape, came_before(was, before, left)),
    ensures
        shape_fault(was.shape, c.types) == Some(code) ==> set_stuck(
            was.op,
            was.all,
            was.left.op.returned(),
            was.right.op.returned(),
            code,
        ),
{
    lemma_came_in(was, before, c, left);
    if shape_fault(was.shape, c.types) == Some(code) {
        let s = was.shape->0;
        let part = came_before(was, before, left);
        let a = choose|a: Chunk| #[trigger] part.contains(a) && s@ == storage_of(a.types);
        let all = was.left.op.returned() + was.right.op.returned();
        assert(all.contains(a) && all.contains(c));
        if code == Code::TypeMismatch {
            let k = choose|k: int| 0 <= k < c.types.len() && (#[trigger] c.types[k]).phys() != s@[k];
            assert(storage_of(c.types)[k] != storage_of(a.types)[k]);
        }
    }
}

impl Operator for SetOp {
    open spec fn wf(&self) -> bool {
        &&& self.left.op.wf()
        &&& self.right.op.wf()
        &&& self.inv()
        &&& within(self.left.op.looked(), self.log@)
        &&& within(self.right.op.looked(), self.log@)
        &&& self.traced() ==> self.accounted()
    }

    open spec fn plan(&self) -> NodeV {
        NodeV::SetOp {
            left: Box::new(self.left.op.plan()),
            right: Box::new(self.right.op.plan()),
            op: self.op,
            all: self.all,
        }
    }

    open spec fn looked(&self) -> Seq<Look> {
        self.log@
    }

    open spec fn traced(&self) -> bool {
        self.trace@.ok && self.left.op.traced() && self.right.op.traced()
    }

    open spec fn returned(&self) -> Seq<Chunk> {
        self.trace@.out
    }

    open spec fn spent(&self) -> bool {
        self.phase == SetPhase::Done
    }

    open spec fn sound(&self, mem: Seq<MemTable>) -> bool {
        supplied(self.left, mem) && supplied(self.right, mem)
    }

    #[verifier::rlimit(80)]
    fn next(&mut self, ctx: &mut ExecContext) -> (r: Result<Step, Error>)
        ensures
            answers(
                r,
                *final(ctx),
                heard(final(self).left.said@, final(self).right.said@),
                old(self).traced(),
                final(self).plan(),
                final(self).left.op.returned(),
                final(self).right.op.returned(),
            ),
            old(self).phase == SetPhase::Done ==> r matches Ok(Step::Done),
    {
        self.left.said = Ghost(Said::Nothing);
        self.right.said = Ghost(Said::Nothing);
        let ghost start = *self;
        let mut fuel: u64 = u64::MAX;
        proof {
            lemma_no_look(self.looked(), ctx.catalog);
        }
        while fuel > 0
            invariant
                self.wf(),
                ctx.wf(),
                ctx.same_data(*old(ctx)),
                looked_on(old(self).looked(), old(ctx).catalog, self.looked(), ctx.catalog),
                ctx.io == old(ctx).io,
                ctx.codec == old(ctx).codec,
                self.left.said@.goes_on(),
                self.right.said@.goes_on(),
                self.traced() ==> self.left.op.returned().len() + self.right.op.returned().len() + fuel + match self.phase {
                    SetPhase::BuildRight => 0int,
                    SetPhase::Left => 1int,
                    SetPhase::Right => 2int,
                    SetPhase::Done => 3int,
                } >= u64::MAX,
                start == (SetOp { left: start.left, right: start.right, ..*old(self) }),
                old(self).sound(old(ctx).catalog.mem@) && self.traced() ==> self.sound(old(ctx).catalog.mem@),
                old(self).phase == SetPhase::Done ==> *self == start && fuel == u64::MAX,
                self.op == old(self).op,
                self.all == old(self).all,
                self.trace == old(self).trace,
                self.left.op.plan() == old(self).left.op.plan(),
                self.right.op.plan() == old(self).right.op.plan(),
                self.left.op.traced() <==> old(self).left.op.traced(),
                self.right.op.traced() <==> old(self).right.op.traced(),
            decreases fuel,
        {
            match self.phase {
                SetPhase::BuildRight => {
                    let ghost before = self.right.op.returned();
                    let ghost came = self.left.op.returned() + self.right.op.returned();
                    let ghost at = self.right.op.looked();
                    let ghost log = self.log@;
                    let ghost from = ctx.catalog;
                    let step = self.right.pull(ctx);
                    self.log = Ghost(added(log, at, self.right.op.looked()));
                    proof {
                        lemma_beside(log, at, from, self.right.op.looked(), ctx.catalog);
                        lemma_looked_twice(old(self).looked(), old(ctx).catalog, log, from, self.looked(), ctx.catalog);
                    }
                    match step {
                        Ok(Step::Ready(b)) => {
                            let ghost c = chunk(b);
                            let ghost was = *self;
                            assert(old(self).traced() ==> came_before(was, before, false) =~= came);
                            match self.absorb_right(b) {
                                Ok(()) => {
                                    proof {
                                        assert(before.push(c).drop_last() =~= before);
                                        if self.traced() {
                                            lemma_in_shape(was, *self, before, c, false);
                                        }
                                    }
                                },
                                Err(e) => {
                                    self.trace = Ghost(lost_trace(self.trace@));
                                    proof {
                                        if old(self).traced() {
                                            assert(before.push(c).drop_last() =~= before);
                                            assert(self.right.op.returned() == before.push(c));
                                            lemma_out_of_shape(was, before, c, false, e.code);
                                            if e.code == Code::LimitExceeded && shape_fault(was.shape, c.types) is None {
                                                let keys = chunk_keys(c);
                                                let key = choose|key: Seq<u8>| #[trigger]
                                                    stock(was.index@, was.counts@, key) + tally(
                                                        keys,
                                                        keys.len() as int,
                                                        key,
                                                    ) > u32::MAX;
                                                assert(total_tally(self.right.op.returned(), key) > u32::MAX);
                                            }
                                            assert(was.seen@ =~= Seq::empty());
                                            assert(stuck(
                                                self.plan(),
                                                self.left.op.returned(),
                                                self.right.op.returned(),
                                                e.code,
                                            ));
                                        }
                                        self.lemma_gave(old(ctx).catalog.mem@);
                                    }
                                    return Err(e);
                                },
                            }
                        },
                        Ok(Step::Done) => {
                            self.phase = SetPhase::Left;
                            self.built = Ghost(self.counts@);
                            proof {
                                if self.traced() {
                                    assert(self.seen@ =~= Seq::empty());
                                    assert(self.trace@.out =~= Seq::empty());
                                    assert(self.filtered() =~= Seq::empty());
                                }
                            }
                        },
                        Ok(other) => {
                            proof {
                                self.lemma_gave(old(ctx).catalog.mem@);
                            }
                            return Ok(other);
                        },
                        Err(e) => {
                            proof {
                                self.lemma_gave(old(ctx).catalog.mem@);
                            }
                            return Err(e);
                        },
                    }
                },
                SetPhase::Left => {
                    let ghost before = self.filtered();
                    let ghost had = self.left.op.returned();
                    let ghost came = self.left.op.returned() + self.right.op.returned();
                    let ghost at = self.left.op.looked();
                    let ghost log = self.log@;
                    let ghost from = ctx.catalog;
                    let step = self.left.pull(ctx);
                    self.log = Ghost(added(log, at, self.left.op.looked()));
                    proof {
                        lemma_beside(log, at, from, self.left.op.looked(), ctx.catalog);
                        lemma_looked_twice(old(self).looked(), old(ctx).catalog, log, from, self.looked(), ctx.catalog);
                    }
                    match step {
                        Ok(Step::Ready(b)) => {
                            let ghost c = chunk(b);
                            proof {
                                lemma_run_push(self.step(), self.start(), before, c);
                                assert(self.traced() ==> self.filtered() =~= before.push(c));
                            }
                            let ghost was = *self;
                            assert(old(self).traced() ==> came_before(was, had, true) =~= came);
                            match self.filter(b) {
                                Ok(Some(out)) => {
                                    proof {
                                        if self.traced() {
                                            lemma_in_shape(was, *self, had, c, true);
                                        }
                                    }
                                    self.trace = Ghost(grown_trace(self.trace@, chunk(out)));
                                    proof {
                                        self.lemma_gave(old(ctx).catalog.mem@);
                                    }
                                    return Ok(Step::Ready(out));
                                },
                                Ok(None) => {
                                    proof {
                                        if self.traced() {
                                            lemma_in_shape(was, *self, had, c, true);
                                        }
                                    }
                                },
                                Err(e) => {
                                    self.trace = Ghost(lost_trace(self.trace@));
                                    proof {
                                        if old(self).traced() {
                                            lemma_out_of_shape(was, had, c, true, e.code);
                                            let rs = self.right.op.returned();
                                            if self.op is Union {
                                                assert(was.index@ =~= Seq::empty());
                                            }
                                            assert(set_counted(self.op, rs, was.built@));
                                            assert(stuck(
                                                self.plan(),
                                                self.left.op.returned(),
                                                self.right.op.returned(),
                                                e.code,
                                            ));
                                        }
                                        self.lemma_gave(old(ctx).catalog.mem@);
                                    }
                                    return Err(e);
                                },
                            }
                        },
                        Ok(Step::Done) => {
                            self.phase = if self.op == SetOpKind::Union {
                                SetPhase::Right
                            } else {
                                SetPhase::Done
                            };
                        },
                        Ok(other) => {
                            proof {
                                self.lemma_gave(old(ctx).catalog.mem@);
                            }
                            return Ok(other);
                        },
                        Err(e) => {
                            proof {
                                self.lemma_gave(old(ctx).catalog.mem@);
                            }
                            return Err(e);
                        },
                    }
                },
                SetPhase::Right => {
                    let ghost before = self.filtered();
                    let ghost had = self.right.op.returned();
                    let ghost came = self.left.op.returned() + self.right.op.returned();
                    let ghost at = self.right.op.looked();
                    let ghost log = self.log@;
                    let ghost from = ctx.catalog;
                    let step = self.right.pull(ctx);
                    self.log = Ghost(added(log, at, self.right.op.looked()));
                    proof {
                        lemma_beside(log, at, from, self.right.op.looked(), ctx.catalog);
                        lemma_looked_twice(old(self).looked(), old(ctx).catalog, log, from, self.looked(), ctx.catalog);
                    }
                    match step {
                        Ok(Step::Ready(b)) => {
                            let ghost c = chunk(b);
                            proof {
                                lemma_run_push(self.step(), self.start(), before, c);
                                assert(self.traced() ==> self.filtered() =~= before.push(c));
                            }
                            let ghost was = *self;
                            assert(old(self).traced() ==> came_before(was, had, false) =~= came);
                            match self.filter(b) {
                                Ok(Some(out)) => {
                                    proof {
                                        if self.traced() {
                                            lemma_in_shape(was, *self, had, c, false);
                                        }
                                    }
                                    self.trace = Ghost(grown_trace(self.trace@, chunk(out)));
                                    proof {
                                        self.lemma_gave(old(ctx).catalog.mem@);
                                    }
                                    return Ok(Step::Ready(out));
                                },
                                Ok(None) => {
                                    proof {
                                        if self.traced() {
                                            lemma_in_shape(was, *self, had, c, false);
                                        }
                                    }
                                },
                                Err(e) => {
                                    self.trace = Ghost(lost_trace(self.trace@));
                                    proof {
                                        if old(self).traced() {
                                            lemma_out_of_shape(was, had, c, false, e.code);
                                            let rs = self.right.op.returned();
                                            if self.op is Union {
                                                assert(was.index@ =~= Seq::empty());
                                            }
                                            assert(set_counted(self.op, rs, was.built@));
                                            assert(stuck(
                                                self.plan(),
                                                self.left.op.returned(),
                                                self.right.op.returned(),
                                                e.code,
                                            ));
                                        }
                                        self.lemma_gave(old(ctx).catalog.mem@);
                                    }
                                    return Err(e);
                                },
                            }
                        },
                        Ok(Step::Done) => {
                            self.phase = SetPhase::Done;
                        },
                        Ok(other) => {
                            proof {
                                self.lemma_gave(old(ctx).catalog.mem@);
                            }
                            return Ok(other);
                        },
                        Err(e) => {
                            proof {
                                self.lemma_gave(old(ctx).catalog.mem@);
                            }
                            return Err(e);
                        },
                    }
                },
                SetPhase::Done => {
                    proof {
                        self.lemma_gave(old(ctx).catalog.mem@);
                    }
                    return Ok(Step::Done);
                },
            }
            fuel = fuel - 1;
        }
        proof {
            if old(self).traced() {
                assert(stuck(
                    self.plan(),
                    self.left.op.returned(),
                    self.right.op.returned(),
                    Code::LimitExceeded,
                ));
            }
            self.lemma_gave(old(ctx).catalog.mem@);
        }
        Err(Error::new(Code::LimitExceeded))
    }
}

} // verus!
