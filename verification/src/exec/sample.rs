//! `USING SAMPLE` and `TABLESAMPLE`.
//!
//! A percentage keeps each row with that probability, row by row as the rows come. A number
//! of rows is drawn uniformly once the input is read through. Either way the draw depends on
//! the seed and the rows alone, not on where the input was interrupted.

use crate::catalog::MemTable;
use crate::error::{Code, Error};
use crate::exec::looks::{lemma_no_look, looked_on};
use crate::exec::meaning::{gave, lemma_begins, stops, stuck, supplied, Why};
use crate::exec::recursive::chunk_cols;
use crate::exec::window::first_types;
use crate::exec::join::append_all;
use crate::exec::sort::{can_append, columns_bytes, columns_size, empty_like, storage_agrees, types_of};
use crate::exec::{
    answers, chunk, flat, fresh_trace, grown_trace, lemma_flat_push, lemma_portions_push, lemma_run_push, lost_trace, portion, portions, run, Chunk,
    Trace, any_set, Child, ExecContext, Look, Operator, Said, Step,
};
use crate::expr::{cols_of, ColV};
use crate::float::{
    f_less, f_of_int, f_product, f_quotient, f_sum, f_whole, from_int, less, over, plus, times, whole, F_HALF,
    F_HUNDRED, F_ONE, F_ZERO,
};
use crate::plan::{NodeV, SampleSpec};
use crate::vector::{
    cols_wf, gather_columns, kept, lemma_kept_step, lemma_kept_subset, row_at, row_numbers, Batch, Ty, Val, Vector, BATCH_SIZE,
    MAX_ROWS,
};
use vstd::prelude::*;

verus! {

// --- Random numbers -------------------------------------------------------------------------

/// What a seed of 0 stands for: from a state of 0 the generator would not get away.
pub const ZERO_SEED: u64 = 0x9E37_79B9_7F4A_7C15;

/// 2^-53
pub const F_2M53: u64 = 0x3ca0_0000_0000_0000;

/// The state after one step of xorshift64*.
pub open spec fn rng_step(x: u64) -> u64 {
    let a = x ^ (x >> 12);
    let b = a ^ (a << 25);
    b ^ (b >> 27)
}

/// The number that a state gives.
pub open spec fn rng_output(x: u64) -> u64 {
    x.wrapping_mul(0x2545_F491_4F6C_DD1D)
}

/// The state after `k` steps.
pub open spec fn rng_after(x: u64, k: nat) -> u64
    decreases k,
{
    if k == 0 {
        x
    } else {
        rng_step(rng_after(x, (k - 1) as nat))
    }
}

/// The `k`-th number drawn, from 1.
pub open spec fn drawn(x: u64, k: nat) -> u64 {
    rng_output(rng_after(x, k))
}

/// A number drawn as a double from 0 up to 1.
pub open spec fn drawn_fraction(x: u64, k: nat) -> u64 {
    f_product(f_of_int((drawn(x, k) >> 11) as int), F_2M53)
}

pub open spec fn rng_start(seed: u64) -> u64 {
    if seed == 0 {
        ZERO_SEED
    } else {
        seed
    }
}

pub struct Rng {
    pub state: u64,
}

impl Rng {
    pub fn new(seed: u64) -> (r: Rng)
        ensures
            r.state == rng_start(seed),
    {
        Rng { state: if seed == 0 { ZERO_SEED } else { seed } }
    }

    pub fn next_u64(&mut self) -> (r: u64)
        ensures
            final(self).state == rng_step(old(self).state),
            r == rng_output(final(self).state),
    {
        let x: u64 = self.state;
        let a: u64 = x ^ (x >> 12);
        let b: u64 = a ^ (a << 25);
        self.state = b ^ (b >> 27);
        self.state.wrapping_mul(0x2545_F491_4F6C_DD1D)
    }

    /// A double from 0 up to 1, from the top 53 bits.
    pub fn next_f64(&mut self) -> (r: u64)
        ensures
            final(self).state == rng_step(old(self).state),
            r == f_product(f_of_int((rng_output(final(self).state) >> 11) as int), F_2M53),
    {
        let u: u64 = self.next_u64();
        times(from_int((u >> 11) as i128), F_2M53)
    }

    /// A number below `n`.
    pub fn below(&mut self, n: u64) -> (r: u64)
        requires
            n > 0,
        ensures
            final(self).state == rng_step(old(self).state),
            r == rng_output(final(self).state) as int % n as int,
            r < n,
    {
        self.next_u64() % n
    }
}

// --- A percentage -----------------------------------------------------------------------------

/// A percentage as a probability.
pub open spec fn probability(amount: u64) -> u64 {
    let p = f_quotient(amount, F_HUNDRED);
    if f_less(p, F_ZERO) {
        F_ZERO
    } else if f_less(F_ONE, p) {
        F_ONE
    } else {
        p
    }
}

/// Which of the next `n` rows are kept.
pub open spec fn lucky(state: u64, p: u64, n: nat) -> Seq<bool> {
    Seq::new(n, |i: int| f_less(drawn_fraction(state, (i + 1) as nat), p))
}

/// Keeps each row with a probability.
pub struct Bernoulli {
    pub input: Child,
    pub spec: SampleSpec,
    pub p: u64,
    pub rng: Rng,
    pub trace: Ghost<Trace>,
}

/// What one batch does to the generator, and what is kept of it.
pub open spec fn lucky_step(p: u64) -> spec_fn(u64, Chunk) -> (u64, Option<Chunk>) {
    |s: u64, c: Chunk|
        {
            let keep = lucky(s, p, c.rows.len());
            (
                rng_after(s, c.rows.len()),
                if any_set(keep) {
                    Some(Chunk { types: c.types, rows: kept(c.rows, keep) })
                } else {
                    None
                },
            )
        }
}

impl Bernoulli {
    pub fn new(input: Child, spec: &SampleSpec) -> (b: Bernoulli)
        requires
            input.op.wf(),
        ensures
            b.wf(),
            b.input == input,
            b.spec == *spec,
            b.p == probability(spec.amount),
            b.rng.state == rng_start(spec.seed),
            b.trace@ == fresh_trace(input.op.returned()),
    {
        let q: u64 = over(spec.amount, F_HUNDRED);
        let p: u64 = if less(q, F_ZERO) {
            F_ZERO
        } else if less(F_ONE, q) {
            F_ONE
        } else {
            q
        };
        let b = Bernoulli {
            input,
            spec: *spec,
            p,
            rng: Rng::new(spec.seed),
            trace: Ghost(fresh_trace(input.op.returned())),
        };
        assert(b.input == input);
        b
    }

    /// Narrows a batch to the rows kept; `None` if there are none.
    pub fn accept(&mut self, batch: Batch) -> (r: Option<Batch>)
        requires
            batch.wf(),
        ensures
            final(self).input == old(self).input,
            final(self).spec == old(self).spec,
            final(self).p == old(self).p,
            final(self).trace == old(self).trace,
            final(self).rng.state == rng_after(old(self).rng.state, batch.rows().len()),
            ({
                let keep = lucky(old(self).rng.state, old(self).p, batch.rows().len());
                match r {
                    Some(b) => {
                        &&& any_set(keep)
                        &&& b.wf()
                        &&& b.types() == batch.types()
                        &&& b.rows() == kept(batch.rows(), keep)
                    },
                    None => !any_set(keep),
                }
            }),
    {
        let n: usize = batch.card();
        let ghost s0 = self.rng.state;
        let ghost keep = lucky(s0, self.p, n as nat);
        let mut flags: Vec<bool> = Vec::new();
        let mut some: bool = false;
        let mut i: usize = 0;
        while i < n
            invariant
                i <= n,
                self.input == old(self).input,
                self.spec == old(self).spec,
                self.p == old(self).p,
                self.trace == old(self).trace,
                self.rng.state == rng_after(s0, i as nat),
                keep == lucky(s0, self.p, n as nat),
                flags@ == keep.take(i as int),
                some == any_set(flags@),
            decreases n - i,
        {
            let x: u64 = self.rng.next_f64();
            let k: bool = less(x, self.p);
            let ghost before = flags@;
            flags.push(k);
            proof {
                assert(rng_after(s0, (i + 1) as nat) == rng_step(rng_after(s0, i as nat)));
                assert(k == keep[i as int]);
                assert(flags@ =~= keep.take(i + 1));
                if any_set(before) {
                    let j = choose|j: int| 0 <= j < before.len() && before[j];
                    assert(flags@[j]);
                }
                if k {
                    assert(flags@[i as int]);
                }
                if any_set(flags@) {
                    let j = choose|j: int| 0 <= j < flags@.len() && flags@[j];
                    if j < i {
                        assert(before[j]);
                    }
                }
            }
            some = some || k;
            i = i + 1;
        }
        assert(flags@ =~= keep);
        if !some {
            return None;
        }
        Some(batch.narrowed(&flags))
    }
}

impl Bernoulli {
    /// What has been returned is what the plan gives.
    pub(crate) proof fn lemma_gave(&self, mem: Seq<MemTable>)
        requires
            self.wf(),
        ensures
            self.traced() && self.sound(mem) ==> gave(self.plan(), mem, self.looked(), self.returned(), self.spent()),
            forall|why: Why| #[trigger]
                stops(self.input.op.plan(), mem, self.input.op.looked(), why) ==> stops(self.plan(), mem, self.looked(), why),
            forall|code: Code|
                supplied(self.input, mem) && #[trigger] stuck(self.plan(), self.input.op.returned(), Seq::empty(), code) ==> stops(
                    self.plan(),
                    mem,
                    self.looked(),
                    Why::Failed(code),
                ),
    {
        reveal_with_fuel(gave, 1);
        reveal_with_fuel(stops, 1);
    }
}

impl Operator for Bernoulli {
    open spec fn wf(&self) -> bool {
        &&& self.input.op.wf()
        &&& self.p == probability(self.spec.amount)
        &&& self.traced() ==> run(lucky_step(self.p), rng_start(self.spec.seed), self.input.op.returned()) == (
            self.rng.state,
            self.trace@.out,
        )
    }

    open spec fn plan(&self) -> NodeV {
        NodeV::Sample { input: Box::new(self.input.op.plan()), spec: self.spec }
    }

    open spec fn looked(&self) -> Seq<Look> {
        self.input.op.looked()
    }

    open spec fn traced(&self) -> bool {
        self.trace@.ok && self.input.op.traced()
    }

    open spec fn returned(&self) -> Seq<Chunk> {
        self.trace@.out
    }

    open spec fn spent(&self) -> bool {
        self.input.op.spent()
    }

    open spec fn sound(&self, mem: Seq<MemTable>) -> bool {
        !self.spec.is_rows && supplied(self.input, mem)
    }

    fn next(&mut self, ctx: &mut ExecContext) -> (r: Result<Step, Error>)
        ensures
            answers(
                r,
                *final(ctx),
                final(self).input.said@,
                old(self).traced(),
                final(self).plan(),
                final(self).input.op.returned(),
                Seq::empty(),
            ),
    {
        self.input.said = Ghost(Said::Nothing);
        let mut fuel: u64 = u64::MAX;
        proof {
            lemma_no_look(self.looked(), ctx.catalog);
        }
        while fuel > 0
            invariant
                self.wf(),
                ctx.wf(),
                ctx.same_data(*old(ctx)),
                looked_on(old(self).looked(), old(ctx).catalog, self.looked(), ctx.catalog),
                ctx.io == old(ctx).io,
                ctx.codec == old(ctx).codec,
                self.input.said@.goes_on(),
                self.input.op.traced() ==> self.input.op.returned().len() + fuel >= u64::MAX,
                old(self).sound(old(ctx).catalog.mem@) && self.traced() ==> self.sound(old(ctx).catalog.mem@),
                self.spec == old(self).spec,
                self.p == old(self).p,
                self.trace == old(self).trace,
                self.input.op.plan() == old(self).input.op.plan(),
                self.input.op.traced() <==> old(self).input.op.traced(),
            decreases fuel,
        {
            let ghost before = self.input.op.returned();
            match self.input.pull(ctx) {
                Ok(Step::Ready(b)) => {
                    proof {
                        lemma_run_push(lucky_step(self.p), rng_start(self.spec.seed), before, chunk(b));
                    }
                    match self.accept(b) {
                        Some(b) => {
                            self.trace = Ghost(grown_trace(self.trace@, chunk(b)));
                            proof {
                                self.lemma_gave(old(ctx).catalog.mem@);
                            }
                            return Ok(Step::Ready(b));
                        },
                        None => {},
                    }
                },
                Ok(other) => {
                    proof {
                        self.lemma_gave(old(ctx).catalog.mem@);
                    }
                    return Ok(other);
                },
                Err(e) => {
                    proof {
                        self.lemma_gave(old(ctx).catalog.mem@);
                    }
                    return Err(e);
                },
            }
            fuel = fuel - 1;
        }
        proof {
            if old(self).traced() {
                assert(stuck(self.plan(), self.input.op.returned(), Seq::empty(), Code::LimitExceeded));
            }
            self.lemma_gave(old(ctx).catalog.mem@);
        }
        Err(Error::new(Code::LimitExceeded))
    }
}

/// Rows are drawn one by one, so a batch can be cut anywhere.
pub proof fn draws_do_not_depend_on_batching(state: u64, p: u64, a: nat, b: nat)
    ensures
        lucky(state, p, a + b) == lucky(state, p, a) + lucky(rng_after(state, a), p, b),
{
    assert forall|i: int| 0 <= i < a + b implies #[trigger] lucky(state, p, a + b)[i] == (lucky(state, p, a) + lucky(
        rng_after(state, a),
        p,
        b,
    ))[i] by {
        if i >= a {
            lemma_rng_adds(state, a, (i - a + 1) as nat);
        }
    }
    assert(lucky(state, p, a + b) =~= lucky(state, p, a) + lucky(rng_after(state, a), p, b));
}

pub(crate) proof fn lemma_rng_adds(x: u64, a: nat, b: nat)
    ensures
        rng_after(rng_after(x, a), b) == rng_after(x, a + b),
    decreases b,
{
    if b > 0 {
        lemma_rng_adds(x, a, (b - 1) as nat);
    }
}

// --- A number of rows -------------------------------------------------------------------------

/// The numbers below `n` after `k` steps of a Fisher-Yates shuffle: the `i`-th step swaps
/// number `i` with one that is not before it.
pub open spec fn shuffled(state: u64, n: nat, k: nat) -> Seq<int>
    decreases k,
{
    if k == 0 {
        Seq::new(n, |i: int| i)
    } else {
        let s = shuffled(state, n, (k - 1) as nat);
        let i = k - 1;
        let j = i + drawn(state, k) as int % (n - i);
        s.update(i, s[j]).update(j, s[i])
    }
}

/// Which of `n` rows are drawn: those at the first `k` places of the shuffle.
pub open spec fn chosen(state: u64, n: nat, k: nat) -> Seq<bool> {
    Seq::new(n, |r: int| among(shuffled(state, n, k), k as int, r))
}

pub open spec fn among(s: Seq<int>, k: int, r: int) -> bool {
    exists|i: int| 0 <= i < k && #[trigger] s[i] == r
}

/// The wanted number of rows, rounded to the nearest.
pub open spec fn wanted_rows(amount: u64) -> u64 {
    f_whole(
        f_sum(
            if f_less(F_ZERO, amount) {
                amount
            } else {
                F_ZERO
            },
            F_HALF,
        ),
    )
}

spec fn distinct(s: Seq<int>) -> bool {
    forall|i: int, j: int| 0 <= i < j < s.len() ==> #[trigger] s[i] != #[trigger] s[j]
}

spec fn below_all(s: Seq<int>, n: int) -> bool {
    forall|i: int| 0 <= i < s.len() ==> 0 <= #[trigger] s[i] < n
}

proof fn lemma_shuffled(state: u64, n: nat, k: nat)
    requires
        k <= n,
    ensures
        shuffled(state, n, k).len() == n,
        distinct(shuffled(state, n, k)),
        below_all(shuffled(state, n, k), n as int),
    decreases k,
{
    if k > 0 {
        lemma_shuffled(state, n, (k - 1) as nat);
        let s = shuffled(state, n, (k - 1) as nat);
        let i = k - 1;
        let d = drawn(state, k) as int % (n - i);
        assert(0 <= d < n - i) by (nonlinear_arith)
            requires
                n - i > 0,
                d == drawn(state, k) as int % (n - i),
        ;
        let j = i + d;
        let t = s.update(i, s[j]).update(j, s[i]);
        assert forall|a: int, b: int| 0 <= a < b < t.len() implies #[trigger] t[a] != #[trigger] t[b] by {
            let a0 = if a == i {
                j
            } else if a == j {
                i
            } else {
                a
            };
            let b0 = if b == i {
                j
            } else if b == j {
                i
            } else {
                b
            };
            assert(t[a] == s[a0] && t[b] == s[b0]);
            assert(a0 != b0);
            if a0 < b0 {
                assert(s[a0] != s[b0]);
            } else {
                assert(s[b0] != s[a0]);
            }
        }
    }
}

spec fn set_count(flags: Seq<bool>) -> int
    decreases flags.len(),
{
    if flags.len() == 0 {
        0
    } else {
        set_count(flags.drop_last()) + if flags.last() {
            1int
        } else {
            0
        }
    }
}

proof fn lemma_kept_count<T>(xs: Seq<T>, keep: Seq<bool>)
    requires
        xs.len() == keep.len(),
    ensures
        kept(xs, keep).len() == set_count(keep),
    decreases xs.len(),
{
    if xs.len() > 0 {
        lemma_kept_count(xs.drop_last(), keep.drop_last());
    }
}

proof fn lemma_one_more(flags: Seq<bool>, at: int)
    requires
        0 <= at < flags.len(),
        !flags[at],
    ensures
        set_count(flags.update(at, true)) == set_count(flags) + 1,
    decreases flags.len(),
{
    let more = flags.update(at, true);
    if at == flags.len() - 1 {
        assert(more.drop_last() =~= flags.drop_last());
    } else {
        assert(more.drop_last() =~= flags.drop_last().update(at, true));
        lemma_one_more(flags.drop_last(), at);
    }
}

proof fn lemma_none_set(n: nat)
    ensures
        set_count(Seq::new(n, |i: int| false)) == 0,
    decreases n,
{
    if n > 0 {
        lemma_none_set((n - 1) as nat);
        assert(Seq::new(n, |i: int| false).drop_last() =~= Seq::new((n - 1) as nat, |i: int| false));
    }
}

proof fn lemma_marked(s: Seq<int>, n: nat, m: nat)
    requires
        distinct(s),
        below_all(s, n as int),
        m <= s.len(),
    ensures
        set_count(Seq::new(n, |r: int| among(s, m as int, r))) == m,
    decreases m,
{
    let now = Seq::new(n, |r: int| among(s, m as int, r));
    if m == 0 {
        lemma_none_set(n);
        assert(now =~= Seq::new(n, |i: int| false));
    } else {
        lemma_marked(s, n, (m - 1) as nat);
        let before = Seq::new(n, |r: int| among(s, m - 1, r));
        let at = s[m - 1];
        assert(0 <= at < n);
        assert(!before[at]) by {
            if among(s, m - 1, at) {
                let i = choose|i: int| 0 <= i < m - 1 && #[trigger] s[i] == at;
                assert(s[i] != s[m - 1]);
            }
        }
        lemma_one_more(before, at);
        assert forall|r: int| 0 <= r < n implies now[r] == before.update(at, true)[r] by {
            if among(s, m as int, r) {
                let i = choose|i: int| 0 <= i < m && #[trigger] s[i] == r;
                if i < m - 1 {
                    assert(among(s, m - 1, r));
                }
            }
            if r == at {
                assert(s[m - 1] == r);
                assert(among(s, m as int, r));
            }
            if among(s, m - 1, r) {
                let i = choose|i: int| 0 <= i < m - 1 && #[trigger] s[i] == r;
                assert(among(s, m as int, r));
            }
        }
        assert(now =~= before.update(at, true));
    }
}

/// A draw of `k` out of `n` rows has `k` rows.
pub proof fn a_draw_has_the_wanted_size<T>(rows: Seq<T>, state: u64, k: nat)
    requires
        k <= rows.len(),
    ensures
        kept(rows, chosen(state, rows.len(), k)).len() == k,
{
    lemma_shuffled(state, rows.len(), k);
    lemma_marked(shuffled(state, rows.len(), k), rows.len(), k);
    lemma_kept_count(rows, chosen(state, rows.len(), k));
}

#[derive(Clone, Copy, PartialEq, Eq, Structural, Debug)]
pub enum SamplePhase {
    /// Reading and buffering the input.
    Buffering,
    /// Returning the rows drawn.
    Emitting,
    Done,
}

/// The bytes that may be buffered.
pub const MAX_BUFFER_BYTES: u64 = 0x1000_0000;

/// Draws a number of rows uniformly.
pub struct RowSample {
    pub input: Child,
    pub spec: SampleSpec,
    /// How many rows to draw.
    pub target: u64,
    pub rng: Rng,
    pub phase: SamplePhase,
    /// The rows buffered and later the rows drawn.
    pub cols: Vec<Vector>,
    pub rows: usize,
    /// Whether the column types are known.
    pub init: bool,
    pub bytes: u64,
    /// The next row to return.
    pub pos: usize,
    pub trace: Ghost<Trace>,
}

/// The rows drawn out of those of batches.
pub open spec fn drawn_rows(spec: SampleSpec, xs: Seq<Chunk>) -> Seq<Seq<Val>> {
    let rows = flat(xs);
    let want = wanted_rows(spec.amount);
    let k = if want < rows.len() {
        want as nat
    } else {
        rows.len()
    };
    kept(rows, chosen(rng_start(spec.seed), rows.len(), k))
}

impl RowSample {
    pub open spec fn held(&self) -> Seq<Seq<Val>> {
        Seq::new(self.rows as nat, |r: int| row_at(self.cols@, r))
    }

    /// The rows that are still to be returned.
    pub open spec fn to_come(&self) -> Seq<Seq<Val>> {
        Seq::new((self.rows - self.pos) as nat, |k: int| row_at(self.cols@, self.pos + k))
    }

    pub open spec fn inv(&self) -> bool {
        &&& cols_wf(self.cols@, self.rows as int)
        &&& self.rows <= MAX_ROWS
        &&& self.pos <= self.rows
        &&& !self.init ==> self.rows == 0 && self.cols@.len() == 0
    }

    pub open spec fn same_query(&self, other: RowSample) -> bool {
        &&& self.input == other.input
        &&& self.spec == other.spec
        &&& self.target == other.target
        &&& self.trace == other.trace
    }

    /// The types that a batch has to agree with: those of the first batch.
    pub open spec fn held_types(&self, tys: Seq<Ty>) -> Seq<Ty> {
        if self.init {
            types_of(self.cols@)
        } else {
            tys
        }
    }

    /// How many rows are drawn out of those buffered.
    pub open spec fn draws(&self) -> nat {
        if self.target < self.rows {
            self.target as nat
        } else {
            self.rows as nat
        }
    }

    pub fn new(input: Child, spec: &SampleSpec) -> (s: RowSample)
        requires
            input.op.wf(),
        ensures
            s.wf(),
            s.input == input,
            s.spec == *spec,
            s.target == wanted_rows(spec.amount),
            s.rng.state == rng_start(spec.seed),
            s.phase == SamplePhase::Buffering,
            s.rows == 0,
            s.pos == 0,
            s.bytes == 0,
            !s.init,
            s.trace@ == fresh_trace(input.op.returned()),
    {
        let amount: u64 = if less(F_ZERO, spec.amount) {
            spec.amount
        } else {
            F_ZERO
        };
        let s = RowSample {
            input,
            spec: *spec,
            target: whole(plus(amount, F_HALF)),
            rng: Rng::new(spec.seed),
            phase: SamplePhase::Buffering,
            cols: Vec::new(),
            rows: 0,
            init: false,
            bytes: 0,
            pos: 0,
            trace: Ghost(fresh_trace(input.op.returned())),
        };
        assert(s.input == input);
        assert(s.held() =~= Seq::empty());
        s
    }

    /// Takes a batch into the buffer. One that is too large for it stays counted, so that the next one
    /// is refused as well.
    pub fn absorb(&mut self, batch: Batch) -> (r: Result<(), Error>)
        requires
            old(self).inv(),
            old(self).phase == SamplePhase::Buffering,
            batch.wf(),
        ensures
            final(self).inv(),
            final(self).same_query(*old(self)),
            final(self).phase == old(self).phase,
            final(self).rng == old(self).rng,
            final(self).pos == old(self).pos,
            ({
                let n = batch.rows().len();
                let tys = old(self).held_types(batch.types());
                let bytes = columns_bytes(old(self).bytes as int, batch_cols(batch), batch.types().len() as int);
                if n == 0 {
                    r is Ok && *final(self) == *old(self)
                } else if bytes > MAX_BUFFER_BYTES {
                    &&& r matches Err(e) && e.code == Code::Oom
                    &&& final(self).bytes == bytes
                    &&& *final(self) == (RowSample { bytes: final(self).bytes, ..*old(self) })
                } else if old(self).rows + n > MAX_ROWS {
                    (r matches Err(e) && e.code == Code::LimitExceeded) && *final(self) == *old(self)
                } else if !storage_agrees(tys, batch.types()) {
                    (r matches Err(e) && e.code == Code::Internal) && *final(self) == *old(self)
                } else {
                    &&& r is Ok
                    &&& final(self).held() == old(self).held() + batch.rows()
                    &&& types_of(final(self).cols@) == tys
                    &&& final(self).init
                    &&& final(self).bytes == bytes
                }
            }),
    {
        let mut flat = batch;
        flat.materialize();
        let n: usize = flat.card();
        if n == 0 {
            return Ok(());
        }
        proof {
            assert(types_of(flat.cols@) =~= batch.types());
            lemma_batch_cols(batch, flat);
        }
        let bytes: u64 = columns_size(self.bytes, &flat.cols);
        if bytes > MAX_BUFFER_BYTES {
            self.bytes = bytes;
            return Err(Error::new(Code::Oom));
        }
        if n > MAX_ROWS - self.rows {
            return Err(Error::new(Code::LimitExceeded));
        }
        if self.init && !can_append(&self.cols, &flat.cols) {
            return Err(Error::new(Code::Internal));
        }
        let ghost tys = self.held_types(batch.types());
        let ghost held0 = self.held();
        if !self.init {
            self.cols = empty_like(&flat.cols);
            self.init = true;
        }
        let ghost cols0 = self.cols@;
        let rows: usize = self.rows;
        proof {
            assert(types_of(self.cols@) =~= tys);
            assert(types_of(self.cols@).len() == types_of(flat.cols@).len());
            assert forall|c: int| 0 <= c < flat.cols@.len() implies (#[trigger] self.cols@[c]).ty().phys()
                == flat.cols@[c].ty().phys() by {
                assert(types_of(self.cols@)[c].phys() == types_of(flat.cols@)[c].phys());
            }
        }
        append_all(&mut self.cols, &flat.cols, rows, n);
        self.rows = rows + n;
        self.bytes = bytes;
        proof {
            assert(types_of(self.cols@) =~= tys);
            assert forall|r: int| 0 <= r < rows + n implies #[trigger] self.held()[r] == (held0 + batch.rows())[r] by {
                if r < rows {
                    assert(row_at(self.cols@, r) == row_at(cols0, r));
                } else {
                    assert(row_at(self.cols@, rows + (r - rows)) == row_at(flat.cols@, r - rows));
                    assert(flat.rows()[r - rows] == batch.rows()[r - rows]);
                }
            }
            assert(self.held() =~= held0 + batch.rows());
        }
        Ok(())
    }

    /// The input is read through: draws the rows. They keep the order of the input.
    pub fn finish(&mut self)
        requires
            old(self).inv(),
            old(self).phase == SamplePhase::Buffering,
            old(self).pos == 0,
        ensures
            final(self).inv(),
            final(self).same_query(*old(self)),
            final(self).phase == SamplePhase::Emitting,
            final(self).pos == 0,
            final(self).to_come() == kept(
                old(self).held(),
                chosen(old(self).rng.state, old(self).rows as nat, old(self).draws()),
            ),
            final(self).to_come().len() == old(self).draws(),
            types_of(final(self).cols@) == types_of(old(self).cols@),
    {
        let n: usize = self.rows;
        let k: usize = if self.target < n as u64 {
            self.target as usize
        } else {
            n
        };
        let ghost s0 = self.rng.state;
        let ghost held = self.held();
        let mut idx = row_numbers(0, n);
        let mut i: usize = 0;
        proof {
            let first = shuffled(s0, n as nat, 0);
            assert forall|r: int| 0 <= r < n implies idx@[r] == #[trigger] first[r] by {}
        }
        while i < k
            invariant
                i <= k <= n,
                n <= MAX_ROWS,
                self.same_query(*old(self)),
                self.cols == old(self).cols,
                self.rows == n,
                self.pos == 0,
                self.init == old(self).init,
                self.rng.state == rng_after(s0, i as nat),
                idx@.len() == n,
                shuffled(s0, n as nat, i as nat).len() == n,
                forall|r: int| 0 <= r < n ==> idx@[r] == #[trigger] shuffled(s0, n as nat, i as nat)[r],
            decreases k - i,
        {
            let ghost before = idx@;
            let ghost s = shuffled(s0, n as nat, i as nat);
            let d: u64 = self.rng.below((n - i) as u64);
            let j: usize = i + d as usize;
            let a: u32 = idx[i];
            let b: u32 = idx[j];
            idx.set(i, b);
            idx.set(j, a);
            proof {
                let t = shuffled(s0, n as nat, (i + 1) as nat);
                assert(t == s.update(i as int, s[j as int]).update(j as int, s[i as int]));
                assert(before[i as int] == s[i as int] && before[j as int] == s[j as int]);
                assert forall|r: int| 0 <= r < n implies idx@[r] == #[trigger] t[r] by {
                    assert(before[r] == s[r]);
                }
            }
            i = i + 1;
        }
        let ghost s = shuffled(s0, n as nat, k as nat);
        let mut flags: Vec<bool> = Vec::new();
        let mut r: usize = 0;
        while r < n
            invariant
                r <= n,
                flags@.len() == r,
                forall|q: int| 0 <= q < r ==> !#[trigger] flags@[q],
            decreases n - r,
        {
            flags.push(false);
            r = r + 1;
        }
        proof {
            lemma_shuffled(s0, n as nat, k as nat);
        }
        let mut m: usize = 0;
        while m < k
            invariant
                m <= k <= n,
                flags@.len() == n,
                idx@.len() == n,
                s.len() == n,
                below_all(s, n as int),
                forall|q: int| 0 <= q < n ==> idx@[q] == #[trigger] s[q],
                forall|q: int| 0 <= q < n ==> #[trigger] flags@[q] == among(s, m as int, q),
            decreases k - m,
        {
            let ghost before = flags@;
            assert(idx@[m as int] == s[m as int]);
            let at: usize = idx[m] as usize;
            flags.set(at, true);
            proof {
                assert forall|q: int| 0 <= q < n implies #[trigger] flags@[q] == among(s, m + 1, q) by {
                    assert(before[q] == among(s, m as int, q));
                    if among(s, m as int, q) {
                        let i = choose|i: int| 0 <= i < m && #[trigger] s[i] == q;
                        assert(s[i] == q && i < m + 1);
                    }
                    if q == at {
                        assert(s[m as int] == q);
                    }
                    if among(s, m + 1, q) {
                        let i = choose|i: int| 0 <= i < m + 1 && #[trigger] s[i] == q;
                        if i < m {
                            assert(among(s, m as int, q));
                        }
                    }
                }
            }
            m = m + 1;
        }
        let ghost want = chosen(s0, n as nat, k as nat);
        assert(flags@ =~= want);
        let mut take: Vec<u32> = Vec::new();
        let mut q: usize = 0;
        let ghost all = Seq::new(n as nat, |i: int| i as u32);
        assert(all.take(0) =~= Seq::empty());
        while q < n
            invariant
                q <= n,
                n <= MAX_ROWS,
                flags@.len() == n,
                all == Seq::new(n as nat, |i: int| i as u32),
                take@ == kept(all.take(q as int), flags@.take(q as int)),
            decreases n - q,
        {
            proof {
                lemma_kept_step(all, flags@, q as int);
            }
            if flags[q] {
                take.push(q as u32);
            }
            q = q + 1;
        }
        proof {
            assert(all.take(n as int) =~= all);
            assert(flags@.take(n as int) =~= flags@);
            let f = |p: u32| row_at(self.cols@, p as int);
            assert(held =~= all.map_values(f));
            crate::vector::lemma_kept_mapped(all, held, f, want);
            lemma_kept_subset(all, want);
            a_draw_has_the_wanted_size(held, s0, k as nat);
            assert forall|i: int| 0 <= i < take@.len() implies #[trigger] take@[i] < n by {
                assert(all.contains(kept(all, want)[i]));
            }
        }
        let cols = gather_columns(&self.cols, take.as_slice(), n);
        let count: usize = take.len();
        proof {
            let got = Seq::new(count as nat, |i: int| row_at(cols@, i));
            let f = |p: u32| row_at(self.cols@, p as int);
            assert forall|i: int| 0 <= i < count implies #[trigger] got[i] == take@.map_values(f)[i] by {
                assert(row_at(cols@, i) == row_at(self.cols@, take@[i] as int));
            }
            assert(got =~= kept(held, want));
            assert(types_of(cols@) =~= types_of(self.cols@));
        }
        self.cols = cols;
        self.rows = count;
        self.phase = SamplePhase::Emitting;
        assert(self.to_come() =~= kept(held, want));
    }

    /// What is returned once the rows are settled: the next of those to come.
    pub open spec fn emitted(self, after: RowSample, r: Step) -> bool {
            let left = self.to_come();
            let n = if left.len() < BATCH_SIZE {
                left.len() as int
            } else {
                BATCH_SIZE as int
            };
            match r {
                Step::Ready(b) => {
                    &&& n > 0
                    &&& b.wf()
                    &&& b.types() == types_of(self.cols@)
                    &&& b.rows() == left.take(n)
                    &&& after.phase == SamplePhase::Emitting
                    &&& after.to_come() == left.skip(n)
                },
                Step::Done => n == 0 && after.phase == SamplePhase::Done,
                _ => false,
            }
    }

    /// The next rows drawn, at most a batch of them.
    pub fn emit(&mut self) -> (r: Step)
        requires
            old(self).inv(),
            old(self).phase == SamplePhase::Emitting,
        ensures
            final(self).inv(),
            final(self).same_query(*old(self)),
            old(self).emitted(*final(self), r),
            final(self).cols == old(self).cols,
    {
        let ghost left = self.to_come();
        if self.pos >= self.rows {
            self.phase = SamplePhase::Done;
            return Step::Done;
        }
        let rest: usize = self.rows - self.pos;
        let n: usize = if rest < BATCH_SIZE {
            rest
        } else {
            BATCH_SIZE
        };
        let idx = row_numbers(self.pos, self.pos + n);
        let cols = gather_columns(&self.cols, idx.as_slice(), self.rows);
        let b = Batch::of_columns(cols, n);
        self.pos = self.pos + n;
        proof {
            assert forall|k: int| 0 <= k < n implies #[trigger] b.rows()[k] == left[k] by {
                assert(row_at(cols@, k) == row_at(self.cols@, idx@[k] as int));
            }
            assert(b.rows() =~= left.take(n as int));
            assert(self.to_come() =~= left.skip(n as int));
            assert(b.types() =~= types_of(self.cols@));
        }
        Step::Ready(b)
    }
}

/// The columns of a batch's selected rows.
pub open spec fn batch_cols(b: Batch) -> Seq<ColV> {
    Seq::new(
        b.types().len(),
        |c: int| ColV { ty: b.types()[c], cells: Seq::new(b.rows().len(), |i: int| b.rows()[i][c]) },
    )
}

pub(crate) proof fn lemma_batch_cols(b: Batch, flat: Batch)
    requires
        b.wf(),
        flat.wf(),
        flat.sel is None,
        flat.rows() == b.rows(),
        flat.types() == b.types(),
    ensures
        cols_of(flat.cols@) == batch_cols(b),
{
    let n = b.rows().len();
    assert forall|c: int| 0 <= c < flat.cols@.len() implies #[trigger] cols_of(flat.cols@)[c] == batch_cols(b)[c] by {
        let col = flat.cols@[c];
        assert(flat.types()[c] == col.ty());
        assert(col@.len() == n);
        assert forall|i: int| 0 <= i < n implies col@[i] == b.rows()[i][c] by {
            assert(flat.rows()[i] == row_at(flat.cols@, i));
        }
        assert(col@ =~= Seq::new(n, |i: int| b.rows()[i][c]));
    }
    assert(cols_of(flat.cols@) =~= batch_cols(b));
}

/// The estimated bytes of batches that have been buffered.
pub open spec fn buffered(xs: Seq<Chunk>) -> int
    decreases xs.len(),
{
    if xs.len() == 0 {
        0
    } else if xs.last().rows.len() == 0 {
        buffered(xs.drop_last())
    } else {
        columns_bytes(buffered(xs.drop_last()), chunk_cols(xs.last()), xs.last().types.len() as int)
    }
}

/// Why the last of some batches cannot be buffered: there are too many bytes or rows, or its columns
/// are stored otherwise than before.
pub open spec fn sample_stuck(xs: Seq<Chunk>, code: Code) -> bool {
    xs.len() > 0 && xs.last().rows.len() > 0 && {
        ||| code == Code::Oom && buffered(xs) > MAX_BUFFER_BYTES
        ||| code == Code::LimitExceeded && flat(xs).len() > MAX_ROWS
        ||| code == Code::Internal && (first_types(xs.drop_last()) matches Some(t) && !storage_agrees(t, xs.last().types))
    }
}

impl RowSample {
    /// How what has been returned follows from what came in.
    pub open spec fn accounted(&self) -> bool {
        let xs = self.input.op.returned();
        &&& portions(self.trace@.out, first_types(xs)->0)
        &&& match self.phase {
            SamplePhase::Buffering => {
                &&& self.trace@.out.len() == 0
                &&& self.held() == flat(xs)
                &&& self.bytes == buffered(xs)
                &&& self.bytes <= MAX_BUFFER_BYTES
                &&& first_types(xs) == if self.init {
                    Some(types_of(self.cols@))
                } else {
                    None
                }
            },
            SamplePhase::Emitting => {
                &&& self.input.op.spent()
                &&& flat(self.trace@.out) + self.to_come() == drawn_rows(self.spec, xs)
                &&& self.to_come().len() > 0 ==> types_of(self.cols@) == first_types(xs)->0
            },
            SamplePhase::Done => self.input.op.spent() && flat(self.trace@.out) == drawn_rows(self.spec, xs),
        }
    }
}

impl RowSample {
    /// What has been returned is what the plan gives.
    pub(crate) proof fn lemma_gave(&self, mem: Seq<MemTable>)
        requires
            self.wf(),
        ensures
            self.traced() && self.sound(mem) ==> gave(self.plan(), mem, self.looked(), self.returned(), self.spent()),
            forall|why: Why| #[trigger]
                stops(self.input.op.plan(), mem, self.input.op.looked(), why) ==> stops(self.plan(), mem, self.looked(), why),
            forall|code: Code|
                supplied(self.input, mem) && #[trigger] stuck(self.plan(), self.input.op.returned(), Seq::empty(), code) ==> stops(
                    self.plan(),
                    mem,
                    self.looked(),
                    Why::Failed(code),
                ),
    {
        reveal_with_fuel(gave, 1);
        reveal_with_fuel(stops, 1);
        if self.traced() && self.sound(mem) {
            if self.phase == SamplePhase::Emitting {
                lemma_begins(flat(self.trace@.out), self.to_come(), false);
            } else {
                lemma_begins(flat(self.trace@.out), Seq::empty(), true);
            }
        }
    }
}

impl Operator for RowSample {
    open spec fn wf(&self) -> bool {
        &&& self.input.op.wf()
        &&& self.inv()
        &&& self.phase == SamplePhase::Buffering ==> self.pos == 0 && self.rng.state == rng_start(self.spec.seed)
        &&& self.target == wanted_rows(self.spec.amount)
        &&& self.traced() ==> self.accounted()
    }

    open spec fn plan(&self) -> NodeV {
        NodeV::Sample { input: Box::new(self.input.op.plan()), spec: self.spec }
    }

    open spec fn looked(&self) -> Seq<Look> {
        self.input.op.looked()
    }

    open spec fn traced(&self) -> bool {
        self.trace@.ok && self.input.op.traced() && self.spec.is_rows
    }

    open spec fn returned(&self) -> Seq<Chunk> {
        self.trace@.out
    }

    open spec fn spent(&self) -> bool {
        self.phase == SamplePhase::Done
    }

    open spec fn sound(&self, mem: Seq<MemTable>) -> bool {
        self.spec.is_rows && supplied(self.input, mem)
    }

    #[verifier::rlimit(40)]
    fn next(&mut self, ctx: &mut ExecContext) -> (r: Result<Step, Error>)
        ensures
            answers(
                r,
                *final(ctx),
                final(self).input.said@,
                old(self).traced(),
                final(self).plan(),
                final(self).input.op.returned(),
                Seq::empty(),
            ),
            old(self).phase == SamplePhase::Emitting ==> (r matches Ok(s) && old(self).emitted(*final(self), s)),
            old(self).phase == SamplePhase::Done ==> r matches Ok(Step::Done),
            r matches Ok(Step::Ready(b)) ==> portion(chunk(b), types_of(final(self).cols@)),
    {
        self.input.said = Ghost(Said::Nothing);
        let ghost start = *self;
        let mut fuel: u64 = u64::MAX;
        proof {
            lemma_no_look(self.looked(), ctx.catalog);
        }
        while fuel > 0
            invariant
                self.wf(),
                ctx.wf(),
                ctx.same_data(*old(ctx)),
                looked_on(old(self).looked(), old(ctx).catalog, self.looked(), ctx.catalog),
                ctx.io == old(ctx).io,
                ctx.codec == old(ctx).codec,
                self.input.said@.goes_on(),
                self.input.op.traced() ==> self.input.op.returned().len() + fuel + if self.phase == SamplePhase::Buffering {
                    0int
                } else {
                    1int
                } >= u64::MAX,
                start == (RowSample { input: start.input, ..*old(self) }),
                old(self).sound(old(ctx).catalog.mem@) && self.traced() ==> self.sound(old(ctx).catalog.mem@),
                old(self).phase != SamplePhase::Buffering ==> *self == start && fuel == u64::MAX,
                self.spec == old(self).spec,
                self.trace == old(self).trace,
                self.input.op.plan() == old(self).input.op.plan(),
                self.input.op.traced() <==> old(self).input.op.traced(),
            decreases fuel,
        {
            match self.phase {
                SamplePhase::Buffering => {
                    let ghost before = self.input.op.returned();
                    match self.input.pull(ctx) {
                        Ok(Step::Ready(b)) => {
                            let ghost c = chunk(b);
                            proof {
                                lemma_flat_push(before, c);
                                assert(c.rows.len() == 0 ==> flat(before) + c.rows =~= flat(before));
                                assert(before.push(c).drop_last() =~= before);
                                assert(batch_cols(b) =~= chunk_cols(c));
                            }
                            let ghost was = *self;
                            match self.absorb(b) {
                                Ok(()) => {},
                                Err(e) => {
                                    self.trace = Ghost(lost_trace(self.trace@));
                                    proof {
                                        if old(self).traced() {
                                            assert(self.input.op.returned() == before.push(c));
                                            assert(before.push(c).drop_last() =~= before);
                                            let n = c.types.len() as int;
                                            assert(buffered(before.push(c)) == columns_bytes(
                                                was.bytes as int,
                                                chunk_cols(c),
                                                n,
                                            ));
                                            assert(flat(before.push(c)).len() == was.rows + c.rows.len());
                                            assert(sample_stuck(before.push(c), e.code));
                                            assert(stuck(self.plan(), self.input.op.returned(), Seq::empty(), e.code));
                                        }
                                        self.lemma_gave(old(ctx).catalog.mem@);
                                    }
                                    return Err(e);
                                },
                            }
                        },
                        Ok(Step::Done) => {
                            self.finish();
                            assert(flat(Seq::empty()) + self.to_come() =~= self.to_come());
                        },
                        Ok(other) => {
                            proof {
                                self.lemma_gave(old(ctx).catalog.mem@);
                            }
                            return Ok(other);
                        },
                        Err(e) => {
                            proof {
                                self.lemma_gave(old(ctx).catalog.mem@);
                            }
                            return Err(e);
                        },
                    }
                },
                SamplePhase::Emitting => {
                    let ghost left = self.to_come();
                    let step = self.emit();
                    if let Step::Ready(b) = &step {
                        proof {
                            lemma_flat_push(self.trace@.out, chunk(*b));
                            assert(flat(self.trace@.out) + b.rows() + self.to_come() =~= flat(self.trace@.out) + left);
                            if self.traced() {
                                lemma_portions_push(
                                    self.trace@.out,
                                    first_types(self.input.op.returned())->0,
                                    chunk(*b),
                                );
                            }
                        }
                        self.trace = Ghost(grown_trace(self.trace@, chunk(*b)));
                    } else {
                        assert(flat(self.trace@.out) + left =~= flat(self.trace@.out));
                    }
                    proof {
                        self.lemma_gave(old(ctx).catalog.mem@);
                    }
                    return Ok(step);
                },
                SamplePhase::Done => {
                    proof {
                        self.lemma_gave(old(ctx).catalog.mem@);
                    }
                    return Ok(Step::Done);
                },
            }
            fuel = fuel - 1;
        }
        proof {
            if old(self).traced() {
                assert(stuck(self.plan(), self.input.op.returned(), Seq::empty(), Code::LimitExceeded));
            }
            self.lemma_gave(old(ctx).catalog.mem@);
        }
        Err(Error::new(Code::LimitExceeded))
    }
}

} // verus!
