//! The table functions `generate_series(start, stop, step)` and `range(start, stop, step)`.
//!
//! They compute their rows a batch at a time, so a long series is never held in memory.

use crate::catalog::MemTable;
use crate::error::Error;
use crate::exec::looks::lemma_no_look;
use crate::exec::meaning::gave;
use crate::exec::{
    chunk, flat, fresh_trace, grown_trace, lemma_flat_push, lemma_portions_push, portions, Chunk, Trace, ExecContext, Operator, Step,
};
use crate::plan::NodeV;
use crate::vector::{Batch, Ty, Val, Value, Vector, BATCH_SIZE};
use vstd::prelude::*;

verus! {

/// Whether a value is before the end of a series.
pub open spec fn in_series(v: int, stop: int, step: int, inclusive: bool) -> bool {
    if step > 0 {
        v < stop || (inclusive && v == stop)
    } else {
        v > stop || (inclusive && v == stop)
    }
}

/// The value some steps on.
pub open spec fn series_at(cur: int, step: int, i: int) -> int {
    cur + i * step
}

/// Whether a series goes on at a value: it is in range, and an `i64`.
pub open spec fn goes_on(v: int, stop: int, step: int, inclusive: bool) -> bool {
    in_series(v, stop, step, inclusive) && i64::MIN <= v <= i64::MAX
}

pub struct GenerateSeries {
    pub start: i64,
    /// The next value to return.
    pub cur: i64,
    pub stop: i64,
    pub step: i64,
    /// Whether `stop` itself belongs to the series.
    pub inclusive: bool,
    pub done: bool,
    pub trace: Ghost<Trace>,
}

/// The first `n` values of a series, a row each.
pub open spec fn series_rows(start: int, step: int, n: nat) -> Seq<Seq<Val>> {
    Seq::new(n, |i: int| seq![Val::I64(series_at(start, step, i) as i64)])
}

proof fn lemma_series(start: int, step: int, n: int, i: int)
    ensures
        series_at(series_at(start, step, n), step, i) == series_at(start, step, n + i),
{
    assert(n * step + i * step == (n + i) * step) by (nonlinear_arith);
}

impl GenerateSeries {
    pub fn new(start: i64, stop: i64, step: i64, inclusive: bool) -> (s: GenerateSeries)
        ensures
            s.start == start,
            s.cur == start,
            s.stop == stop,
            s.step == step,
            s.inclusive == inclusive,
            !s.done,
            s.wf(),
            s.trace@ == fresh_trace(Seq::empty()),
    {
        proof {
            assert(series_at(start as int, step as int, 0) == start) by (nonlinear_arith);
        }
        let s = GenerateSeries {
            start,
            cur: start,
            stop,
            step,
            inclusive,
            done: false,
            trace: Ghost(fresh_trace(Seq::empty())),
        };
        assert(flat(s.trace@.out) =~= series_rows(start as int, step as int, 0));
        s
    }

    pub open spec fn same_query(&self, other: GenerateSeries) -> bool {
        &&& self.start == other.start
        &&& self.stop == other.stop
        &&& self.step == other.step
        &&& self.inclusive == other.inclusive
    }

    fn in_range(&self) -> (r: bool)
        ensures
            r == in_series(self.cur as int, self.stop as int, self.step as int, self.inclusive),
    {
        if self.step > 0 {
            if self.inclusive {
                self.cur <= self.stop
            } else {
                self.cur < self.stop
            }
        } else if self.inclusive {
            self.cur >= self.stop
        } else {
            self.cur > self.stop
        }
    }

    /// How far it is to the end.
    pub open spec fn span(&self) -> nat {
        if self.step > 0 && self.cur <= self.stop {
            (self.stop - self.cur + 1) as nat
        } else if self.step < 0 && self.cur >= self.stop {
            (self.cur - self.stop + 1) as nat
        } else {
            0
        }
    }

    /// The rows of a stretch of the series.
    pub open spec fn stretch(&self, n: nat) -> Seq<Seq<Val>> {
        Seq::new(n, |i: int| seq![Val::I64(series_at(self.cur as int, self.step as int, i) as i64)])
    }

    /// Whether the series has at least `n` values left.
    pub open spec fn lasts(&self, n: int) -> bool {
        forall|i: int|
            0 <= i < n ==> goes_on(
                #[trigger] series_at(self.cur as int, self.step as int, i),
                self.stop as int,
                self.step as int,
                self.inclusive,
            )
    }
}

/// A full batch brings the end nearer.
proof fn lemma_nearer(was: GenerateSeries, now: GenerateSeries)
    requires
        was.step != 0,
        now.same_query(was),
        was.lasts(BATCH_SIZE as int),
        now.cur == series_at(was.cur as int, was.step as int, BATCH_SIZE as int),
    ensures
        now.span() / (BATCH_SIZE as nat) < was.span() / (BATCH_SIZE as nat),
{
    let last = series_at(was.cur as int, was.step as int, BATCH_SIZE - 1);
    assert(goes_on(last, was.stop as int, was.step as int, was.inclusive));
    let d = was.step as int;
    assert((BATCH_SIZE - 1) * d + d == BATCH_SIZE * d) by (nonlinear_arith);
    if d > 0 {
        assert(BATCH_SIZE * d >= BATCH_SIZE) by (nonlinear_arith)
            requires
                d > 0,
        ;
        assert((BATCH_SIZE - 1) * d >= BATCH_SIZE - 1) by (nonlinear_arith)
            requires
                d > 0,
        ;
    } else {
        assert(BATCH_SIZE * d <= -BATCH_SIZE) by (nonlinear_arith)
            requires
                d < 0,
        ;
        assert((BATCH_SIZE - 1) * d <= -(BATCH_SIZE - 1)) by (nonlinear_arith)
            requires
                d < 0,
        ;
    }
}

impl GenerateSeries {
    /// What has been returned is what the plan gives.
    pub(crate) proof fn lemma_gave(&self, mem: Seq<MemTable>)
        requires
            self.wf(),
        ensures
            gave(self.plan(), mem, self.looked(), self.returned(), self.spent()),
    {
        reveal_with_fuel(gave, 1);
    }
}

impl Operator for GenerateSeries {
    /// What has been returned are the first values of the series.
    open spec fn wf(&self) -> bool {
        let n = flat(self.trace@.out).len();
        let a = self.start as int;
        let d = self.step as int;
        &&& portions(self.trace@.out, seq![Ty::BigInt])
        &&& flat(self.trace@.out) == series_rows(a, d, n)
        &&& forall|i: int| 0 <= i < n ==> goes_on(#[trigger] series_at(a, d, i), self.stop as int, d, self.inclusive)
        &&& if self.done {
            !goes_on(series_at(a, d, n as int), self.stop as int, d, self.inclusive)
        } else {
            self.cur == series_at(a, d, n as int)
        }
    }

    open spec fn plan(&self) -> NodeV {
        NodeV::GenerateSeries { start: self.start, stop: self.stop, step: self.step, inclusive: self.inclusive }
    }

    open spec fn traced(&self) -> bool {
        true
    }

    open spec fn returned(&self) -> Seq<Chunk> {
        self.trace@.out
    }

    open spec fn spent(&self) -> bool {
        self.done
    }

    open spec fn sound(&self, mem: Seq<MemTable>) -> bool {
        true
    }

    open spec fn sure(&self, mem: Seq<MemTable>) -> bool {
        self.step != 0
    }

    open spec fn tys(&self, mem: Seq<MemTable>) -> Seq<Ty> {
        seq![Ty::BigInt]
    }

    open spec fn bound(&self, mem: Seq<MemTable>) -> nat {
        if self.done {
            0
        } else {
            self.span() / BATCH_SIZE as nat + 1
        }
    }

    /// The next values, as many as there are, up to a batch. The end of the series is
    /// final.
    #[verifier::rlimit(40)]
    fn next(&mut self, ctx: &mut ExecContext) -> (r: Result<Step, Error>)
        ensures
            final(self).same_query(*old(self)),
            *final(ctx) == *old(ctx),
            old(self).done ==> (r matches Ok(Step::Done)) && *final(self) == *old(self),
            !old(self).done ==> match r {
                Ok(Step::Ready(b)) => {
                    let n = b.rows().len();
                    &&& 0 < n <= BATCH_SIZE
                    &&& old(self).lasts(n as int)
                    &&& b.types() == seq![Ty::BigInt]
                    &&& b.rows() == old(self).stretch(n)
                    &&& n < BATCH_SIZE ==> final(self).done
                    &&& if final(self).done {
                        !old(self).lasts(n as int + 1)
                    } else {
                        final(self).cur == series_at(old(self).cur as int, old(self).step as int, n as int)
                    }
                },
                Ok(Step::Done) => !old(self).lasts(1) && final(self).done,
                _ => false,
            },
    {
        proof {
            lemma_no_look(self.looked(), ctx.catalog);
        }
        if self.done {
            proof {
                self.lemma_gave(old(ctx).catalog.mem@);
            }
            return Ok(Step::Done);
        }
        let ghost cur = self.cur as int;
        let ghost step = self.step as int;
        let mut v = Vector::with_capacity(Ty::BigInt, BATCH_SIZE);
        proof {
            assert(series_at(cur, step, 0) == cur) by (nonlinear_arith);
        }
        while v.len() < BATCH_SIZE && !self.done
            invariant
                self.trace == old(self).trace,
                self.same_query(*old(self)),
                cur == old(self).cur,
                step == self.step,
                v.wf(),
                v.ty() == Ty::BigInt,
                v@.len() <= BATCH_SIZE,
                forall|i: int| 0 <= i < v@.len() ==> (#[trigger] v@[i]) == Val::I64(series_at(cur, step, i) as i64),
                old(self).lasts(v@.len() as int),
                !self.done ==> self.cur == series_at(cur, step, v@.len() as int),
                self.done ==> !old(self).lasts(v@.len() as int + 1),
            decreases BATCH_SIZE - v@.len(), if self.done {
                0int
            } else {
                1int
            },
        {
            let ghost n = v@.len() as int;
            if !self.in_range() {
                self.done = true;
                proof {
                    assert(!goes_on(series_at(cur, step, n), self.stop as int, step, self.inclusive));
                }
            } else {
                v.push_owned(Value::I64(self.cur));
                proof {
                    assert(series_at(cur, step, n + 1) == series_at(cur, step, n) + step) by (nonlinear_arith);
                }
                match self.cur.checked_add(self.step) {
                    Some(next) => {
                        self.cur = next;
                    },
                    None => {
                        self.done = true;
                        proof {
                            assert(!goes_on(series_at(cur, step, n + 1), self.stop as int, step, self.inclusive));
                        }
                    },
                }
            }
        }
        let ghost all = flat(self.trace@.out);
        let ghost a = self.start as int;
        proof {
            let k = all.len() as int;
            assert forall|i: int| #[trigger] series_at(cur, step, i) == series_at(a, step, k + i) by {
                lemma_series(a, step, k, i);
            }
            if self.done {
                let m = v@.len() as int;
                if goes_on(series_at(a, step, k + m), self.stop as int, step, self.inclusive) {
                    assert(series_at(cur, step, m) == series_at(a, step, k + m));
                    assert forall|i: int| 0 <= i < m + 1 implies goes_on(
                        #[trigger] series_at(old(self).cur as int, old(self).step as int, i),
                        old(self).stop as int,
                        old(self).step as int,
                        old(self).inclusive,
                    ) by {}
                    assert(old(self).lasts(m + 1));
                }
            }
        }
        if v.is_empty() {
            proof {
                self.lemma_gave(old(ctx).catalog.mem@);
            }
            return Ok(Step::Done);
        }
        let n: usize = v.len();
        let cols = vec![v];
        assert(cols@[0] == v);
        let b = Batch::of_columns(cols, n);
        proof {
            assert forall|i: int| 0 <= i < n implies #[trigger] b.rows()[i] == old(self).stretch(n as nat)[i] by {
                assert(crate::vector::row_at(cols@, i) =~= seq![v@[i]]);
            }
            assert(b.rows() =~= old(self).stretch(n as nat));
            assert(b.types() =~= seq![Ty::BigInt]);
            lemma_flat_push(self.trace@.out, chunk(b));
            lemma_portions_push(self.trace@.out, seq![Ty::BigInt], chunk(b));
            let k = all.len() as int;
            let now = all + b.rows();
            assert forall|i: int| 0 <= i < now.len() implies #[trigger] now[i] == series_rows(a, step, now.len())[i] by {
                if i >= k {
                    assert(series_at(cur, step, i - k) == series_at(a, step, k + (i - k)));
                }
            }
            assert(now =~= series_rows(a, step, now.len()));
            assert forall|i: int| 0 <= i < now.len() implies goes_on(
                #[trigger] series_at(a, step, i),
                self.stop as int,
                step,
                self.inclusive,
            ) by {
                if i >= k {
                    assert(series_at(cur, step, i - k) == series_at(a, step, k + (i - k)));
                }
            }
            assert(series_at(cur, step, n as int) == series_at(a, step, k + n));
        }
        self.trace = Ghost(grown_trace(self.trace@, chunk(b)));
        proof {
            self.lemma_gave(old(ctx).catalog.mem@);
            if !self.done && self.step != 0 {
                lemma_nearer(*old(self), *self);
            }
        }
        Ok(Step::Ready(b))
    }
}

} // verus!
