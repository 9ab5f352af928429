//! Which values a series holds.

use crate::catalog::MemTable;
use crate::exec::meaning::gave;
use crate::exec::range::{goes_on, in_series, series_at, series_rows, GenerateSeries};
use crate::exec::{flat, Chunk, Look};
use crate::plan::NodeV;
use crate::vector::Val;
use vstd::prelude::*;

verus! {

/// Whether `v` is reached from `start` by a whole number of steps.
pub open spec fn reached(start: int, step: int, v: int) -> bool {
    exists|k: int| 0 <= k && v == start + #[trigger] (k * step)
}

/// Whether `v` lies on the way to `stop`: not beyond it in the direction of the steps. `stop`
/// itself does where the series is inclusive.
pub open spec fn on_the_way(v: int, stop: int, step: int, inclusive: bool) -> bool {
    if v == stop {
        inclusive
    } else {
        (step > 0) == (v < stop)
    }
}

proof fn lemma_beyond(start: int, stop: int, step: int, inclusive: bool, n: int, k: int)
    requires
        step != 0,
        0 <= n <= k,
        i64::MIN <= stop <= i64::MAX,
        i64::MIN <= start <= i64::MAX,
        !goes_on(series_at(start, step, n), stop, step, inclusive),
    ensures
        !on_the_way(start + k * step, stop, step, inclusive),
{
    if step > 0 {
        assert(n * step <= k * step && 0 <= n * step) by (nonlinear_arith)
            requires
                0 <= n <= k,
                step > 0,
        ;
    } else {
        assert(k * step <= n * step && n * step <= 0) by (nonlinear_arith)
            requires
                0 <= n <= k,
                step < 0,
        ;
    }
}

/// A finished series holds exactly the values that are reached from its start by a whole number
/// of steps and are not beyond its end, upwards as downwards, each once and in that order.
pub proof fn a_series_holds_every_value_on_its_way(
    start: i64,
    stop: i64,
    step: i64,
    inclusive: bool,
    mem: Seq<MemTable>,
    looked: Seq<Look>,
    out: Seq<Chunk>,
    v: int,
)
    requires
        step != 0,
        gave(NodeV::GenerateSeries { start, stop, step, inclusive }, mem, looked, out, true),
    ensures
        flat(out).contains(seq![Val::I64(v as i64)]) && i64::MIN <= v <= i64::MAX <==> reached(start as int, step as int, v)
            && on_the_way(v, stop as int, step as int, inclusive),
        forall|i: int|
            0 <= i < flat(out).len() ==> #[trigger] flat(out)[i] == seq![Val::I64((start + i * step) as i64)],
{
    reveal_with_fuel(gave, 2);
    let n = flat(out).len();
    let a = start as int;
    let d = step as int;
    let rows = flat(out);
    assert forall|i: int| 0 <= i < n implies #[trigger] rows[i] == seq![Val::I64((start + i * step) as i64)] by {
        assert(rows[i] == series_rows(a, d, n)[i]);
    }
    if rows.contains(seq![Val::I64(v as i64)]) && i64::MIN <= v <= i64::MAX {
        let i = rows.index_of(seq![Val::I64(v as i64)]);
        assert(rows[i] == seq![Val::I64(v as i64)]);
        assert(goes_on(series_at(a, d, i), stop as int, d, inclusive));
        assert(seq![Val::I64(v as i64)][0] == Val::I64(v as i64));
        assert(seq![Val::I64((start + i * step) as i64)][0] == Val::I64((start + i * step) as i64));
        assert(v == a + i * d);
    }
    if reached(a, d, v) && on_the_way(v, stop as int, d, inclusive) {
        let k = choose|k: int| 0 <= k && v == a + #[trigger] (k * d);
        if k >= n {
            lemma_beyond(a, stop as int, d, inclusive, n as int, k);
        }
        assert(goes_on(series_at(a, d, k), stop as int, d, inclusive));
        assert(rows[k] == seq![Val::I64(v as i64)]);
    }
}

/// `generate_series` returns `stop` exactly if it is reached by a whole number of steps, for
/// negative steps as for positive ones; `range` never does.
pub proof fn a_series_ends_with_its_stop(
    start: i64,
    stop: i64,
    step: i64,
    inclusive: bool,
    mem: Seq<MemTable>,
    looked: Seq<Look>,
    out: Seq<Chunk>,
)
    requires
        step != 0,
        gave(NodeV::GenerateSeries { start, stop, step, inclusive }, mem, looked, out, true),
    ensures
        flat(out).contains(seq![Val::I64(stop)]) <==> inclusive && reached(start as int, step as int, stop as int),
        flat(out).contains(seq![Val::I64(stop)]) ==> flat(out).last() == seq![Val::I64(stop)],
{
    a_series_holds_every_value_on_its_way(start, stop, step, inclusive, mem, looked, out, stop as int);
    if flat(out).contains(seq![Val::I64(stop)]) {
        let rows = flat(out);
        let i = rows.index_of(seq![Val::I64(stop)]);
        let last = rows.len() - 1;
        if i < last {
            let w: int = start + last * step;
            reveal_with_fuel(gave, 2);
            assert(goes_on(series_at(start as int, step as int, last), stop as int, step as int, inclusive));
            assert(goes_on(series_at(start as int, step as int, i), stop as int, step as int, inclusive));
            assert(rows[i][0] == Val::I64((start + i * step) as i64));
            assert(seq![Val::I64(stop)][0] == Val::I64(stop));
            if step > 0 {
                assert(last * step > i * step) by (nonlinear_arith)
                    requires
                        last > i,
                        step > 0,
                ;
            } else {
                assert(last * step < i * step) by (nonlinear_arith)
                    requires
                        last > i,
                        step < 0,
                ;
            }
            assert(false);
        }
    }
}

/// Whether a value is returned is decided alike wherever a series stands: it is in range exactly
/// if it is on the way to the end, and turning the line of numbers round changes nothing.
pub proof fn series_are_alike_in_both_directions(v: int, stop: int, step: int, inclusive: bool)
    requires
        step != 0,
    ensures
        in_series(v, stop, step, inclusive) == on_the_way(v, stop, step, inclusive),
        in_series(v, stop, step, inclusive) == in_series(-v, -stop, -step, inclusive),
        in_series(stop, stop, step, inclusive) == inclusive,
{
}

} // verus!
