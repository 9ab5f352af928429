//! How rows are cut into batches makes no difference: what an operator returns for some
//! batches, taken together, follows from the rows of these batches, taken together.

use crate::exec::rowkey::{col_keys, fresh_flags, freshness_does_not_depend_on_batching, grown, grown_holds_exactly_the_keys_seen, has_key, key_of};
use crate::exec::sample::{draws_do_not_depend_on_batching, lemma_rng_adds, lucky, lucky_step, rng_after};
use crate::exec::ranking::{
    arranged, arranging_is_stable, arranging_sorts, key_cells, key_fits, key_order, key_types, keys_are_ordered,
    lemma_arranged_mapped, orders,
};
use crate::exec::meaning::set_gave;
use crate::exec::setop::{
    all_versions_count_duplicates, chunk_keys, counts_at, distinct_versions_return_a_row_once, returned_flags, returned_tally,
    right_index, seen_at, set_step, tally, total_tally, SetState,
};
use crate::exec::sort::{item_dom, item_rule, keys_fit, limited, rows_only, sort_keys_value, sort_taken, sorted_rows, Item, Taken};
use crate::exec::unnest::{arrays_of, doc_of, elem_value, elems_of, paired, pairs_from, unnested_rows};
use crate::exec::{
    any_set, distinct_step, filter_step, flat, lemma_flat_push, lemma_kept_some, limit_skip, limit_step, limit_take, limit_total,
    project_step, rows_of, run, Chunk,
};
use crate::expr::{
    holds_of, input_col, program_keep, program_value, programs_run_row_by_row, programs_value, ProgramV,
};
use crate::order::Order;
use crate::plan::{SetOpKind, SortKeyV};
use crate::vector::{kept, lemma_kept_all, lemma_kept_append, lemma_kept_mapped, sat64, Ty, Val};
use vstd::prelude::*;

verus! {

/// All batches have columns of these types.
pub open spec fn typed(xs: Seq<Chunk>, tys: Seq<Ty>) -> bool {
    forall|k: int| 0 <= k < xs.len() ==> (#[trigger] xs[k]).types == tys
}

/// A batch behind others: what is kept of it goes behind what is kept of them.
proof fn lemma_kept_behind(xs: Seq<Chunk>, out: Seq<Chunk>, c: Chunk, f: Seq<bool>, g: Seq<bool>)
    requires
        flat(xs).len() == f.len(),
        c.rows.len() == g.len(),
        flat(out) == kept(flat(xs), f),
    ensures
        flat(
            if any_set(g) {
                out.push(Chunk { types: c.types, rows: kept(c.rows, g) })
            } else {
                out
            },
        ) == kept(flat(xs) + c.rows, f + g),
{
    lemma_kept_append(flat(xs), c.rows, f, g);
    lemma_flat_push(out, Chunk { types: c.types, rows: kept(c.rows, g) });
    if !any_set(g) {
        lemma_kept_some(c.rows, g);
        assert(kept(flat(xs), f) + kept(c.rows, g) =~= kept(flat(xs), f));
    }
}

// --- Filter -------------------------------------------------------------------------------

/// For each row, whether a predicate holds on it alone.
pub open spec fn row_flags(pred: ProgramV, tys: Seq<Ty>, rows: Seq<Seq<Val>>) -> Seq<bool> {
    rows.map_values(|row: Seq<Val>| holds_of(pred, tys, row))
}

/// A filter passes on the rows on which its predicate holds, in their order.
pub proof fn filtering_does_not_depend_on_batching(pred: ProgramV, tys: Seq<Ty>, xs: Seq<Chunk>)
    requires
        typed(xs, tys),
        forall|k: int| 0 <= k < xs.len() ==> program_keep(pred, tys, (#[trigger] xs[k]).rows) is Ok,
    ensures
        flat(run(filter_step(pred), (), xs).1) == kept(flat(xs), row_flags(pred, tys, flat(xs))),
    decreases xs.len(),
{
    if xs.len() > 0 {
        let front = xs.drop_last();
        let c = xs.last();
        assert(xs[xs.len() - 1] == c);
        assert forall|k: int| 0 <= k < front.len() implies program_keep(pred, tys, (#[trigger] front[k]).rows) is Ok by {
            assert(front[k] == xs[k]);
        }
        assert(typed(front, tys)) by {
            assert forall|k: int| 0 <= k < front.len() implies (#[trigger] front[k]).types == tys by {
                assert(front[k] == xs[k]);
            }
        }
        filtering_does_not_depend_on_batching(pred, tys, front);
        let keep = program_keep(pred, tys, c.rows)->Ok_0;
        assert(keep =~= row_flags(pred, tys, c.rows)) by {
            assert forall|i: int| 0 <= i < c.rows.len() implies keep[i] == #[trigger] holds_of(pred, tys, c.rows[i]) by {
                programs_run_row_by_row(pred, tys, c.rows, i);
            }
        }
        lemma_kept_behind(front, run(filter_step(pred), (), front).1, c, row_flags(pred, tys, flat(front)), keep);
        assert(row_flags(pred, tys, flat(xs)) =~= row_flags(pred, tys, flat(front)) + keep);
    } else {
        assert(flat(xs) =~= Seq::empty());
    }
}

// --- Projection ---------------------------------------------------------------------------

/// What expressions give for a row alone.
pub open spec fn projected(exprs: Seq<ProgramV>, tys: Seq<Ty>, row: Seq<Val>) -> Seq<Val> {
    rows_of(programs_value(exprs, tys, seq![row], exprs.len() as int)->Ok_0, 1)[0]
}

pub(crate) proof fn lemma_programs_by_row(ps: Seq<ProgramV>, tys: Seq<Ty>, rows: Seq<Seq<Val>>, i: int, k: int)
    requires
        0 <= i < rows.len(),
        0 <= k <= ps.len(),
        programs_value(ps, tys, rows, k) is Ok,
    ensures
        match (programs_value(ps, tys, rows, k), programs_value(ps, tys, seq![rows[i]], k)) {
            (Ok(a), Ok(b)) => {
                &&& a.len() == b.len() == k
                &&& forall|c: int|
                    0 <= c < k ==> (#[trigger] a[c]).ty == b[c].ty && a[c].cells[i] == b[c].cells[0]
            },
            _ => false,
        },
    decreases k,
{
    if k > 0 {
        lemma_programs_by_row(ps, tys, rows, i, k - 1);
        programs_run_row_by_row(ps[k - 1], tys, rows, i);
    }
}

/// A projection gives a row for each row, in their order.
pub proof fn projecting_does_not_depend_on_batching(exprs: Seq<ProgramV>, tys: Seq<Ty>, xs: Seq<Chunk>)
    requires
        typed(xs, tys),
        forall|k: int| 0 <= k < xs.len() ==> programs_value(exprs, tys, (#[trigger] xs[k]).rows, exprs.len() as int) is Ok,
    ensures
        flat(run(project_step(exprs), (), xs).1) == flat(xs).map_values(|row: Seq<Val>| projected(exprs, tys, row)),
    decreases xs.len(),
{
    let f = |row: Seq<Val>| projected(exprs, tys, row);
    if xs.len() > 0 {
        let front = xs.drop_last();
        let c = xs.last();
        assert(xs[xs.len() - 1] == c);
        assert forall|k: int| 0 <= k < front.len() implies programs_value(
            exprs,
            tys,
            (#[trigger] front[k]).rows,
            exprs.len() as int,
        ) is Ok by {
            assert(front[k] == xs[k]);
        }
        assert(typed(front, tys)) by {
            assert forall|k: int| 0 <= k < front.len() implies (#[trigger] front[k]).types == tys by {
                assert(front[k] == xs[k]);
            }
        }
        projecting_does_not_depend_on_batching(exprs, tys, front);
        let cols = programs_value(exprs, tys, c.rows, exprs.len() as int)->Ok_0;
        let rows = rows_of(cols, c.rows.len());
        assert(rows =~= c.rows.map_values(f)) by {
            assert forall|i: int| 0 <= i < c.rows.len() implies #[trigger] rows[i] == f(c.rows[i]) by {
                lemma_programs_by_row(exprs, tys, c.rows, i, exprs.len() as int);
                assert(rows[i] =~= projected(exprs, tys, c.rows[i]));
            }
        }
        let out = run(project_step(exprs), (), front).1;
        lemma_flat_push(out, Chunk { types: Seq::new(cols.len(), |k: int| cols[k].ty), rows });
        assert(flat(xs).map_values(f) =~= flat(front).map_values(f) + c.rows.map_values(f));
    } else {
        assert(flat(xs).map_values(f) =~= Seq::empty());
    }
}

// --- Limit --------------------------------------------------------------------------------

/// The first position that is passed on, if any is.
pub open spec fn limit_from(offset: int, n: int) -> int {
    if offset < n {
        offset
    } else {
        n
    }
}

/// `LIMIT` and `OFFSET` pass on a stretch of the rows.
pub proof fn limiting_does_not_depend_on_batching(limit: Option<u64>, offset: int, xs: Seq<Chunk>)
    requires
        0 <= offset <= u64::MAX,
    ensures
        ({
            let n = flat(xs).len() as int;
            let from = limit_from(offset, n);
            let to = from + limit_total(limit, offset, n);
            let after = run(limit_step(limit, offset), (0int, 0int), xs);
            &&& after.0 == (sat64(n), sat64(limit_total(limit, offset, n)))
            &&& 0 <= from <= to <= n
            &&& flat(after.1) == flat(xs).subrange(from, to)
        }),
    decreases xs.len(),
{
    if xs.len() > 0 {
        let front = xs.drop_last();
        let c = xs.last();
        let a = flat(front);
        limiting_does_not_depend_on_batching(limit, offset, front);
        let seen = a.len() as int;
        let n = c.rows.len() as int;
        let skip = limit_skip(offset, seen, n);
        let take = limit_take(limit, limit_total(limit, offset, seen), n - skip);
        let out = run(limit_step(limit, offset), (0int, 0int), front).1;
        lemma_flat_push(out, Chunk { types: c.types, rows: c.rows.subrange(skip, skip + take) });
        let from = limit_from(offset, seen + n);
        let to = from + limit_total(limit, offset, seen + n);
        let part = a.subrange(limit_from(offset, seen), limit_from(offset, seen) + limit_total(limit, offset, seen));
        assert(flat(xs).subrange(from, to) =~= part + c.rows.subrange(skip, skip + take));
        if take == 0 {
            assert(part + c.rows.subrange(skip, skip + take) =~= part);
        }
    } else {
        assert(flat(xs).subrange(0, 0) =~= Seq::empty());
    }
}

// --- Distinct rows ------------------------------------------------------------------------

/// The key of a row, by expressions on it alone.
pub open spec fn row_key(progs: Seq<ProgramV>, tys: Seq<Ty>, row: Seq<Val>) -> Seq<u8> {
    col_keys(programs_value(progs, tys, seq![row], progs.len() as int)->Ok_0, 1)[0]
}

pub open spec fn row_keys(progs: Seq<ProgramV>, tys: Seq<Ty>, rows: Seq<Seq<Val>>) -> Seq<Seq<u8>> {
    rows.map_values(|row: Seq<Val>| row_key(progs, tys, row))
}

proof fn lemma_keys_by_row(progs: Seq<ProgramV>, tys: Seq<Ty>, rows: Seq<Seq<Val>>)
    requires
        programs_value(progs, tys, rows, progs.len() as int) is Ok,
    ensures
        col_keys(programs_value(progs, tys, rows, progs.len() as int)->Ok_0, rows.len()) == row_keys(progs, tys, rows),
{
    let cols = programs_value(progs, tys, rows, progs.len() as int)->Ok_0;
    assert forall|i: int| 0 <= i < rows.len() implies #[trigger] col_keys(cols, rows.len())[i] == row_keys(
        progs,
        tys,
        rows,
    )[i] by {
        lemma_programs_by_row(progs, tys, rows, i, progs.len() as int);
        let one = programs_value(progs, tys, seq![rows[i]], progs.len() as int)->Ok_0;
        assert(Seq::new(cols.len(), |c: int| cols[c].ty) =~= Seq::new(one.len(), |c: int| one[c].ty));
        assert(Seq::new(cols.len(), |c: int| cols[c].cells[i]) =~= Seq::new(one.len(), |c: int| one[c].cells[0]));
    }
    assert(col_keys(cols, rows.len()) =~= row_keys(progs, tys, rows));
}

/// `DISTINCT ON` passes on the first row of each key, in the order of the rows.
pub proof fn distinct_rows_do_not_depend_on_batching(progs: Seq<ProgramV>, tys: Seq<Ty>, xs: Seq<Chunk>)
    requires
        typed(xs, tys),
        forall|k: int| 0 <= k < xs.len() ==> programs_value(progs, tys, (#[trigger] xs[k]).rows, progs.len() as int) is Ok,
    ensures
        ({
            let keys = row_keys(progs, tys, flat(xs));
            let none = Seq::<(Seq<u8>, u32)>::empty();
            let after = run(distinct_step(progs), none, xs);
            &&& after.0 == grown(none, keys, keys.len() as int)
            &&& flat(after.1) == kept(flat(xs), fresh_flags(none, keys))
        }),
    decreases xs.len(),
{
    let none = Seq::<(Seq<u8>, u32)>::empty();
    if xs.len() > 0 {
        let front = xs.drop_last();
        let c = xs.last();
        assert(xs[xs.len() - 1] == c);
        assert forall|k: int| 0 <= k < front.len() implies programs_value(
            progs,
            tys,
            (#[trigger] front[k]).rows,
            progs.len() as int,
        ) is Ok by {
            assert(front[k] == xs[k]);
        }
        assert(typed(front, tys)) by {
            assert forall|k: int| 0 <= k < front.len() implies (#[trigger] front[k]).types == tys by {
                assert(front[k] == xs[k]);
            }
        }
        distinct_rows_do_not_depend_on_batching(progs, tys, front);
        lemma_keys_by_row(progs, tys, c.rows);
        let a = row_keys(progs, tys, flat(front));
        let b = row_keys(progs, tys, c.rows);
        freshness_does_not_depend_on_batching(none, a, b);
        assert(row_keys(progs, tys, flat(xs)) =~= a + b);
        let e = grown(none, a, a.len() as int);
        let out = run(distinct_step(progs), none, front).1;
        lemma_kept_behind(front, out, c, fresh_flags(none, a), fresh_flags(e, b));
    } else {
        assert(row_keys(progs, tys, flat(xs)) =~= Seq::empty());
        assert(flat(xs) =~= Seq::empty());
    }
}

/// No key before this one equals it.
pub open spec fn first_of_its_kind(keys: Seq<Seq<u8>>, i: int) -> bool {
    forall|j: int| 0 <= j < i ==> #[trigger] keys[j] != keys[i]
}

/// The keys of the rows of batches.
pub open spec fn keys_in(progs: Seq<ProgramV>, xs: Seq<Chunk>) -> Seq<Seq<u8>>
    decreases xs.len(),
{
    if xs.len() == 0 {
        Seq::empty()
    } else {
        let c = xs.last();
        keys_in(progs, xs.drop_last()) + col_keys(
            programs_value(progs, c.types, c.rows, progs.len() as int)->Ok_0,
            c.rows.len(),
        )
    }
}

proof fn lemma_distinct_run(progs: Seq<ProgramV>, xs: Seq<Chunk>)
    requires
        forall|k: int|
            0 <= k < xs.len() ==> programs_value(progs, (#[trigger] xs[k]).types, xs[k].rows, progs.len() as int) is Ok,
    ensures
        ({
            let keys = keys_in(progs, xs);
            let none = Seq::<(Seq<u8>, u32)>::empty();
            let after = run(distinct_step(progs), none, xs);
            &&& keys.len() == flat(xs).len()
            &&& after.0 == grown(none, keys, keys.len() as int)
            &&& flat(after.1) == kept(flat(xs), fresh_flags(none, keys))
        }),
    decreases xs.len(),
{
    let none = Seq::<(Seq<u8>, u32)>::empty();
    if xs.len() > 0 {
        let front = xs.drop_last();
        let c = xs.last();
        assert(xs[xs.len() - 1] == c);
        assert forall|k: int| 0 <= k < front.len() implies programs_value(
            progs,
            (#[trigger] front[k]).types,
            front[k].rows,
            progs.len() as int,
        ) is Ok by {
            assert(front[k] == xs[k]);
        }
        lemma_distinct_run(progs, front);
        let a = keys_in(progs, front);
        let b = col_keys(programs_value(progs, c.types, c.rows, progs.len() as int)->Ok_0, c.rows.len());
        freshness_does_not_depend_on_batching(none, a, b);
        let e = grown(none, a, a.len() as int);
        let out = run(distinct_step(progs), none, front).1;
        lemma_kept_behind(front, out, c, fresh_flags(none, a), fresh_flags(e, b));
    } else {
        assert(flat(xs) =~= Seq::empty());
    }
}

/// `DISTINCT ON` returns a row exactly if no row before it has its key, and leaves the rows that it
/// returns in their order.
pub proof fn distinct_on_returns_the_first_row_of_each_key(progs: Seq<ProgramV>, xs: Seq<Chunk>)
    requires
        forall|k: int|
            0 <= k < xs.len() ==> programs_value(progs, (#[trigger] xs[k]).types, xs[k].rows, progs.len() as int) is Ok,
    ensures
        ({
            let keys = keys_in(progs, xs);
            &&& keys.len() == flat(xs).len()
            &&& flat(run(distinct_step(progs), Seq::empty(), xs).1) == kept(
                flat(xs),
                Seq::new(keys.len(), |i: int| first_of_its_kind(keys, i)),
            )
        }),
{
    lemma_distinct_run(progs, xs);
    let keys = keys_in(progs, xs);
    let none = Seq::<(Seq<u8>, u32)>::empty();
    assert forall|i: int| 0 <= i < keys.len() implies #[trigger] fresh_flags(none, keys)[i] == first_of_its_kind(keys, i) by {
        grown_holds_exactly_the_keys_seen(none, keys, i, keys[i]);
    }
    assert(fresh_flags(none, keys) =~= Seq::new(keys.len(), |i: int| first_of_its_kind(keys, i)));
}

// --- Samples ------------------------------------------------------------------------------

/// A sample by percentage draws a number for each row, in their order.
pub proof fn sampling_does_not_depend_on_batching(start: u64, p: u64, xs: Seq<Chunk>)
    ensures
        run(lucky_step(p), start, xs).0 == rng_after(start, flat(xs).len()),
        flat(run(lucky_step(p), start, xs).1) == kept(flat(xs), lucky(start, p, flat(xs).len())),
    decreases xs.len(),
{
    if xs.len() > 0 {
        let front = xs.drop_last();
        let c = xs.last();
        sampling_does_not_depend_on_batching(start, p, front);
        let a = flat(front).len();
        draws_do_not_depend_on_batching(start, p, a, c.rows.len());
        lemma_rng_adds(start, a, c.rows.len());
        let out = run(lucky_step(p), start, front).1;
        lemma_kept_behind(front, out, c, lucky(start, p, a), lucky(rng_after(start, a), p, c.rows.len()));
    } else {
        assert(flat(xs) =~= Seq::empty());
    }
}

// --- Sorting ------------------------------------------------------------------------------

/// A row with its sort keys, by expressions on it alone.
pub open spec fn item(ks: Seq<SortKeyV>, tys: Seq<Ty>, row: Seq<Val>) -> Item {
    (row, key_cells(sort_keys_value(ks, tys, seq![row], ks.len() as int)->Ok_0, 0))
}

/// The types of the sort keys of a row.
pub open spec fn item_types(ks: Seq<SortKeyV>, tys: Seq<Ty>, row: Seq<Val>) -> Seq<Ty> {
    key_types(sort_keys_value(ks, tys, seq![row], ks.len() as int)->Ok_0)
}

proof fn lemma_sort_keys_by_row(ks: Seq<SortKeyV>, tys: Seq<Ty>, rows: Seq<Seq<Val>>, i: int, k: int)
    requires
        0 <= i < rows.len(),
        0 <= k <= ks.len(),
        sort_keys_value(ks, tys, rows, k) is Ok,
    ensures
        match (sort_keys_value(ks, tys, rows, k), sort_keys_value(ks, tys, seq![rows[i]], k)) {
            (Ok(a), Ok(b)) => {
                &&& a.len() == b.len() == k
                &&& forall|c: int|
                    0 <= c < k ==> (#[trigger] a[c]).ty == b[c].ty && a[c].cells[i] == b[c].cells[0]
            },
            _ => false,
        },
    decreases k,
{
    if k > 0 {
        lemma_sort_keys_by_row(ks, tys, rows, i, k - 1);
        programs_run_row_by_row(ks[k - 1].expr, tys, rows, i);
    }
}

/// What has come in are the rows with their keys.
proof fn lemma_sort_taken(ks: Seq<SortKeyV>, tys: Seq<Ty>, xs: Seq<Chunk>)
    requires
        typed(xs, tys),
        forall|k: int|
            0 <= k < xs.len() ==> (#[trigger] xs[k]).rows.len() > 0 && sort_keys_value(
                ks,
                tys,
                xs[k].rows,
                ks.len() as int,
            ) is Ok,
    ensures
        sort_taken(ks, xs).0 == flat(xs).map_values(|row: Seq<Val>| item(ks, tys, row)),
        xs.len() > 0 ==> flat(xs).len() > 0 && sort_taken(ks, xs).2 && sort_taken(ks, xs).1 == item_types(
            ks,
            tys,
            flat(xs)[0],
        ),
        xs.len() == 0 ==> !sort_taken(ks, xs).2,
    decreases xs.len(),
{
    let f = |row: Seq<Val>| item(ks, tys, row);
    if xs.len() > 0 {
        let front = xs.drop_last();
        let c = xs.last();
        assert(xs[xs.len() - 1] == c);
        assert forall|k: int| 0 <= k < front.len() implies (#[trigger] front[k]).rows.len() > 0 && sort_keys_value(
            ks,
            tys,
            front[k].rows,
            ks.len() as int,
        ) is Ok by {
            assert(front[k] == xs[k]);
        }
        assert(typed(front, tys)) by {
            assert forall|k: int| 0 <= k < front.len() implies (#[trigger] front[k]).types == tys by {
                assert(front[k] == xs[k]);
            }
        }
        lemma_sort_taken(ks, tys, front);
        let kcols = sort_keys_value(ks, tys, c.rows, ks.len() as int)->Ok_0;
        let items = Seq::new(c.rows.len(), |i: int| (c.rows[i], key_cells(kcols, i)));
        assert(items =~= c.rows.map_values(f)) by {
            assert forall|i: int| 0 <= i < c.rows.len() implies #[trigger] items[i] == f(c.rows[i]) by {
                lemma_sort_keys_by_row(ks, tys, c.rows, i, ks.len() as int);
                assert(items[i].1 =~= item(ks, tys, c.rows[i]).1);
            }
        }
        assert(flat(xs).map_values(f) =~= flat(front).map_values(f) + c.rows.map_values(f));
        if front.len() == 0 {
            assert(flat(front) =~= Seq::empty());
            assert(flat(xs)[0] == c.rows[0]);
            lemma_sort_keys_by_row(ks, tys, c.rows, 0, ks.len() as int);
            assert(key_types(kcols) =~= item_types(ks, tys, c.rows[0]));
        } else {
            assert(flat(xs)[0] == flat(front)[0]);
        }
    } else {
        assert(flat(xs).map_values(f) =~= Seq::empty());
    }
}

/// Sorting orders the rows by their keys; rows of equal keys stay in their order.
pub proof fn sorting_does_not_depend_on_batching(ks: Seq<SortKeyV>, limit: Option<usize>, tys: Seq<Ty>, xs: Seq<Chunk>)
    requires
        typed(xs, tys),
        xs.len() > 0,
        forall|k: int|
            0 <= k < xs.len() ==> (#[trigger] xs[k]).rows.len() > 0 && sort_keys_value(
                ks,
                tys,
                xs[k].rows,
                ks.len() as int,
            ) is Ok,
    ensures
        sorted_rows(ks, limit, xs) == rows_only(
            limited(
                arranged(
                    flat(xs).map_values(|row: Seq<Val>| item(ks, tys, row)),
                    item_rule(ks, item_types(ks, tys, flat(xs)[0])),
                ),
                limit,
            ),
        ),
{
    lemma_sort_taken(ks, tys, xs);
}

/// Row numbers in the order that a rule gives: each of the first `n` once, and of two rows that
/// the rule does not part the earlier one first.
pub open spec fn stable_order(order: Seq<int>, n: nat, rule: spec_fn(int, int) -> Order) -> bool {
    &&& order.to_multiset() == Seq::new(n, |i: int| i).to_multiset()
    &&& forall|i: int, j: int|
        0 <= i < j < order.len() ==> match rule(#[trigger] order[i], #[trigger] order[j]) {
            Order::Less => true,
            Order::Equal => order[i] < order[j],
            Order::Greater => false,
        }
}

/// Orders row numbers by the keys taken in.
pub open spec fn taken_rule(ks: Seq<SortKeyV>, t: Taken) -> spec_fn(int, int) -> Order {
    |a: int, b: int| key_order(ks, t.1, t.0[a].1, t.0[b].1, 0)
}

proof fn lemma_taken_rows(ks: Seq<SortKeyV>, xs: Seq<Chunk>)
    requires
        forall|k: int|
            0 <= k < xs.len() ==> sort_keys_value(ks, (#[trigger] xs[k]).types, xs[k].rows, ks.len() as int) is Ok,
    ensures
        rows_only(sort_taken(ks, xs).0) == flat(xs),
    decreases xs.len(),
{
    if xs.len() > 0 {
        let front = xs.drop_last();
        assert forall|k: int| 0 <= k < front.len() implies sort_keys_value(
            ks,
            (#[trigger] front[k]).types,
            front[k].rows,
            ks.len() as int,
        ) is Ok by {
            assert(front[k] == xs[k]);
        }
        lemma_taken_rows(ks, front);
        assert(xs[xs.len() - 1] == xs.last());
        let t = sort_taken(ks, xs).0;
        assert forall|i: int| 0 <= i < t.len() implies #[trigger] rows_only(t)[i] == flat(xs)[i] by {
            if i < flat(front).len() {
                assert(rows_only(sort_taken(ks, front).0)[i] == flat(front)[i]);
            }
        }
    }
    assert(rows_only(sort_taken(ks, xs).0) =~= flat(xs));
}

/// The keys taken in order row numbers.
proof fn lemma_taken_order(ks: Seq<SortKeyV>, t: Taken, rule: spec_fn(int, int) -> Order, dom: spec_fn(int) -> bool)
    requires
        rule == taken_rule(ks, t),
        dom == (|i: int| 0 <= i < t.0.len()),
        forall|i: int| 0 <= i < t.0.len() ==> key_fits(ks.len(), t.1, (#[trigger] t.0[i]).1),
    ensures
        orders(rule, dom),
{
    keys_are_ordered(ks, t.1);
    let by_key = |a: Seq<Val>, b: Seq<Val>| key_order(ks, t.1, a, b, 0);
    assert forall|a: int, b: int| dom(a) && dom(b) implies (#[trigger] rule(b, a)) == rule(a, b).flipped() by {
        assert(rule(b, a) == by_key(t.0[b].1, t.0[a].1));
    }
    assert forall|a: int, b: int, c: int|
        dom(a) && dom(b) && dom(c) && (#[trigger] rule(a, b)) != Order::Greater && (#[trigger] rule(b, c))
            != Order::Greater implies rule(a, c) != Order::Greater && (rule(a, b) == Order::Less || rule(b, c)
        == Order::Less ==> rule(a, c) == Order::Less) by {
        assert(rule(a, b) == by_key(t.0[a].1, t.0[b].1));
        assert(rule(b, c) == by_key(t.0[b].1, t.0[c].1));
    }
}

/// Row numbers arranged by a rule are in its order, equal ones in their own.
proof fn lemma_numbers_arranged(idx: Seq<int>, rule: spec_fn(int, int) -> Order, dom: spec_fn(int) -> bool) -> (order: Seq<
    int,
>)
    requires
        idx == Seq::new(idx.len(), |i: int| i),
        dom == (|i: int| 0 <= i < idx.len()),
        orders(rule, dom),
    ensures
        order == arranged(idx, rule),
        stable_order(order, idx.len(), rule),
        forall|k: int| 0 <= k < order.len() ==> 0 <= #[trigger] order[k] < idx.len(),
{
    let num = |i: int| i;
    arranging_sorts(idx, rule, dom);
    arranging_is_stable(idx, rule, dom, num);
    let order = arranged(idx, rule);
    assert forall|i: int, j: int| 0 <= i < j < order.len() implies match rule(#[trigger] order[i], #[trigger] order[j]) {
        Order::Less => true,
        Order::Equal => order[i] < order[j],
        Order::Greater => false,
    } by {
        if rule(order[i], order[j]) == Order::Equal {
            assert(num(order[i]) < num(order[j]));
        }
    }
    assert forall|k: int| 0 <= k < order.len() implies 0 <= #[trigger] order[k] < idx.len() by {
        assert(dom(order[k]));
    }
    order
}

/// Sorting returns the rows of the input, each once, in the order of their keys, rows of equal keys
/// in their order; with a limit, the first ones of these.
#[verifier::rlimit(40)]
pub proof fn sorting_is_a_stable_permutation(ks: Seq<SortKeyV>, limit: Option<usize>, xs: Seq<Chunk>) -> (order: Seq<int>)
    requires
        forall|k: int|
            0 <= k < xs.len() ==> sort_keys_value(ks, (#[trigger] xs[k]).types, xs[k].rows, ks.len() as int) is Ok,
        keys_fit(ks, xs),
    ensures
        stable_order(order, flat(xs).len(), taken_rule(ks, sort_taken(ks, xs))),
        sorted_rows(ks, limit, xs) == limited(order, limit).map_values(|i: int| flat(xs)[i]),
{
    lemma_taken_rows(ks, xs);
    let t = sort_taken(ks, xs);
    let n = t.0.len();
    let idx = Seq::new(n, |i: int| i);
    let f = |i: int| t.0[i];
    let rule = taken_rule(ks, t);
    let mapped = item_rule(ks, t.1);
    let dom = |i: int| 0 <= i < n;
    assert forall|i: int| 0 <= i < n implies key_fits(ks.len(), t.1, (#[trigger] t.0[i]).1) by {
        assert(item_dom(ks, t.1)(t.0[i]));
    }
    assert(rows_only(t.0).len() == n);
    assert(idx.map_values(f) =~= t.0);
    lemma_arranged_mapped(idx, f, rule, mapped);
    lemma_taken_order(ks, t, rule, dom);
    let order = lemma_numbers_arranged(idx, rule, dom);
    let want = limited(order, limit).map_values(|i: int| flat(xs)[i]);
    let have = sorted_rows(ks, limit, xs);
    assert forall|k: int| 0 <= k < have.len() implies #[trigger] have[k] == want[k] by {
        let i = order[k];
        assert(rows_only(t.0)[i] == flat(xs)[i]);
    }
    assert(have =~= want);
    order
}

// --- Set operations -----------------------------------------------------------------------

/// The key of a row as a whole.
pub open spec fn whole_key(tys: Seq<Ty>, row: Seq<Val>) -> Seq<u8> {
    key_of(tys, Seq::new(tys.len(), |c: int| row[c]))
}

pub open spec fn whole_keys(tys: Seq<Ty>, rows: Seq<Seq<Val>>) -> Seq<Seq<u8>> {
    rows.map_values(|row: Seq<Val>| whole_key(tys, row))
}

proof fn lemma_chunk_keys(c: Chunk)
    ensures
        chunk_keys(c) == whole_keys(c.types, c.rows),
{
    let cols = Seq::new(c.types.len(), |k: int| input_col(c.types, c.rows, k));
    assert forall|i: int| 0 <= i < c.rows.len() implies #[trigger] chunk_keys(c)[i] == whole_keys(c.types, c.rows)[i] by {
        assert(Seq::new(cols.len(), |k: int| cols[k].ty) =~= c.types);
        assert(Seq::new(cols.len(), |k: int| cols[k].cells[i]) =~= Seq::new(c.types.len(), |k: int| c.rows[i][k]));
    }
    assert(chunk_keys(c) =~= whole_keys(c.types, c.rows));
}

/// The counts and the keys after some rows, and after some more.
proof fn lemma_set_resumed(
    op: SetOpKind,
    all: bool,
    e: Seq<(Seq<u8>, u32)>,
    s: SetState,
    a: Seq<Seq<u8>>,
    b: Seq<Seq<u8>>,
    k: int,
)
    requires
        0 <= k <= a.len() + b.len(),
    ensures
        ({
            let t = (
                counts_at(op, all, e, s.0, a, a.len() as int),
                seen_at(op, all, e, s.0, s.1, a, a.len() as int),
            );
            if k <= a.len() {
                &&& counts_at(op, all, e, s.0, a + b, k) == counts_at(op, all, e, s.0, a, k)
                &&& seen_at(op, all, e, s.0, s.1, a + b, k) == seen_at(op, all, e, s.0, s.1, a, k)
            } else {
                &&& counts_at(op, all, e, s.0, a + b, k) == counts_at(op, all, e, t.0, b, k - a.len())
                &&& seen_at(op, all, e, s.0, s.1, a + b, k) == seen_at(op, all, e, t.0, t.1, b, k - a.len())
            }
        }),
    decreases k,
{
    if k > 0 {
        lemma_set_resumed(op, all, e, s, a, b, k - 1);
        reveal_with_fuel(counts_at, 2);
        reveal_with_fuel(seen_at, 2);
        if k <= a.len() {
            assert((a + b)[k - 1] == a[k - 1]);
        } else {
            assert((a + b)[k - 1] == b[k - 1 - a.len()]);
        }
    }
}

proof fn lemma_set_flags(
    op: SetOpKind,
    all: bool,
    e: Seq<(Seq<u8>, u32)>,
    s: SetState,
    a: Seq<Seq<u8>>,
    b: Seq<Seq<u8>>,
)
    ensures
        ({
            let t = (
                counts_at(op, all, e, s.0, a, a.len() as int),
                seen_at(op, all, e, s.0, s.1, a, a.len() as int),
            );
            returned_flags(op, all, e, s.0, s.1, a + b) == returned_flags(op, all, e, s.0, s.1, a) + returned_flags(
                op,
                all,
                e,
                t.0,
                t.1,
                b,
            )
        }),
{
    let t = (counts_at(op, all, e, s.0, a, a.len() as int), seen_at(op, all, e, s.0, s.1, a, a.len() as int));
    let whole = returned_flags(op, all, e, s.0, s.1, a + b);
    let parts = returned_flags(op, all, e, s.0, s.1, a) + returned_flags(op, all, e, t.0, t.1, b);
    assert forall|k: int| 0 <= k < whole.len() implies whole[k] == #[trigger] parts[k] by {
        lemma_set_resumed(op, all, e, s, a, b, k);
        if k < a.len() {
            assert((a + b)[k] == a[k]);
        } else {
            assert((a + b)[k] == b[k - a.len()]);
        }
    }
    assert(whole =~= parts);
}

/// With `UNION ALL` nothing changes and all rows are returned.
proof fn lemma_union_all(e: Seq<(Seq<u8>, u32)>, s: SetState, keys: Seq<Seq<u8>>, k: int)
    requires
        0 <= k,
    ensures
        counts_at(SetOpKind::Union, true, e, s.0, keys, k) == s.0,
        seen_at(SetOpKind::Union, true, e, s.0, s.1, keys, k) == s.1,
    decreases k,
{
    if k > 0 {
        lemma_union_all(e, s, keys, k - 1);
    }
}

/// The keys of the rows of batches, each over all of its columns.
pub open spec fn whole_keys_in(xs: Seq<Chunk>) -> Seq<Seq<u8>>
    decreases xs.len(),
{
    if xs.len() == 0 {
        Seq::empty()
    } else {
        whole_keys_in(xs.drop_last()) + chunk_keys(xs.last())
    }
}

proof fn lemma_set_run(op: SetOpKind, all: bool, e: Seq<(Seq<u8>, u32)>, s: SetState, xs: Seq<Chunk>)
    ensures
        ({
            let keys = whole_keys_in(xs);
            let n = keys.len() as int;
            let after = run(set_step(op, all, e), s, xs);
            &&& n == flat(xs).len()
            &&& after.0 == (counts_at(op, all, e, s.0, keys, n), seen_at(op, all, e, s.0, s.1, keys, n))
            &&& flat(after.1) == kept(flat(xs), returned_flags(op, all, e, s.0, s.1, keys))
        }),
    decreases xs.len(),
{
    if xs.len() > 0 {
        let front = xs.drop_last();
        let c = xs.last();
        lemma_set_run(op, all, e, s, front);
        let a = whole_keys_in(front);
        let b = chunk_keys(c);
        lemma_set_flags(op, all, e, s, a, b);
        lemma_set_resumed(op, all, e, s, a, b, (a.len() + b.len()) as int);
        let before = run(set_step(op, all, e), s, front);
        let t = before.0;
        let flags = returned_flags(op, all, e, t.0, t.1, b);
        if c.rows.len() == 0 {
            assert(b =~= Seq::empty());
            assert(a + b =~= a);
            assert(flat(front) + c.rows =~= flat(front));
        } else {
            lemma_kept_behind(front, before.1, c, returned_flags(op, all, e, s.0, s.1, a), flags);
            if op is Union && all {
                lemma_union_all(e, t, b, b.len() as int);
                assert forall|k: int| 0 <= k < flags.len() implies #[trigger] flags[k] by {}
                lemma_kept_all(c.rows, flags);
                assert(flags[0]);
            }
        }
    } else {
        assert(flat(xs) =~= Seq::empty());
    }
}

proof fn lemma_whole_keys_in(tys: Seq<Ty>, xs: Seq<Chunk>)
    requires
        typed(xs, tys),
    ensures
        whole_keys_in(xs) == whole_keys(tys, flat(xs)),
    decreases xs.len(),
{
    if xs.len() > 0 {
        let front = xs.drop_last();
        assert(xs[xs.len() - 1] == xs.last());
        assert(typed(front, tys)) by {
            assert forall|k: int| 0 <= k < front.len() implies (#[trigger] front[k]).types == tys by {
                assert(front[k] == xs[k]);
            }
        }
        lemma_whole_keys_in(tys, front);
        lemma_chunk_keys(xs.last());
    }
    assert(whole_keys_in(xs) =~= whole_keys(tys, flat(xs)));
}

/// Which rows a set operation returns follows from the rows that came before them.
pub proof fn set_operations_do_not_depend_on_batching(
    op: SetOpKind,
    all: bool,
    e: Seq<(Seq<u8>, u32)>,
    s: SetState,
    tys: Seq<Ty>,
    xs: Seq<Chunk>,
)
    requires
        typed(xs, tys),
    ensures
        ({
            let keys = whole_keys(tys, flat(xs));
            let n = keys.len() as int;
            let after = run(set_step(op, all, e), s, xs);
            &&& after.0 == (counts_at(op, all, e, s.0, keys, n), seen_at(op, all, e, s.0, s.1, keys, n))
            &&& flat(after.1) == kept(flat(xs), returned_flags(op, all, e, s.0, s.1, keys))
        }),
{
    lemma_set_run(op, all, e, s, xs);
    lemma_whole_keys_in(tys, xs);
}

proof fn lemma_tally_prefix(a: Seq<Seq<u8>>, b: Seq<Seq<u8>>, n: int, key: Seq<u8>)
    requires
        0 <= n <= a.len(),
    ensures
        tally(a + b, n, key) == tally(a, n, key),
    decreases n,
{
    if n > 0 {
        lemma_tally_prefix(a, b, n - 1, key);
        assert((a + b)[n - 1] == a[n - 1]);
    }
}

proof fn lemma_tally_append(a: Seq<Seq<u8>>, b: Seq<Seq<u8>>, n: int, key: Seq<u8>)
    requires
        0 <= n <= b.len(),
    ensures
        tally(a + b, a.len() + n, key) == tally(a, a.len() as int, key) + tally(b, n, key),
    decreases n,
{
    if n > 0 {
        lemma_tally_append(a, b, n - 1, key);
        assert((a + b)[a.len() + n - 1] == b[n - 1]);
    } else {
        lemma_tally_prefix(a, b, a.len() as int, key);
    }
}

proof fn lemma_total_tally(xs: Seq<Chunk>, key: Seq<u8>)
    ensures
        total_tally(xs, key) == tally(whole_keys_in(xs), whole_keys_in(xs).len() as int, key),
    decreases xs.len(),
{
    if xs.len() > 0 {
        lemma_total_tally(xs.drop_last(), key);
        let b = chunk_keys(xs.last());
        lemma_tally_append(whole_keys_in(xs.drop_last()), b, b.len() as int, key);
    }
}

proof fn lemma_total_both(xs: Seq<Chunk>, ys: Seq<Chunk>, key: Seq<u8>)
    ensures
        total_tally(xs + ys, key) == total_tally(xs, key) + total_tally(ys, key),
    decreases ys.len(),
{
    if ys.len() > 0 {
        lemma_total_both(xs, ys.drop_last(), key);
        assert((xs + ys).drop_last() =~= xs + ys.drop_last());
    } else {
        assert(xs + ys =~= xs);
    }
}

proof fn lemma_tally_positive(keys: Seq<Seq<u8>>, n: int, key: Seq<u8>)
    requires
        n <= keys.len(),
    ensures
        tally(keys, n, key) >= 0,
        tally(keys, n, key) > 0 <==> exists|j: int| 0 <= j < n && #[trigger] keys[j] == key,
    decreases n,
{
    if n > 0 {
        lemma_tally_positive(keys, n - 1, key);
        assert(keys[n - 1] == key || keys[n - 1] != key);
    }
}

/// The right side's index holds the keys that occur there.
proof fn lemma_right_index(rs: Seq<Chunk>, key: Seq<u8>)
    ensures
        total_tally(rs, key) >= 0,
        has_key(right_index(rs), key) <==> total_tally(rs, key) > 0,
    decreases rs.len(),
{
    if rs.len() > 0 {
        lemma_right_index(rs.drop_last(), key);
        let b = chunk_keys(rs.last());
        lemma_tally_positive(b, b.len() as int, key);
        grown_holds_exactly_the_keys_seen(right_index(rs.drop_last()), b, b.len() as int, key);
    }
}

/// The rows kept of a batch with a key are those returned.
proof fn lemma_kept_tally(keys: Seq<Seq<u8>>, flags: Seq<bool>, key: Seq<u8>)
    requires
        keys.len() == flags.len(),
    ensures
        tally(kept(keys, flags), kept(keys, flags).len() as int, key) == returned_tally(flags, keys, keys.len() as int, key),
    decreases keys.len(),
{
    if keys.len() > 0 {
        let k = keys.drop_last();
        let f = flags.drop_last();
        lemma_kept_tally(k, f, key);
        lemma_returned_prefix(f, seq![flags.last()], k, seq![keys.last()], k.len() as int, key);
        assert(f + seq![flags.last()] =~= flags);
        assert(k + seq![keys.last()] =~= keys);
        if flags.last() {
            lemma_tally_append(kept(k, f), seq![keys.last()], 1, key);
            assert(kept(keys, flags) =~= kept(k, f) + seq![keys.last()]);
            reveal_with_fuel(tally, 2);
        }
    }
}

proof fn lemma_returned_prefix(f: Seq<bool>, g: Seq<bool>, a: Seq<Seq<u8>>, b: Seq<Seq<u8>>, n: int, key: Seq<u8>)
    requires
        a.len() == f.len(),
        0 <= n <= a.len(),
    ensures
        returned_tally(f + g, a + b, n, key) == returned_tally(f, a, n, key),
    decreases n,
{
    if n > 0 {
        lemma_returned_prefix(f, g, a, b, n - 1, key);
        assert((f + g)[n - 1] == f[n - 1]);
        assert((a + b)[n - 1] == a[n - 1]);
    }
}

proof fn lemma_returned_append(f: Seq<bool>, g: Seq<bool>, a: Seq<Seq<u8>>, b: Seq<Seq<u8>>, n: int, key: Seq<u8>)
    requires
        a.len() == f.len(),
        b.len() == g.len(),
        0 <= n <= b.len(),
    ensures
        returned_tally(f + g, a + b, a.len() + n, key) == returned_tally(f, a, a.len() as int, key) + returned_tally(
            g,
            b,
            n,
            key,
        ),
    decreases n,
{
    if n > 0 {
        lemma_returned_append(f, g, a, b, n - 1, key);
        assert((f + g)[a.len() + n - 1] == g[n - 1]);
        assert((a + b)[a.len() + n - 1] == b[n - 1]);
    } else {
        lemma_returned_prefix(f, g, a, b, a.len() as int, key);
    }
}

/// How often a key occurs in what is returned.
proof fn lemma_returned_total(op: SetOpKind, all: bool, e: Seq<(Seq<u8>, u32)>, s: SetState, xs: Seq<Chunk>, key: Seq<u8>)
    ensures
        ({
            let keys = whole_keys_in(xs);
            total_tally(run(set_step(op, all, e), s, xs).1, key) == returned_tally(
                returned_flags(op, all, e, s.0, s.1, keys),
                keys,
                keys.len() as int,
                key,
            )
        }),
    decreases xs.len(),
{
    if xs.len() > 0 {
        let front = xs.drop_last();
        let c = xs.last();
        lemma_returned_total(op, all, e, s, front, key);
        lemma_set_run(op, all, e, s, front);
        let a = whole_keys_in(front);
        let b = chunk_keys(c);
        lemma_set_flags(op, all, e, s, a, b);
        let before = run(set_step(op, all, e), s, front);
        let t = before.0;
        let f = returned_flags(op, all, e, s.0, s.1, a);
        let g = returned_flags(op, all, e, t.0, t.1, b);
        lemma_returned_append(f, g, a, b, b.len() as int, key);
        lemma_kept_tally(b, g, key);
        let part = Chunk { types: c.types, rows: kept(c.rows, g) };
        assert(chunk_keys(part) == kept(b, g)) by {
            lemma_chunk_keys(c);
            lemma_chunk_keys(part);
            lemma_kept_mapped(c.rows, b, |row: Seq<Val>| whole_key(c.types, row), g);
        }
        assert(before.1.push(part).drop_last() =~= before.1);
        if c.rows.len() == 0 {
            assert(a + b =~= a);
        } else if op is Union && all {
            lemma_union_all(e, t, b, b.len() as int);
            assert forall|k: int| 0 <= k < g.len() implies #[trigger] g[k] by {
                lemma_union_all(e, t, b, k);
            }
            lemma_kept_all(c.rows, g);
            assert(part =~= c);
        } else {
            lemma_kept_some(b, g);
        }
    }
}

/// How often a row comes out of a set operation, if the left side has it `l` times and the right side
/// `r` times.
pub open spec fn set_count(op: SetOpKind, all: bool, l: int, r: int) -> int {
    match op {
        SetOpKind::Union => if all {
            l + r
        } else if l + r > 0 {
            1
        } else {
            0
        },
        SetOpKind::Intersect => if all {
            if l < r {
                l
            } else {
                r
            }
        } else if l > 0 && r > 0 {
            1
        } else {
            0
        },
        SetOpKind::Except => if all {
            if l < r {
                0
            } else {
                l - r
            }
        } else if l > 0 && r == 0 {
            1
        } else {
            0
        },
    }
}

/// How often a row comes out of a set operation follows from how often it comes in on either side.
/// Rows are the same if their keys are, so that NULL is the same as NULL.
pub proof fn set_operations_count_rows(
    op: SetOpKind,
    all: bool,
    ls: Seq<Chunk>,
    rs: Seq<Chunk>,
    counts: Seq<u32>,
    out: Seq<Chunk>,
    key: Seq<u8>,
)
    requires
        set_gave(op, all, ls, rs, counts, out),
    ensures
        total_tally(out, key) == set_count(op, all, total_tally(ls, key), total_tally(rs, key)),
{
    let none = Seq::<(Seq<u8>, u32)>::empty();
    let (e, xs) = if op is Union {
        (none, ls + rs)
    } else {
        (right_index(rs), ls)
    };
    let keys = whole_keys_in(xs);
    let n = keys.len() as int;
    lemma_returned_total(op, all, e, (counts, none), xs, key);
    lemma_total_tally(xs, key);
    lemma_total_both(ls, rs, key);
    lemma_right_index(rs, key);
    lemma_right_index(ls, key);
    if all {
        all_versions_count_duplicates(op, e, counts, none, keys, n, key);
    } else {
        distinct_versions_return_a_row_once(op, e, counts, keys, n, key);
    }
}

// --- Arrays -------------------------------------------------------------------------------

/// An array can be read: all of its elements have values.
pub open spec fn readable(ty: Ty, v: Val) -> bool {
    match elems_of(v) {
        Err(_) => false,
        Ok(es) => forall|p: int|
            0 <= p < es.len() ==> elem_value(
                ty,
                doc_of(v).subrange((#[trigger] es[p]).start as int, es[p].end as int),
                es[p].kind,
            ) is Ok,
    }
}

/// A row for each element of an array, with the element behind it.
pub open spec fn expanded(ty: Ty, v: Val, row: Seq<Val>) -> Seq<Seq<Val>> {
    let es = elems_of(v)->Ok_0;
    Seq::new(
        es.len(),
        |p: int| row.push(elem_value(ty, doc_of(v).subrange(es[p].start as int, es[p].end as int), es[p].kind)->Ok_0),
    )
}

/// The array of a row, by an expression on it alone.
pub open spec fn row_array(expr: ProgramV, tys: Seq<Ty>, row: Seq<Val>) -> Val {
    program_value(expr, tys, seq![row])->Ok_0.cells[0]
}

/// What rows are unnested to, one by one.
pub open spec fn expanded_each(expr: ProgramV, ty: Ty, tys: Seq<Ty>, rows: Seq<Seq<Val>>) -> Seq<Seq<Val>>
    decreases rows.len(),
{
    if rows.len() == 0 {
        Seq::empty()
    } else {
        expanded_each(expr, ty, tys, rows.drop_last()) + expanded(
            ty,
            row_array(expr, tys, rows.last()),
            rows.last(),
        )
    }
}

proof fn lemma_expanded_adds(expr: ProgramV, ty: Ty, tys: Seq<Ty>, a: Seq<Seq<Val>>, b: Seq<Seq<Val>>)
    ensures
        expanded_each(expr, ty, tys, a + b) == expanded_each(expr, ty, tys, a) + expanded_each(expr, ty, tys, b),
    decreases b.len(),
{
    if b.len() == 0 {
        assert(a + b =~= a);
        assert(expanded_each(expr, ty, tys, a) + expanded_each(expr, ty, tys, b) =~= expanded_each(expr, ty, tys, a));
    } else {
        lemma_expanded_adds(expr, ty, tys, a, b.drop_last());
        assert((a + b).drop_last() =~= a + b.drop_last());
        assert((a + b).last() == b.last());
        let last = expanded(ty, row_array(expr, tys, b.last()), b.last());
        assert(expanded_each(expr, ty, tys, a) + expanded_each(expr, ty, tys, b.drop_last()) + last =~= expanded_each(
            expr,
            ty,
            tys,
            a,
        ) + (expanded_each(expr, ty, tys, b.drop_last()) + last));
    }
}

/// The elements of a row, from one on, and the rows behind it.
proof fn lemma_row_pairs(ty: Ty, arr: Seq<Val>, rows: Seq<Seq<Val>>, r: int, p: int)
    requires
        0 <= r < arr.len() == rows.len(),
        readable(ty, arr[r]),
        0 <= p <= elems_of(arr[r])->Ok_0.len(),
    ensures
        paired(rows, pairs_from(ty, arr, r, p)) == expanded(ty, arr[r], rows[r]).skip(p) + paired(
            rows,
            pairs_from(ty, arr, r + 1, 0),
        ),
    decreases elems_of(arr[r])->Ok_0.len() - p,
{
    let es = elems_of(arr[r])->Ok_0;
    let all = expanded(ty, arr[r], rows[r]);
    let rest = paired(rows, pairs_from(ty, arr, r + 1, 0));
    if p == es.len() {
        assert(all.skip(p) + rest =~= rest);
    } else {
        lemma_row_pairs(ty, arr, rows, r, p + 1);
        let x = elem_value(ty, doc_of(arr[r]).subrange(es[p].start as int, es[p].end as int), es[p].kind);
        assert(x is Ok);
        let more = pairs_from(ty, arr, r, p + 1);
        assert(pairs_from(ty, arr, r, p) == seq![(r, x->Ok_0)] + more);
        assert(paired(rows, seq![(r, x->Ok_0)] + more) =~= seq![all[p]] + paired(rows, more));
        assert(all.skip(p) =~= seq![all[p]] + all.skip(p + 1));
        assert(seq![all[p]] + (all.skip(p + 1) + rest) =~= all.skip(p) + rest);
    }
}

proof fn lemma_rows_expanded(expr: ProgramV, ty: Ty, tys: Seq<Ty>, arr: Seq<Val>, rows: Seq<Seq<Val>>, r: int)
    requires
        arr.len() == rows.len(),
        0 <= r <= rows.len(),
        forall|i: int| 0 <= i < rows.len() ==> readable(ty, #[trigger] arr[i]) && arr[i] == row_array(expr, tys, rows[i]),
    ensures
        paired(rows, pairs_from(ty, arr, r, 0)) == expanded_each(expr, ty, tys, rows.skip(r)),
    decreases rows.len() - r,
{
    if r == rows.len() {
        assert(rows.skip(r) =~= Seq::empty());
        assert(paired(rows, pairs_from(ty, arr, r, 0)) =~= Seq::empty());
    } else {
        lemma_rows_expanded(expr, ty, tys, arr, rows, r + 1);
        lemma_row_pairs(ty, arr, rows, r, 0);
        assert(readable(ty, arr[r]));
        let one = seq![rows[r]];
        assert(rows.skip(r) =~= one + rows.skip(r + 1));
        lemma_expanded_adds(expr, ty, tys, one, rows.skip(r + 1));
        assert(one.last() == rows[r]);
        assert(expanded_each(expr, ty, tys, one.drop_last()) =~= Seq::empty());
        assert(expanded_each(expr, ty, tys, one) =~= expanded(ty, arr[r], rows[r]));
        assert(expanded(ty, arr[r], rows[r]).skip(0) =~= expanded(ty, arr[r], rows[r]));
    }
}

/// `UNNEST` repeats each row for the elements of its array, in their order.
pub proof fn unnesting_does_not_depend_on_batching(expr: ProgramV, ty: Ty, tys: Seq<Ty>, xs: Seq<Chunk>)
    requires
        typed(xs, tys),
        forall|k: int|
            0 <= k < xs.len() ==> (#[trigger] xs[k]).rows.len() > 0 && program_value(expr, tys, xs[k].rows) is Ok,
        forall|i: int| 0 <= i < flat(xs).len() ==> readable(ty, row_array(expr, tys, #[trigger] flat(xs)[i])),
    ensures
        unnested_rows(expr, ty, xs) == expanded_each(expr, ty, tys, flat(xs)),
    decreases xs.len(),
{
    if xs.len() > 0 {
        let front = xs.drop_last();
        let c = xs.last();
        assert(xs[xs.len() - 1] == c);
        assert forall|k: int| 0 <= k < front.len() implies (#[trigger] front[k]).types == tys && front[k].rows.len() > 0
            && program_value(expr, tys, front[k].rows) is Ok by {
            assert(front[k] == xs[k]);
        }
        let m = flat(front).len() as int;
        assert forall|i: int| 0 <= i < flat(front).len() implies readable(
            ty,
            row_array(expr, tys, #[trigger] flat(front)[i]),
        ) by {
            assert(flat(front)[i] == flat(xs)[i]);
        }
        unnesting_does_not_depend_on_batching(expr, ty, tys, front);
        let arr = arrays_of(expr, c);
        programs_run_row_by_row(expr, tys, c.rows, 0);
        assert forall|i: int| 0 <= i < c.rows.len() implies readable(ty, #[trigger] arr[i]) && arr[i] == row_array(
            expr,
            tys,
            c.rows[i],
        ) by {
            programs_run_row_by_row(expr, tys, c.rows, i);
            assert(flat(xs)[m + i] == c.rows[i]);
        }
        lemma_rows_expanded(expr, ty, tys, arr, c.rows, 0);
        assert(c.rows.skip(0) =~= c.rows);
        lemma_expanded_adds(expr, ty, tys, flat(front), c.rows);
    } else {
        assert(flat(xs) =~= Seq::empty());
    }
}

} // verus!
