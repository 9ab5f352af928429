//! What operators have returned once they are done.
//!
//! Each law speaks of an operator that has come to its end, however often it was interrupted, and of
//! the batches that its inputs have given.

use crate::catalog::Table;
use crate::exec::batching::{
    distinct_on_returns_the_first_row_of_each_key, first_of_its_kind, keys_in, limit_from,
    limiting_does_not_depend_on_batching, set_count, set_operations_count_rows, sorting_is_a_stable_permutation,
    stable_order, taken_rule,
};
use crate::exec::meaning::{set_gave, takes};
use crate::exec::setop::{total_tally, SetOp};
use crate::exec::sort::{limited, sort_taken, Sort};
use crate::exec::{
    flat, found, in_order, limit_total, looked_through, looks_rows, place_after, sought, DistinctOn, Finding,
    Limit, Look, Operator, Scan,
};
use crate::expr::progs_of;
use crate::plan::{keys_of, ScanSpec};
use crate::vector::kept;
use vstd::prelude::*;

verus! {

// --- Scan ---------------------------------------------------------------------------------

/// How many splits each part of a table has.
pub open spec fn split_counts(t: Table) -> Seq<int> {
    Seq::new(t.parts@.len(), |p: int| t.parts@[p].format.told(Seq::empty()).split_count as int)
}

/// The splits before a place, part by part, each as a part and a split in it.
pub open spec fn splits_before(counts: Seq<int>, part: int, split: int) -> Seq<(int, int)>
    decreases part, split,
{
    if split > 0 {
        splits_before(counts, part, split - 1).push((part, split - 1))
    } else if part > 0 {
        splits_before(counts, part - 1, counts[part - 1])
    } else {
        Seq::empty()
    }
}

/// All splits.
pub open spec fn all_splits(counts: Seq<int>) -> Seq<(int, int)> {
    splits_before(counts, counts.len() as int, 0)
}

/// The looks at which splits were read or ruled out.
pub open spec fn settled(spec: ScanSpec, ls: Seq<Look>) -> Seq<Look>
    decreases ls.len(),
{
    if ls.len() == 0 {
        Seq::empty()
    } else {
        let before = settled(spec, ls.drop_last());
        match found(spec, ls.last()) {
            Some(Finding::Rows(_)) => before.push(ls.last()),
            Some(Finding::Skipped) => before.push(ls.last()),
            _ => before,
        }
    }
}

/// Where looks were directed.
pub open spec fn places(ls: Seq<Look>) -> Seq<(int, int)> {
    ls.map_values(|l: Look| (l.part, l.split))
}

/// A place in a table, or its end.
spec fn within(counts: Seq<int>, part: int, split: int) -> bool {
    &&& 0 <= part <= counts.len()
    &&& part < counts.len() ==> 0 <= split <= counts[part]
    &&& part == counts.len() ==> split == 0
}

proof fn lemma_sought(t: Table, part: int, split: int)
    requires
        within(split_counts(t), part, split),
    ensures
        ({
            let (p, s) = sought(t, part, split);
            let counts = split_counts(t);
            &&& within(counts, p, s)
            &&& p < counts.len() ==> s < counts[p]
            &&& splits_before(counts, p, s) == splits_before(counts, part, split)
        }),
    decreases t.parts@.len() - part,
{
    let counts = split_counts(t);
    if part < counts.len() && split >= counts[part] {
        lemma_sought(t, part + 1, 0);
        assert(splits_before(counts, part + 1, 0) == splits_before(counts, part, counts[part]));
    }
}

proof fn lemma_settled(spec: ScanSpec, ls: Seq<Look>, counts: Seq<int>)
    requires
        in_order(spec, ls),
        forall|p: int| 0 <= p < counts.len() ==> #[trigger] counts[p] >= 0,
        forall|k: int| 0 <= k < ls.len() ==> split_counts((#[trigger] ls[k]).before.tables@[spec.table as int]) == counts,
    ensures
        ({
            let at = place_after(spec, ls);
            &&& within(counts, at.0, at.1)
            &&& places(settled(spec, ls)) == splits_before(counts, at.0, at.1)
        }),
        looks_rows(spec, ls) == looks_rows(spec, settled(spec, ls)),
        looked_through(spec, ls) ==> place_after(spec, ls) == (counts.len() as int, 0int),
    decreases ls.len(),
{
    if ls.len() > 0 {
        let front = ls.drop_last();
        let l = ls.last();
        assert(ls[ls.len() - 1] == l);
        assert forall|k: int| 0 <= k < front.len() implies split_counts(
            (#[trigger] front[k]).before.tables@[spec.table as int],
        ) == counts by {
            assert(front[k] == ls[k]);
        }
        lemma_settled(spec, front, counts);
        let from = place_after(spec, front);
        lemma_sought(l.before.tables@[spec.table as int], from.0, from.1);
        let before = settled(spec, front);
        assert(before.push(l).drop_last() =~= before);
        assert(places(before.push(l)) =~= places(before).push((l.part, l.split)));
        assert(looks_rows(spec, front) + Seq::empty() =~= looks_rows(spec, front));
    } else {
        assert(places(settled(spec, ls)) =~= Seq::empty());
    }
}

/// A scan that is done has returned the rows of every split that was not ruled out, one split after
/// another and each once, as long as the table was always found divided into the same splits.
pub proof fn a_finished_scan_has_returned_every_split(s: Scan, counts: Seq<int>)
    requires
        s.wf(),
        s.spent(),
        forall|k: int|
            0 <= k < s.looks().len() ==> split_counts((#[trigger] s.looks()[k]).before.tables@[s.spec_of().table as int])
                == counts,
    ensures
        places(settled(s.spec_of(), s.looks())) == all_splits(counts),
        flat(s.returned()) == looks_rows(s.spec_of(), settled(s.spec_of(), s.looks())),
{
    let last = s.looks()[s.looks().len() - 1];
    assert(split_counts(last.before.tables@[s.spec_of().table as int]) == counts);
    lemma_settled(s.spec_of(), s.looks(), counts);
    assert(flat(s.returned()) + s.left_over() =~= flat(s.returned()));
}

// --- Sort ---------------------------------------------------------------------------------

/// A sort that is done has returned the rows of its input, each once, in the order of their keys, rows
/// of equal keys in the order in which they came; with a limit, the first ones of these.
pub proof fn a_finished_sort_has_returned_its_input_in_order(s: Sort) -> (order: Seq<int>)
    requires
        s.wf(),
        s.traced(),
        s.spent(),
    ensures
        s.limit == Some(0usize) ==> s.returned().len() == 0,
        s.limit != Some(0usize) ==> {
            let xs = s.input.op.returned();
            let ks = keys_of(s.keys@);
            &&& s.input.op.spent()
            &&& stable_order(order, flat(xs).len(), taken_rule(ks, sort_taken(ks, xs)))
            &&& flat(s.returned()) == limited(order, s.limit).map_values(|i: int| flat(xs)[i])
        },
{
    if s.limit == Some(0usize) {
        Seq::empty()
    } else {
        let xs = s.input.op.returned();
        assert forall|k: int| 0 <= k < xs.len() implies crate::exec::sort::sort_keys_value(
            keys_of(s.keys@),
            (#[trigger] xs[k]).types,
            xs[k].rows,
            keys_of(s.keys@).len() as int,
        ) is Ok by {
            assert(takes(s.plan(), xs[k]));
        }
        sorting_is_a_stable_permutation(keys_of(s.keys@), s.limit, xs)
    }
}

// --- Limit --------------------------------------------------------------------------------

/// A limit that is done has returned the rows of its input from the offset on, all of them or as many
/// as the limit says.
pub proof fn a_finished_limit_has_returned_a_stretch(l: Limit)
    requires
        l.wf(),
        l.traced(),
        l.spent(),
    ensures
        ({
            let rows = flat(l.input.op.returned());
            let from = limit_from(l.offset as int, rows.len() as int);
            let n = limit_total(l.limit, l.offset as int, rows.len() as int);
            &&& 0 <= from <= from + n <= rows.len()
            &&& flat(l.returned()) == rows.subrange(from, from + n)
            &&& l.input.op.spent() || l.limit == Some(n as u64)
        }),
{
    limiting_does_not_depend_on_batching(l.limit, l.offset as int, l.input.op.returned());
}

// --- DISTINCT ON --------------------------------------------------------------------------

/// `DISTINCT ON` that is done has returned, in their order, the rows of its input whose key no row
/// before them has.
pub proof fn a_finished_distinct_has_returned_the_first_rows(d: DistinctOn)
    requires
        d.wf(),
        d.traced(),
        d.spent(),
    ensures
        ({
            let xs = d.input_of().op.returned();
            let keys = keys_in(progs_of(d.keys_of()), xs);
            &&& keys.len() == flat(xs).len()
            &&& flat(d.returned()) == kept(flat(xs), Seq::new(keys.len(), |i: int| first_of_its_kind(keys, i)))
        }),
{
    let xs = d.input_of().op.returned();
    let progs = progs_of(d.keys_of());
    assert forall|k: int| 0 <= k < xs.len() implies crate::expr::programs_value(
        progs,
        (#[trigger] xs[k]).types,
        xs[k].rows,
        progs.len() as int,
    ) is Ok by {
        assert(takes(d.plan(), xs[k]));
    }
    distinct_on_returns_the_first_row_of_each_key(progs, xs);
}

// --- Set operations -----------------------------------------------------------------------

/// How often a row has come out of a set operation that is done follows from how often it came in on
/// either side.
pub proof fn a_finished_set_operation_has_counted_rows(s: SetOp, key: Seq<u8>)
    requires
        s.wf(),
        s.traced(),
        s.spent(),
    ensures
        total_tally(s.returned(), key) == set_count(
            s.op,
            s.all,
            total_tally(s.left.op.returned(), key),
            total_tally(s.right.op.returned(), key),
        ),
{
    let ls = s.left.op.returned();
    let rs = s.right.op.returned();
    if s.op is Union {
        assert(s.index@ =~= Seq::empty());
    }
    assert(set_gave(s.op, s.all, ls, rs, s.built@, s.returned()));
    set_operations_count_rows(s.op, s.all, ls, rs, s.built@, s.returned(), key);
}

} // verus!
