//! What joins return, row by row: how either input is cut into batches makes no difference, but
//! for the order in which left rows without a match come.

use crate::exec::batching::{lemma_programs_by_row, typed};
use crate::exec::join::{
    emits_unmatched_left, flagged, join_keys, matches_are_the_rows_with_the_key, nulls, null_at, passes, row_pairs,
};
use crate::exec::joined::{
    all_pairs, counts_as_matched, has_match, hit_by, hit_in, joined_left, joined_lot, keys_of_chunk, left_flags,
    lemma_passing_append, lot_of, match_rows, own_rows, pair_passes, pairs_from, partners, right_keys_of,
    rows_of_pairs, JoinV, Lot, Side,
};
use crate::exec::rowkey::col_keys;
use crate::exec::{flat, Chunk};
use crate::expr::{programs_value, ProgramV};
use crate::vector::{Ty, Val};
use vstd::prelude::*;

verus! {

/// A row as a batch.
pub open spec fn single(tys: Seq<Ty>, row: Seq<Val>) -> Chunk {
    Chunk { types: tys, rows: seq![row] }
}

/// The join key of a row, by expressions on it alone.
pub open spec fn join_key(progs: Seq<ProgramV>, tys: Seq<Ty>, row: Seq<Val>) -> Option<Seq<u8>> {
    keys_of_chunk(progs, single(tys, row))[0]
}

/// The expressions can be evaluated on every batch.
pub open spec fn evaluable(progs: Seq<ProgramV>, xs: Seq<Chunk>) -> bool {
    forall|k: int|
        0 <= k < xs.len() ==> programs_value(progs, (#[trigger] xs[k]).types, xs[k].rows, progs.len() as int) is Ok
}

proof fn lemma_front(progs: Seq<ProgramV>, tys: Seq<Ty>, xs: Seq<Chunk>)
    requires
        xs.len() > 0,
        typed(xs, tys),
        evaluable(progs, xs),
    ensures
        typed(xs.drop_last(), tys),
        evaluable(progs, xs.drop_last()),
        xs.last().types == tys,
        programs_value(progs, tys, xs.last().rows, progs.len() as int) is Ok,
{
    let front = xs.drop_last();
    assert(xs[xs.len() - 1] == xs.last());
    assert forall|k: int| 0 <= k < front.len() implies (#[trigger] front[k]).types == tys && programs_value(
        progs,
        front[k].types,
        front[k].rows,
        progs.len() as int,
    ) is Ok by {
        assert(front[k] == xs[k]);
    }
}

/// The key of a row does not depend on the other rows of its batch.
proof fn lemma_chunk_join_keys(progs: Seq<ProgramV>, c: Chunk, i: int)
    requires
        0 <= i < c.rows.len(),
        programs_value(progs, c.types, c.rows, progs.len() as int) is Ok,
    ensures
        keys_of_chunk(progs, c).len() == c.rows.len(),
        keys_of_chunk(progs, c)[i] == join_key(progs, c.types, c.rows[i]),
{
    let n = progs.len() as int;
    lemma_programs_by_row(progs, c.types, c.rows, i, n);
    let cols = programs_value(progs, c.types, c.rows, n)->Ok_0;
    let one = programs_value(progs, c.types, seq![c.rows[i]], n)->Ok_0;
    assert(null_at(cols, i) == null_at(one, 0)) by {
        if null_at(cols, i) {
            let k = choose|k: int| 0 <= k < cols.len() && (#[trigger] cols[k]).cells[i] is Null;
            assert(one[k].cells[0] is Null);
        }
        if null_at(one, 0) {
            let k = choose|k: int| 0 <= k < one.len() && (#[trigger] one[k]).cells[0] is Null;
            assert(cols[k].cells[i] is Null);
        }
    }
    assert(Seq::new(cols.len(), |k: int| cols[k].ty) =~= Seq::new(one.len(), |k: int| one[k].ty));
    assert(Seq::new(cols.len(), |k: int| cols[k].cells[i]) =~= Seq::new(one.len(), |k: int| one[k].cells[0]));
    assert(col_keys(cols, c.rows.len())[i] == col_keys(one, 1)[0]);
    assert(join_keys(cols, c.rows.len())[i] == join_keys(one, 1)[0]);
}

/// The keys of the right side are those of its rows.
pub proof fn right_keys_do_not_depend_on_batching(progs: Seq<ProgramV>, tys: Seq<Ty>, xs: Seq<Chunk>)
    requires
        progs.len() > 0,
        typed(xs, tys),
        evaluable(progs, xs),
    ensures
        right_keys_of(progs, xs) == flat(xs).map_values(|row: Seq<Val>| join_key(progs, tys, row)),
    decreases xs.len(),
{
    let f = |row: Seq<Val>| join_key(progs, tys, row);
    if xs.len() > 0 {
        let front = xs.drop_last();
        let c = xs.last();
        lemma_front(progs, tys, xs);
        right_keys_do_not_depend_on_batching(progs, tys, front);
        let keys = keys_of_chunk(progs, c);
        assert(keys =~= c.rows.map_values(f)) by {
            assert forall|i: int| 0 <= i < c.rows.len() implies #[trigger] keys[i] == f(c.rows[i]) by {
                lemma_chunk_join_keys(progs, c, i);
            }
        }
        assert(flat(xs).map_values(f) =~= flat(front).map_values(f) + c.rows.map_values(f));
    } else {
        assert(flat(xs).map_values(f) =~= Seq::empty());
    }
}

// --- Left rows ----------------------------------------------------------------------------

/// A left row and a right row match: their keys agree, and the residual holds of them.
pub open spec fn matched(q: JoinV, s: Side, tys: Seq<Ty>, row: Seq<Val>, x: int) -> bool {
    &&& partners(s, join_key(q.left_keys, tys, row)).contains(x)
    &&& passes(q.residual, tys + s.types, row + s.rows[x])
}

/// The right rows that are tried for a key are those that have it. Without keys they are all.
pub proof fn partners_have_the_key(s: Side, k: Option<Seq<u8>>, x: int)
    requires
        s.keys.len() == s.rows.len(),
    ensures
        partners(s, k).contains(x) <==> 0 <= x < s.rows.len() && (s.nested || k is Some && s.keys[x] == k),
{
    if s.nested {
        if 0 <= x < s.rows.len() {
            assert(partners(s, k)[x] == x);
        }
    } else if let Some(k) = k {
        matches_are_the_rows_with_the_key(s.keys, s.rows.len() as int, k, x);
    }
}

/// What a join returns for left rows taken one by one.
pub open spec fn joined_each(q: JoinV, s: Side, tys: Seq<Ty>, rows: Seq<Seq<Val>>) -> Seq<Seq<Val>>
    decreases rows.len(),
{
    if rows.len() == 0 {
        Seq::empty()
    } else {
        joined_lot(q, s, lot_of(q.left_keys, single(tys, rows[0]))) + joined_each(q, s, tys, rows.skip(1))
    }
}

proof fn lemma_each_adds(q: JoinV, s: Side, tys: Seq<Ty>, a: Seq<Seq<Val>>, b: Seq<Seq<Val>>)
    ensures
        joined_each(q, s, tys, a + b) == joined_each(q, s, tys, a) + joined_each(q, s, tys, b),
    decreases a.len(),
{
    if a.len() == 0 {
        assert(a + b =~= b);
        assert(joined_each(q, s, tys, a) + joined_each(q, s, tys, b) =~= joined_each(q, s, tys, b));
    } else {
        lemma_each_adds(q, s, tys, a.skip(1), b);
        assert((a + b).skip(1) =~= a.skip(1) + b);
        assert((a + b)[0] == a[0]);
        let first = joined_lot(q, s, lot_of(q.left_keys, single(tys, a[0])));
        assert(first + (joined_each(q, s, tys, a.skip(1)) + joined_each(q, s, tys, b)) =~= first + joined_each(
            q,
            s,
            tys,
            a.skip(1),
        ) + joined_each(q, s, tys, b));
    }
}

/// The matches of a left row are the same alone and in its batch.
proof fn lemma_row_matches(q: JoinV, s: Side, l: Lot, one: Lot, i: int)
    requires
        0 <= i < l.rows.len(),
        l.keys.len() == l.rows.len(),
        one.rows == seq![l.rows[i]],
        one.keys == seq![l.keys[i]],
        one.types == l.types,
    ensures
        match_rows(q, s, one, all_pairs(s, one)) == match_rows(q, s, l, row_pairs(i, partners(s, l.keys[i]))),
        has_match(q, s, one, 0) == has_match(q, s, l, i),
        counts_as_matched(q, s, one, 0) == counts_as_matched(q, s, l, i),
{
    let cs = partners(s, l.keys[i]);
    let a = row_pairs(i, cs);
    let b = row_pairs(0, cs);
    assert(pairs_from(s, one.keys, 1) =~= Seq::empty());
    assert(all_pairs(s, one) =~= b);
    assert(rows_of_pairs(s, l, a) =~= rows_of_pairs(s, one, b));
    assert(Seq::new(a.len(), |k: int| pair_passes(q, s, l, a[k])) =~= Seq::new(
        b.len(),
        |k: int| pair_passes(q, s, one, b[k]),
    ));
    assert forall|r: int| pair_passes(q, s, one, (0int, r)) == #[trigger] pair_passes(q, s, l, (i, r)) by {}
    if has_match(q, s, l, i) {
        let r = choose|r: int| #[trigger] partners(s, l.keys[i]).contains(r) && pair_passes(q, s, l, (i, r));
        assert(partners(s, one.keys[0]).contains(r) && pair_passes(q, s, one, (0int, r)));
    }
    if has_match(q, s, one, 0) {
        let r = choose|r: int| #[trigger] partners(s, one.keys[0]).contains(r) && pair_passes(q, s, one, (0int, r));
        assert(partners(s, l.keys[i]).contains(r) && pair_passes(q, s, l, (i, r)));
    }
}

/// The rows that stand by themselves, from a row on: this one if it is one of them, and those
/// behind it.
proof fn lemma_own_step(q: JoinV, s: Side, l: Lot, one: Lot, i: int)
    requires
        0 <= i < l.rows.len(),
        one.rows == seq![l.rows[i]],
        one.types == l.types,
        counts_as_matched(q, s, one, 0) == counts_as_matched(q, s, l, i),
    ensures
        own_rows(q, s, l, i) == own_rows(q, s, one, 0) + own_rows(q, s, l, i + 1),
{
    let semi = q.kind is Semi;
    let flags = left_flags(q, s, l);
    let own = left_flags(q, s, one);
    assert(flags[i] == own[0]);
    assert(flagged(own, semi, 1) =~= Seq::empty());
    if emits_unmatched_left(q.kind) || semi {
        let idx = flagged(flags, semi, i);
        let rest = flagged(flags, semi, i + 1);
        let first = flagged(own, semi, 0);
        if flags[i] == semi {
            assert(first =~= seq![0int]);
            assert(idx =~= seq![i] + rest);
        } else {
            assert(first =~= Seq::empty());
            assert(idx =~= rest);
        }
        assert(own_rows(q, s, l, i) =~= own_rows(q, s, one, 0) + own_rows(q, s, l, i + 1));
    } else {
        assert(own_rows(q, s, l, i) =~= own_rows(q, s, one, 0) + own_rows(q, s, l, i + 1));
    }
}

/// What is left of a batch, from a row on, is what its rows give one by one.
proof fn lemma_lot_by_rows(q: JoinV, s: Side, c: Chunk, i: int)
    requires
        0 <= i <= c.rows.len(),
        programs_value(q.left_keys, c.types, c.rows, q.left_keys.len() as int) is Ok,
    ensures
        ({
            let l = lot_of(q.left_keys, c);
            (match_rows(q, s, l, pairs_from(s, l.keys, i)) + own_rows(q, s, l, i)).to_multiset() == joined_each(
                q,
                s,
                c.types,
                c.rows.skip(i),
            ).to_multiset()
        }),
    decreases c.rows.len() - i,
{
    let l = lot_of(q.left_keys, c);
    let rest = match_rows(q, s, l, pairs_from(s, l.keys, i));
    if i == c.rows.len() {
        if c.rows.len() > 0 {
            lemma_chunk_join_keys(q.left_keys, c, 0);
        } else {
            assert(l.keys.len() == 0);
        }
        assert(flagged(left_flags(q, s, l), q.kind is Semi, i) =~= Seq::empty());
        assert(own_rows(q, s, l, i) =~= Seq::empty());
        assert(rest =~= Seq::empty());
        assert(c.rows.skip(i) =~= Seq::empty());
        assert(rest + own_rows(q, s, l, i) =~= joined_each(q, s, c.types, c.rows.skip(i)));
    } else {
        lemma_chunk_join_keys(q.left_keys, c, i);
        let one = lot_of(q.left_keys, single(c.types, c.rows[i]));
        lemma_programs_by_row(q.left_keys, c.types, c.rows, i, q.left_keys.len() as int);
        assert(one.keys =~= seq![l.keys[i]]);
        lemma_row_matches(q, s, l, one, i);
        lemma_own_step(q, s, l, one, i);
        lemma_lot_by_rows(q, s, c, i + 1);
        let mine = match_rows(q, s, one, all_pairs(s, one));
        let more = match_rows(q, s, l, pairs_from(s, l.keys, i + 1));
        lemma_passing_append(q, s, l, row_pairs(i, partners(s, l.keys[i])), pairs_from(s, l.keys, i + 1));
        assert(rest =~= mine + more);
        let o = own_rows(q, s, one, 0);
        let os = own_rows(q, s, l, i + 1);
        let each = joined_each(q, s, c.types, c.rows.skip(i + 1));
        assert(c.rows.skip(i).skip(1) =~= c.rows.skip(i + 1));
        assert(c.rows.skip(i)[0] == c.rows[i]);
        assert(joined_each(q, s, c.types, c.rows.skip(i)) == (mine + o) + each);
        vstd::seq_lib::lemma_multiset_commutative(mine + more, o + os);
        vstd::seq_lib::lemma_multiset_commutative(mine, more);
        vstd::seq_lib::lemma_multiset_commutative(o, os);
        vstd::seq_lib::lemma_multiset_commutative(more, os);
        vstd::seq_lib::lemma_multiset_commutative(mine, o);
        vstd::seq_lib::lemma_multiset_commutative(mine + o, each);
        assert((rest + (o + os)).to_multiset() =~= ((mine + o) + each).to_multiset());
    }
}

/// Left rows are joined one by one: whatever batches they come in, a join returns for them what
/// it returns for each of them alone, as often, though not always in the same order.
pub proof fn left_rows_are_joined_one_by_one(q: JoinV, s: Side, tys: Seq<Ty>, xs: Seq<Chunk>)
    requires
        typed(xs, tys),
        evaluable(q.left_keys, xs),
    ensures
        joined_left(q, s, xs).to_multiset() == joined_each(q, s, tys, flat(xs)).to_multiset(),
    decreases xs.len(),
{
    if xs.len() > 0 {
        let front = xs.drop_last();
        let c = xs.last();
        lemma_front(q.left_keys, tys, xs);
        left_rows_are_joined_one_by_one(q, s, tys, front);
        lemma_lot_by_rows(q, s, c, 0);
        assert(c.rows.skip(0) =~= c.rows);
        lemma_each_adds(q, s, tys, flat(front), c.rows);
        let l = lot_of(q.left_keys, c);
        vstd::seq_lib::lemma_multiset_commutative(joined_left(q, s, front), joined_lot(q, s, l));
        vstd::seq_lib::lemma_multiset_commutative(
            joined_each(q, s, tys, flat(front)),
            joined_each(q, s, tys, c.rows),
        );
    } else {
        assert(flat(xs) =~= Seq::empty());
        assert(joined_left(q, s, xs) =~= joined_each(q, s, tys, flat(xs)));
    }
}

/// What an outer or a half join returns of a left row by itself: an outer join the row with
/// NULLs behind it exactly if nothing matches, a semi join the row exactly if something does, an
/// anti join the row exactly if nothing does. `NOT IN` is unknown of a row whose key has a NULL
/// in it, unless the list is empty, and then the row is not returned.
pub proof fn a_left_row_stands_alone(q: JoinV, s: Side, tys: Seq<Ty>, row: Seq<Val>)
    requires
        programs_value(q.left_keys, tys, seq![row], q.left_keys.len() as int) is Ok,
    ensures
        ({
            let own = own_rows(q, s, lot_of(q.left_keys, single(tys, row)), 0);
            let hit = exists|x: int| matched(q, s, tys, row, x);
            let open = !s.nested && s.rows.len() > 0 && join_key(q.left_keys, tys, row) is None;
            if q.kind is Left || q.kind is Full {
                own == if hit {
                    Seq::empty()
                } else {
                    seq![row + nulls(q.right_types.len())]
                }
            } else if q.kind is Semi {
                own == if hit {
                    seq![row]
                } else {
                    Seq::empty()
                }
            } else if q.kind is Anti {
                own == if hit {
                    Seq::empty()
                } else {
                    seq![row]
                }
            } else if q.kind is AntiNullAware {
                own == if hit || open {
                    Seq::empty()
                } else {
                    seq![row]
                }
            } else {
                own == Seq::<Seq<Val>>::empty()
            }
        }),
{
    let l = lot_of(q.left_keys, single(tys, row));
    let own = own_rows(q, s, l, 0);
    let hit = exists|x: int| matched(q, s, tys, row, x);
    let counted = counts_as_matched(q, s, l, 0);
    assert(l.rows[0] == row);
    if hit {
        let x = choose|x: int| matched(q, s, tys, row, x);
        assert(partners(s, l.keys[0]).contains(x) && pair_passes(q, s, l, (0int, x)));
    }
    if has_match(q, s, l, 0) {
        let x = choose|x: int| #[trigger] partners(s, l.keys[0]).contains(x) && pair_passes(q, s, l, (0int, x));
        assert(matched(q, s, tys, row, x));
    }
    let flags = left_flags(q, s, l);
    assert(flags[0] == counted);
    assert(flagged(flags, q.kind is Semi, 1) =~= Seq::empty());
    if counted == (q.kind is Semi) {
        assert(flagged(flags, q.kind is Semi, 0) =~= seq![0int]);
    } else {
        assert(flagged(flags, q.kind is Semi, 0) =~= Seq::empty());
    }
    assert(row + Seq::<Val>::empty() =~= row);
    if emits_unmatched_left(q.kind) || q.kind is Semi {
        if counted == (q.kind is Semi) {
            assert(own.len() == 1);
            assert(own =~= seq![own[0]]);
        } else {
            assert(own =~= Seq::empty());
        }
    }
}

// --- Right rows ---------------------------------------------------------------------------

proof fn lemma_pair_listed(s: Side, keys: Seq<Option<Seq<u8>>>, from: int, p: (int, int))
    requires
        0 <= from,
    ensures
        pairs_from(s, keys, from).contains(p) <==> from <= p.0 < keys.len() && partners(s, keys[p.0]).contains(p.1),
    decreases keys.len() - from,
{
    if from < keys.len() {
        lemma_pair_listed(s, keys, from + 1, p);
        let cs = partners(s, keys[from]);
        let a = row_pairs(from, cs);
        let b = pairs_from(s, keys, from + 1);
        if a.contains(p) {
            let j = choose|j: int| 0 <= j < a.len() && a[j] == p;
            assert(cs[j] == p.1);
            assert((a + b)[j] == p);
        }
        if p.0 == from && cs.contains(p.1) {
            let j = choose|j: int| 0 <= j < cs.len() && cs[j] == p.1;
            assert(a[j] == p);
            assert((a + b)[j] == p);
        }
        if b.contains(p) {
            let j = choose|j: int| 0 <= j < b.len() && b[j] == p;
            assert((a + b)[a.len() + j] == p);
        }
        if (a + b).contains(p) {
            let j = choose|j: int| 0 <= j < (a + b).len() && (a + b)[j] == p;
            if j < a.len() {
                assert(a[j] == p);
                assert(cs.contains(p.1));
            } else {
                assert(b[j - a.len()] == p);
            }
        }
    }
}

/// A right row counts as matched exactly if some left row matches it, whatever batches the left
/// rows come in.
pub proof fn right_rows_are_matched_by_left_rows(q: JoinV, s: Side, tys: Seq<Ty>, xs: Seq<Chunk>, x: int)
    requires
        typed(xs, tys),
        evaluable(q.left_keys, xs),
    ensures
        hit_by(q, s, xs, x) <==> exists|i: int|
            0 <= i < flat(xs).len() && matched(q, s, tys, #[trigger] flat(xs)[i], x),
    decreases xs.len(),
{
    if xs.len() > 0 {
        let front = xs.drop_last();
        let c = xs.last();
        lemma_front(q.left_keys, tys, xs);
        right_rows_are_matched_by_left_rows(q, s, tys, front, x);
        let l = lot_of(q.left_keys, c);
        let ps = all_pairs(s, l);
        if c.rows.len() > 0 {
            lemma_chunk_join_keys(q.left_keys, c, 0);
        }
        let m = flat(front).len() as int;
        if hit_by(q, s, xs, x) {
            if hit_by(q, s, front, x) {
                let i = choose|i: int| 0 <= i < flat(front).len() && matched(q, s, tys, #[trigger] flat(front)[i], x);
                assert(flat(xs)[i] == flat(front)[i]);
            } else {
                let k = choose|k: int| 0 <= k < ps.len() && (#[trigger] ps[k]).1 == x && pair_passes(q, s, l, ps[k]);
                lemma_pair_listed(s, l.keys, 0, ps[k]);
                assert(ps.contains(ps[k]));
                let i = ps[k].0;
                lemma_chunk_join_keys(q.left_keys, c, i);
                assert(flat(xs)[m + i] == c.rows[i]);
                assert(matched(q, s, tys, flat(xs)[m + i], x));
            }
        }
        if exists|i: int| 0 <= i < flat(xs).len() && matched(q, s, tys, #[trigger] flat(xs)[i], x) {
            let i = choose|i: int| 0 <= i < flat(xs).len() && matched(q, s, tys, #[trigger] flat(xs)[i], x);
            if i < m {
                assert(flat(front)[i] == flat(xs)[i]);
                assert(hit_by(q, s, front, x));
            } else {
                let j = i - m;
                assert(flat(xs)[i] == c.rows[j]);
                lemma_chunk_join_keys(q.left_keys, c, j);
                lemma_pair_listed(s, l.keys, 0, (j, x));
                let k = choose|k: int| 0 <= k < ps.len() && ps[k] == (j, x);
                assert(ps[k].1 == x && pair_passes(q, s, l, ps[k]));
                assert(hit_in(q, s, l, ps, x));
            }
        }
    } else {
        assert(flat(xs) =~= Seq::empty());
    }
}

} // verus!
