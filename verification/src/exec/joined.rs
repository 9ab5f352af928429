//! What a join returns for the batches of its two inputs.

use crate::error::Code;
use crate::exec::join::{
    candidates, emits_unmatched_left, emits_unmatched_right, flagged, is_match, join_keys, matches_below, nulls,
    pair_row, pair_types, passes, pending, residual_keep, row_pairs, unknown, BuildSide, Probe,
};
use crate::exec::{flat, Chunk};
use crate::expr::{programs_run_row_by_row, programs_value, ProgramV};
use crate::plan::JoinKind;
use crate::vector::{kept, lemma_kept_append, row_at, Ty, Val};
use vstd::prelude::*;

verus! {

/// What a join is asked for.
pub struct JoinV {
    pub kind: JoinKind,
    pub left_keys: Seq<ProgramV>,
    pub right_keys: Seq<ProgramV>,
    pub residual: Option<ProgramV>,
    pub left_types: Seq<Ty>,
    pub right_types: Seq<Ty>,
}

/// The right side: its rows with their keys.
#[verifier::ext_equal]
pub struct Side {
    /// Whether there are no keys, so that every row is a candidate.
    pub nested: bool,
    pub types: Seq<Ty>,
    pub rows: Seq<Seq<Val>>,
    pub keys: Seq<Option<Seq<u8>>>,
}

/// A left batch: its rows with their keys.
#[verifier::ext_equal]
pub struct Lot {
    pub types: Seq<Ty>,
    pub rows: Seq<Seq<Val>>,
    pub keys: Seq<Option<Seq<u8>>>,
}

/// The keys of a batch's rows.
pub open spec fn keys_of_chunk(progs: Seq<ProgramV>, c: Chunk) -> Seq<Option<Seq<u8>>> {
    match programs_value(progs, c.types, c.rows, progs.len() as int) {
        Ok(cols) => join_keys(cols, c.rows.len()),
        Err(_) => Seq::new(c.rows.len(), |i: int| None),
    }
}

pub open spec fn lot_of(progs: Seq<ProgramV>, c: Chunk) -> Lot {
    Lot { types: c.types, rows: c.rows, keys: keys_of_chunk(progs, c) }
}

/// Whether the keys of the rows of batches can be computed.
pub open spec fn all_keyed(progs: Seq<ProgramV>, xs: Seq<Chunk>) -> bool {
    forall|k: int|
        0 <= k < xs.len() && (#[trigger] xs[k]).rows.len() > 0 ==> programs_value(
            progs,
            xs[k].types,
            xs[k].rows,
            progs.len() as int,
        ) is Ok
}

pub(crate) proof fn lemma_keyed_push(progs: Seq<ProgramV>, xs: Seq<Chunk>, c: Chunk)
    requires
        all_keyed(progs, xs),
        c.rows.len() > 0 ==> programs_value(progs, c.types, c.rows, progs.len() as int) is Ok,
    ensures
        all_keyed(progs, xs.push(c)),
{
    let ys = xs.push(c);
    assert forall|k: int| 0 <= k < ys.len() && (#[trigger] ys[k]).rows.len() > 0 implies programs_value(
        progs,
        ys[k].types,
        ys[k].rows,
        progs.len() as int,
    ) is Ok by {
        if k < xs.len() {
            assert(ys[k] == xs[k]);
        }
    }
}

/// The keys of the rows of right batches. Without keys there are none.
pub open spec fn right_keys_of(progs: Seq<ProgramV>, xs: Seq<Chunk>) -> Seq<Option<Seq<u8>>>
    decreases xs.len(),
{
    if xs.len() == 0 {
        Seq::empty()
    } else {
        right_keys_of(progs, xs.drop_last()) + if progs.len() == 0 {
            Seq::new(xs.last().rows.len(), |i: int| None)
        } else {
            keys_of_chunk(progs, xs.last())
        }
    }
}

/// The right side that batches make up.
pub open spec fn side_of(q: JoinV, xs: Seq<Chunk>) -> Side {
    Side {
        nested: q.right_keys.len() == 0,
        types: q.right_types,
        rows: flat(xs),
        keys: right_keys_of(q.right_keys, xs),
    }
}

/// Whether a key of the right side has a NULL in it.
pub open spec fn has_null_key(s: Side) -> bool {
    !s.nested && exists|i: int| 0 <= i < s.keys.len() && (#[trigger] s.keys[i]) is None
}

/// The right rows to be paired with a key, in the order in which they are tried.
pub open spec fn partners(s: Side, k: Option<Seq<u8>>) -> Seq<int> {
    if s.nested {
        Seq::new(s.rows.len(), |i: int| i)
    } else {
        match k {
            Some(k) => matches_below(s.keys, s.rows.len() as int, k),
            None => Seq::empty(),
        }
    }
}

/// The pairs of the left rows from a row on, with their partners.
pub open spec fn pairs_from(s: Side, keys: Seq<Option<Seq<u8>>>, row: int) -> Seq<(int, int)>
    decreases keys.len() - row,
{
    if row >= keys.len() {
        Seq::empty()
    } else {
        row_pairs(row, partners(s, keys[row])) + pairs_from(s, keys, row + 1)
    }
}

pub open spec fn all_pairs(s: Side, l: Lot) -> Seq<(int, int)> {
    pairs_from(s, l.keys, 0)
}

/// Whether the residual holds of a pair.
pub open spec fn pair_passes(q: JoinV, s: Side, l: Lot, p: (int, int)) -> bool {
    passes(q.residual, l.types + s.types, l.rows[p.0] + s.rows[p.1])
}

/// The rows of pairs, side by side.
pub open spec fn rows_of_pairs(s: Side, l: Lot, ps: Seq<(int, int)>) -> Seq<Seq<Val>> {
    Seq::new(ps.len(), |k: int| l.rows[ps[k].0] + s.rows[ps[k].1])
}

/// Those of the pairs of which the residual holds.
pub open spec fn passing_rows(q: JoinV, s: Side, l: Lot, ps: Seq<(int, int)>) -> Seq<Seq<Val>> {
    kept(rows_of_pairs(s, l, ps), Seq::new(ps.len(), |k: int| pair_passes(q, s, l, ps[k])))
}

/// Whether a left row has a match.
pub open spec fn has_match(q: JoinV, s: Side, l: Lot, i: int) -> bool {
    exists|r: int| #[trigger] partners(s, l.keys[i]).contains(r) && pair_passes(q, s, l, (i, r))
}

/// Whether a left row counts as matched: it has a match, or `NOT IN` is unknown of it.
pub open spec fn counts_as_matched(q: JoinV, s: Side, l: Lot, i: int) -> bool {
    ||| q.kind is AntiNullAware && !s.nested && s.rows.len() > 0 && l.keys[i] is None
    ||| has_match(q, s, l, i)
}

pub open spec fn left_flags(q: JoinV, s: Side, l: Lot) -> Seq<bool> {
    Seq::new(l.rows.len(), |i: int| counts_as_matched(q, s, l, i))
}

/// The left rows returned by themselves, from a row on: the unmatched ones, with NULLs behind
/// them in an outer join, or the matched ones.
pub open spec fn own_rows(q: JoinV, s: Side, l: Lot, from: int) -> Seq<Seq<Val>> {
    let semi = q.kind is Semi;
    let pad = if q.kind.left_only() {
        Seq::empty()
    } else {
        nulls(q.right_types.len())
    };
    if emits_unmatched_left(q.kind) || semi {
        let idx = flagged(left_flags(q, s, l), semi, from);
        Seq::new(idx.len(), |k: int| l.rows[idx[k]] + pad)
    } else {
        Seq::empty()
    }
}

/// The matches among pairs, where matches are returned.
pub open spec fn match_rows(q: JoinV, s: Side, l: Lot, ps: Seq<(int, int)>) -> Seq<Seq<Val>> {
    if q.kind.left_only() {
        Seq::empty()
    } else {
        passing_rows(q, s, l, ps)
    }
}

/// What is returned for a left batch.
pub open spec fn joined_lot(q: JoinV, s: Side, l: Lot) -> Seq<Seq<Val>> {
    match_rows(q, s, l, all_pairs(s, l)) + own_rows(q, s, l, 0)
}

/// What is returned for left batches.
pub open spec fn joined_left(q: JoinV, s: Side, xs: Seq<Chunk>) -> Seq<Seq<Val>>
    decreases xs.len(),
{
    if xs.len() == 0 {
        Seq::empty()
    } else {
        joined_left(q, s, xs.drop_last()) + joined_lot(q, s, lot_of(q.left_keys, xs.last()))
    }
}

/// Whether a right row is in one of the pairs of which the residual holds.
pub open spec fn hit_in(q: JoinV, s: Side, l: Lot, ps: Seq<(int, int)>, x: int) -> bool {
    exists|k: int| 0 <= k < ps.len() && (#[trigger] ps[k]).1 == x && pair_passes(q, s, l, ps[k])
}

/// Whether a right row matches a row of the left batches.
pub open spec fn hit_by(q: JoinV, s: Side, xs: Seq<Chunk>, x: int) -> bool
    decreases xs.len(),
{
    if xs.len() == 0 {
        false
    } else {
        let l = lot_of(q.left_keys, xs.last());
        hit_by(q, s, xs.drop_last(), x) || hit_in(q, s, l, all_pairs(s, l), x)
    }
}

pub open spec fn right_flags(q: JoinV, s: Side, xs: Seq<Chunk>) -> Seq<bool> {
    Seq::new(s.rows.len(), |x: int| hit_by(q, s, xs, x))
}

/// The right rows that match nothing, from a row on, with NULLs before them.
pub open spec fn right_rows(q: JoinV, s: Side, xs: Seq<Chunk>, from: int) -> Seq<Seq<Val>> {
    let idx = flagged(right_flags(q, s, xs), false, from);
    Seq::new(idx.len(), |k: int| nulls(q.left_types.len()) + s.rows[idx[k]])
}

/// What a join returns. `NOT IN` returns nothing if the list has a NULL.
pub open spec fn joined(q: JoinV, s: Side, xs: Seq<Chunk>) -> Seq<Seq<Val>> {
    if q.kind is AntiNullAware && has_null_key(s) {
        Seq::empty()
    } else {
        joined_left(q, s, xs) + if emits_unmatched_right(q.kind) {
            right_rows(q, s, xs, 0)
        } else {
            Seq::empty()
        }
    }
}

// --- How the operator's state stands for this -------------------------------------------

impl BuildSide {
    pub open spec fn side(&self) -> Side {
        Side { nested: self.nested, types: self.types(), rows: self.row_vals(), keys: self.keys@ }
    }
}

impl Probe {
    pub open spec fn lot(&self) -> Lot {
        Lot { types: self.batch.types(), rows: self.batch.rows(), keys: self.left_keys() }
    }
}

pub(crate) proof fn lemma_partners(b: BuildSide, k: Option<Seq<u8>>)
    ensures
        candidates(b, k) == partners(b.side(), k),
{
    assert(candidates(b, k) =~= partners(b.side(), k));
}

/// All pairs are pending before the first is tried.
pub(crate) proof fn lemma_all_pending(b: BuildSide, keys: Seq<Option<Seq<u8>>>, m: Seq<bool>, row: int)
    ensures
        pending(b, keys, m, false, row, None) == pairs_from(b.side(), keys, row),
    decreases keys.len() - row,
{
    if row < keys.len() {
        lemma_all_pending(b, keys, m, row + 1);
        lemma_partners(b, keys[row]);
    }
}

/// Where a left row can count more than once, the flags do not decide what is pending.
pub(crate) proof fn lemma_pending_any_flags(
    b: BuildSide,
    keys: Seq<Option<Seq<u8>>>,
    m: Seq<bool>,
    m2: Seq<bool>,
    row: int,
    cursor: Option<u32>,
)
    ensures
        pending(b, keys, m, false, row, cursor) == pending(b, keys, m2, false, row, cursor),
    decreases keys.len() - row,
{
    if row < keys.len() {
        lemma_pending_any_flags(b, keys, m, m2, row + 1, None);
    }
}

pub(crate) proof fn lemma_passing_append(q: JoinV, s: Side, l: Lot, a: Seq<(int, int)>, b: Seq<(int, int)>)
    ensures
        passing_rows(q, s, l, a + b) == passing_rows(q, s, l, a) + passing_rows(q, s, l, b),
{
    let f = Seq::new(a.len(), |k: int| pair_passes(q, s, l, a[k]));
    let g = Seq::new(b.len(), |k: int| pair_passes(q, s, l, b[k]));
    lemma_kept_append(rows_of_pairs(s, l, a), rows_of_pairs(s, l, b), f, g);
    assert(rows_of_pairs(s, l, a + b) =~= rows_of_pairs(s, l, a) + rows_of_pairs(s, l, b));
    assert(Seq::new((a + b).len(), |k: int| pair_passes(q, s, l, (a + b)[k])) =~= f + g);
}

/// A left batch without rows gives nothing.
pub(crate) proof fn lemma_empty_lot(q: JoinV, s: Side, c: Chunk)
    requires
        c.rows.len() == 0,
    ensures
        joined_lot(q, s, lot_of(q.left_keys, c)) == Seq::<Seq<Val>>::empty(),
        all_pairs(s, lot_of(q.left_keys, c)).len() == 0,
{
    let l = lot_of(q.left_keys, c);
    assert(l.keys.len() == 0);
    assert(all_pairs(s, l) =~= Seq::empty());
    assert(joined_lot(q, s, l) =~= Seq::empty());
}

/// The rows and flags that the residual gives on the next pairs are those meant.
pub(crate) proof fn lemma_chunk_meant(q: JoinV, b: BuildSide, p: Probe, ps: Seq<(int, int)>, keep: Seq<bool>)
    requires
        p.batch.wf(),
        p.batch.sel is None,
        forall|k: int|
            0 <= k < ps.len() ==> 0 <= (#[trigger] ps[k]).0 < p.rows() && 0 <= ps[k].1 < b.rows,
        residual_keep(
            q.residual,
            pair_types(b, p),
            Seq::new(ps.len(), |k: int| pair_row(b, p, ps[k].0, ps[k].1)),
        ) == Ok::<Seq<bool>, Code>(keep),
    ensures
        Seq::new(ps.len(), |k: int| pair_row(b, p, ps[k].0, ps[k].1)) == rows_of_pairs(b.side(), p.lot(), ps),
        keep == Seq::new(ps.len(), |k: int| pair_passes(q, b.side(), p.lot(), ps[k])),
{
    let rows = Seq::new(ps.len(), |k: int| pair_row(b, p, ps[k].0, ps[k].1));
    let tys = pair_types(b, p);
    assert forall|k: int| 0 <= k < ps.len() implies #[trigger] rows[k] == rows_of_pairs(b.side(), p.lot(), ps)[k] by {
        assert(p.batch.rows()[ps[k].0] == row_at(p.batch.cols@, ps[k].0));
        assert(b.row_vals()[ps[k].1] == row_at(b.cols@, ps[k].1));
    }
    assert(rows =~= rows_of_pairs(b.side(), p.lot(), ps));
    assert forall|k: int| 0 <= k < ps.len() implies (#[trigger] keep[k]) == pair_passes(q, b.side(), p.lot(), ps[k]) by {
        match q.residual {
            Some(prog) => {
                programs_run_row_by_row(prog, tys, rows, k);
            },
            None => {},
        }
        assert(rows[k] == rows_of_pairs(b.side(), p.lot(), ps)[k]);
    }
    assert(keep =~= Seq::new(ps.len(), |k: int| pair_passes(q, b.side(), p.lot(), ps[k])));
}

/// Once no pair is left, the flags of the left rows are those meant.
pub(crate) proof fn lemma_left_flags(q: JoinV, b: BuildSide, p: Probe, once: bool)
    requires
        b.wf(),
        p.batch.wf(),
        p.batch.sel is None,
        p.matched@.len() == p.rows(),
        crate::exec::join::flags_ok(b, p, q.residual, once, q.kind is AntiNullAware),
        pending(b, p.left_keys(), p.matched@, once, p.row as int, p.cursor).len() == 0,
    ensures
        p.matched@ == left_flags(q, b.side(), p.lot()),
{
    let s = b.side();
    let l = p.lot();
    assert forall|i: int| 0 <= i < p.rows() implies (#[trigger] p.matched@[i]) == counts_as_matched(q, s, l, i) by {
        crate::exec::join::rows_are_flagged_exactly_if_matched(
            b,
            p,
            q.residual,
            once,
            q.kind is AntiNullAware,
            i,
        );
        lemma_partners(b, l.keys[i]);
        assert forall|r: int| is_match(b, p, q.residual, i, r) == (#[trigger] partners(s, l.keys[i]).contains(r)
            && pair_passes(q, s, l, (i, r))) by {
            if partners(s, l.keys[i]).contains(r) {
                crate::exec::join::candidates_are_the_rows_with_the_key(b, l.keys[i], r);
                assert(b.row_vals()[r] == row_at(b.cols@, r));
                assert(p.batch.rows()[i] == row_at(p.batch.cols@, i));
            }
        }
        if has_match(q, s, l, i) {
            let r = choose|r: int| #[trigger] partners(s, l.keys[i]).contains(r) && pair_passes(q, s, l, (i, r));
            assert(is_match(b, p, q.residual, i, r));
        }
        if p.matched@[i] && !unknown(b, p, q.kind is AntiNullAware, i) {
            let r = choose|r: int| #[trigger] is_match(b, p, q.residual, i, r);
            assert(partners(s, l.keys[i]).contains(r));
        }
    }
    assert(p.matched@ =~= left_flags(q, s, l));
}

/// Every pair is one of a left row and a right row.
pub(crate) proof fn lemma_pairs_in_range(s: Side, keys: Seq<Option<Seq<u8>>>, row: int)
    requires
        0 <= row,
        s.keys.len() == s.rows.len(),
    ensures
        forall|k: int|
            0 <= k < pairs_from(s, keys, row).len() ==> row <= (#[trigger] pairs_from(s, keys, row)[k]).0 < keys.len()
                && 0 <= pairs_from(s, keys, row)[k].1 < s.rows.len(),
    decreases keys.len() - row,
{
    if row < keys.len() {
        lemma_pairs_in_range(s, keys, row + 1);
        let cs = partners(s, keys[row]);
        let head = row_pairs(row, cs);
        let rest = pairs_from(s, keys, row + 1);
        let all = pairs_from(s, keys, row);
        assert forall|k: int| 0 <= k < all.len() implies row <= (#[trigger] all[k]).0 < keys.len() && 0 <= all[k].1
            < s.rows.len() by {
            if k < head.len() {
                assert(all[k] == (row, cs[k]));
                if !s.nested {
                    assert(cs.contains(cs[k]));
                    crate::exec::join::matches_are_the_rows_with_the_key(
                        s.keys,
                        s.rows.len() as int,
                        keys[row]->0,
                        cs[k],
                    );
                }
            } else {
                assert(all[k] == rest[k - head.len()]);
            }
        }
    }
}

/// A right row is in one of the pairs joined together if it is in one of either.
pub(crate) proof fn lemma_hit_append(q: JoinV, s: Side, l: Lot, a: Seq<(int, int)>, b: Seq<(int, int)>, x: int)
    ensures
        hit_in(q, s, l, a + b, x) <==> hit_in(q, s, l, a, x) || hit_in(q, s, l, b, x),
{
    let all = a + b;
    if hit_in(q, s, l, all, x) {
        let k = choose|k: int| 0 <= k < all.len() && (#[trigger] all[k]).1 == x && pair_passes(q, s, l, all[k]);
        if k < a.len() {
            assert(a[k] == all[k]);
        } else {
            assert(b[k - a.len()] == all[k]);
        }
    }
    if hit_in(q, s, l, a, x) {
        let k = choose|k: int| 0 <= k < a.len() && (#[trigger] a[k]).1 == x && pair_passes(q, s, l, a[k]);
        assert(all[k] == a[k]);
    }
    if hit_in(q, s, l, b, x) {
        let k = choose|k: int| 0 <= k < b.len() && (#[trigger] b[k]).1 == x && pair_passes(q, s, l, b[k]);
        assert(all[a.len() + k] == b[k]);
    }
}

/// Between two left batches.
pub open spec fn idle_ok(q: JoinV, s: Side, xs: Seq<Chunk>, matched: Seq<bool>, out: Seq<Chunk>) -> bool {
    &&& flat(out) == joined_left(q, s, xs)
    &&& emits_unmatched_right(q.kind) ==> matched == right_flags(q, s, xs)
}

/// While the last left batch is being probed: `left` are the pairs that have not been tried, and
/// `drain` is the next row that may be returned by itself.
pub open spec fn busy_ok(
    q: JoinV,
    s: Side,
    xs: Seq<Chunk>,
    matched: Seq<bool>,
    out: Seq<Chunk>,
    l: Lot,
    left: Seq<(int, int)>,
    drain: int,
) -> bool {
    let all = all_pairs(s, l);
    &&& xs.len() > 0
    &&& l == lot_of(q.left_keys, xs.last())
    &&& !q.kind.left_only() ==> left.len() <= all.len() && all.skip(all.len() - left.len()) == left
    &&& flat(out) + match_rows(q, s, l, left) + own_rows(q, s, l, drain) == joined_left(q, s, xs)
    &&& emits_unmatched_right(q.kind) ==> matched.len() == s.rows.len() && forall|x: int|
        0 <= x < s.rows.len() ==> (#[trigger] matched[x]) == (hit_by(q, s, xs.drop_last(), x) || hit_in(
            q,
            s,
            l,
            all.take(all.len() - left.len()),
            x,
        ))
}

pub(crate) proof fn lemma_begun(
    q: JoinV,
    s: Side,
    xs: Seq<Chunk>,
    matched: Seq<bool>,
    out: Seq<Chunk>,
    c: Chunk,
    left: Seq<(int, int)>,
)
    requires
        idle_ok(q, s, xs, matched, out),
        !q.kind.left_only() ==> left == all_pairs(s, lot_of(q.left_keys, c)),
    ensures
        busy_ok(q, s, xs.push(c), matched, out, lot_of(q.left_keys, c), left, 0),
{
    let l = lot_of(q.left_keys, c);
    let all = all_pairs(s, l);
    assert(xs.push(c).drop_last() =~= xs);
    assert(all.skip(0) =~= all);
    assert(all.take(0) =~= Seq::empty());
    assert(flat(out) + match_rows(q, s, l, left) + own_rows(q, s, l, 0) =~= flat(out) + joined_lot(q, s, l));
    if emits_unmatched_right(q.kind) {
        assert forall|x: int| 0 <= x < s.rows.len() implies (#[trigger] matched[x]) == (hit_by(
            q,
            s,
            xs.push(c).drop_last(),
            x,
        ) || hit_in(q, s, l, all.take(all.len() - left.len()), x)) by {
            assert(matched[x] == right_flags(q, s, xs)[x]);
        }
    }
}

pub(crate) proof fn lemma_passed_over(
    q: JoinV,
    s: Side,
    xs: Seq<Chunk>,
    matched: Seq<bool>,
    out: Seq<Chunk>,
    c: Chunk,
)
    requires
        idle_ok(q, s, xs, matched, out),
        c.rows.len() == 0,
    ensures
        idle_ok(q, s, xs.push(c), matched, out),
{
    lemma_empty_lot(q, s, c);
    assert(xs.push(c).drop_last() =~= xs);
    assert(joined_left(q, s, xs.push(c)) =~= joined_left(q, s, xs));
    assert forall|x: int| hit_by(q, s, xs.push(c), x) == hit_by(q, s, xs, x) by {
        assert(xs.push(c).drop_last() =~= xs);
    }
    assert(right_flags(q, s, xs.push(c)) =~= right_flags(q, s, xs));
}

/// The first pairs are tried.
pub(crate) proof fn lemma_tried(
    q: JoinV,
    s: Side,
    xs: Seq<Chunk>,
    matched: Seq<bool>,
    matched2: Seq<bool>,
    out: Seq<Chunk>,
    out2: Seq<Chunk>,
    l: Lot,
    left: Seq<(int, int)>,
    left2: Seq<(int, int)>,
    n: int,
    drain: int,
)
    requires
        busy_ok(q, s, xs, matched, out, l, left, drain),
        0 <= n <= left.len(),
        !q.kind.left_only() ==> left2 == left.skip(n),
        flat(out2) == flat(out) + match_rows(q, s, l, left.take(n)),
        emits_unmatched_right(q.kind) ==> matched2.len() == matched.len() && forall|x: int|
            0 <= x < s.rows.len() ==> (#[trigger] matched2[x]) == (matched[x] || hit_in(q, s, l, left.take(n), x)),
    ensures
        busy_ok(q, s, xs, matched2, out2, l, left2, drain),
{
    let all = all_pairs(s, l);
    if q.kind.left_only() {
        assert(flat(out2) =~= flat(out));
    } else {
        let t = all.len() - left.len();
        lemma_passing_append(q, s, l, left.take(n), left.skip(n));
        assert(left.take(n) + left.skip(n) =~= left);
        assert(flat(out2) + match_rows(q, s, l, left2) + own_rows(q, s, l, drain) =~= flat(out) + match_rows(
            q,
            s,
            l,
            left,
        ) + own_rows(q, s, l, drain));
        assert(all.skip(t + n) =~= all.skip(t).skip(n));
        assert(all.take(t + n) =~= all.take(t) + all.skip(t).take(n));
        if emits_unmatched_right(q.kind) {
            assert forall|x: int| 0 <= x < s.rows.len() implies (#[trigger] matched2[x]) == (hit_by(
                q,
                s,
                xs.drop_last(),
                x,
            ) || hit_in(q, s, l, all.take(all.len() - left2.len()), x)) by {
                assert(matched[x] == (hit_by(q, s, xs.drop_last(), x) || hit_in(q, s, l, all.take(t), x)));
                lemma_hit_append(q, s, l, all.take(t), left.take(n), x);
            }
        }
    }
}

/// Left rows are returned by themselves.
pub(crate) proof fn lemma_owned(
    q: JoinV,
    s: Side,
    xs: Seq<Chunk>,
    matched: Seq<bool>,
    out: Seq<Chunk>,
    out2: Seq<Chunk>,
    l: Lot,
    left: Seq<(int, int)>,
    drain: int,
    drain2: int,
    rows: Seq<Seq<Val>>,
)
    requires
        busy_ok(q, s, xs, matched, out, l, left, drain),
        left.len() == 0,
        flat(out2) == flat(out) + rows,
        own_rows(q, s, l, drain) == rows + own_rows(q, s, l, drain2),
    ensures
        busy_ok(q, s, xs, matched, out2, l, left, drain2),
{
    assert(match_rows(q, s, l, left) =~= Seq::empty());
    assert(flat(out2) + match_rows(q, s, l, left) + own_rows(q, s, l, drain2) =~= flat(out) + match_rows(q, s, l, left)
        + own_rows(q, s, l, drain));
}

/// A left batch is done.
pub(crate) proof fn lemma_lot_done(
    q: JoinV,
    s: Side,
    xs: Seq<Chunk>,
    matched: Seq<bool>,
    out: Seq<Chunk>,
    l: Lot,
    left: Seq<(int, int)>,
    drain: int,
)
    requires
        busy_ok(q, s, xs, matched, out, l, left, drain),
        left.len() == 0,
        own_rows(q, s, l, drain).len() == 0,
    ensures
        idle_ok(q, s, xs, matched, out),
{
    assert(match_rows(q, s, l, left) =~= Seq::empty());
    assert(flat(out) + match_rows(q, s, l, left) + own_rows(q, s, l, drain) =~= flat(out));
    if emits_unmatched_right(q.kind) {
        let all = all_pairs(s, l);
        assert(all.take(all.len() - left.len()) =~= all);
        assert(matched =~= right_flags(q, s, xs));
    }
}

/// The left rows still returned by themselves, before and after some are.
pub(crate) proof fn lemma_own_rest(q: JoinV, s: Side, l: Lot, drain: int, drain2: int, n: int)
    requires
        emits_unmatched_left(q.kind) || q.kind is Semi,
        0 <= n <= flagged(left_flags(q, s, l), q.kind is Semi, drain).len(),
        flagged(left_flags(q, s, l), q.kind is Semi, drain2) == flagged(left_flags(q, s, l), q.kind is Semi, drain).skip(
            n,
        ),
    ensures
        ({
            let idx = flagged(left_flags(q, s, l), q.kind is Semi, drain);
            let pad = if q.kind.left_only() {
                Seq::empty()
            } else {
                nulls(q.right_types.len())
            };
            own_rows(q, s, l, drain) == Seq::new(n as nat, |k: int| l.rows[idx[k]] + pad) + own_rows(q, s, l, drain2)
        }),
{
    let idx = flagged(left_flags(q, s, l), q.kind is Semi, drain);
    let pad = if q.kind.left_only() {
        Seq::empty()
    } else {
        nulls(q.right_types.len())
    };
    assert(own_rows(q, s, l, drain) =~= Seq::new(n as nat, |k: int| l.rows[idx[k]] + pad) + own_rows(q, s, l, drain2));
}

/// The right rows still to be returned, before and after some are.
pub(crate) proof fn lemma_right_rest(q: JoinV, s: Side, xs: Seq<Chunk>, drain: int, drain2: int, n: int)
    requires
        0 <= n <= flagged(right_flags(q, s, xs), false, drain).len(),
        flagged(right_flags(q, s, xs), false, drain2) == flagged(right_flags(q, s, xs), false, drain).skip(n),
    ensures
        ({
            let idx = flagged(right_flags(q, s, xs), false, drain);
            right_rows(q, s, xs, drain) == Seq::new(n as nat, |k: int| nulls(q.left_types.len()) + s.rows[idx[k]])
                + right_rows(q, s, xs, drain2)
        }),
{
    let idx = flagged(right_flags(q, s, xs), false, drain);
    assert(right_rows(q, s, xs, drain) =~= Seq::new(n as nat, |k: int| nulls(q.left_types.len()) + s.rows[idx[k]])
        + right_rows(q, s, xs, drain2));
}

} // verus!
