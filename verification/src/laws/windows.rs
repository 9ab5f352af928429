//! What window functions give, told from the rows of the partition alone.
//!
//! Rows are numbered as they came. A partition's rows are those with the same partition key; one
//! row is ahead of another where its sort key is before, or the keys are the same and it came
//! first.

use crate::error::Code;
use crate::exec::ranking::{
    all_in, arranged, arranging_is_stable, arranging_sorts, in_order, inserted, key_cells, key_fits, key_order,
    key_types, keys_are_ordered, orders, row_rule,
};
use crate::exec::rowkey::col_keys;
use crate::exec::window::{
    bucket_of, frame_end, lemma_members, members, partition_of, partitions_hold_their_rows_once, peer_groups, peers_end,
    peers_start, window_value,
};
use crate::expr::ColV;
use crate::float::{f_less, f_of_int, f_quotient, F_ONE, F_ZERO};
use crate::laws::rounding::{a_number_goes_into_itself_once, a_share_is_more_than_zero, short_numbers_are_exact, unit};
use crate::order::Order;
use crate::plan::{WindowKind, WindowV};
use crate::vector::Val;
use vstd::prelude::*;

verus! {

// --- Counting -------------------------------------------------------------------------------

/// The sum of a number for each row.
pub open spec fn total(n: int, g: spec_fn(int) -> int) -> int
    decreases n,
{
    if n <= 0 {
        0
    } else {
        total(n - 1, g) + g(n - 1)
    }
}

pub open spec fn one(b: bool) -> int {
    if b {
        1
    } else {
        0
    }
}

/// How many rows there are of which something holds.
pub open spec fn tally(n: int, f: spec_fn(int) -> bool) -> int {
    total(n, |i: int| one(f(i)))
}

/// The sum over a list of row numbers.
pub open spec fn sum_in(s: Seq<u32>, g: spec_fn(u32) -> int) -> int
    decreases s.len(),
{
    if s.len() == 0 {
        0
    } else {
        sum_in(s.drop_last(), g) + g(s.last())
    }
}

proof fn lemma_sum_inserted(t: Seq<u32>, x: u32, rule: spec_fn(u32, u32) -> Order, g: spec_fn(u32) -> int)
    ensures
        sum_in(inserted(t, x, rule), g) == sum_in(t, g) + g(x),
    decreases t.len(),
{
    if t.len() == 0 {
        assert(seq![x].drop_last() =~= Seq::<u32>::empty());
        assert(sum_in(Seq::<u32>::empty(), g) == 0);
    } else if rule(t.last(), x) == Order::Greater {
        let u = inserted(t.drop_last(), x, rule);
        lemma_sum_inserted(t.drop_last(), x, rule, g);
        assert(u.push(t.last()).drop_last() =~= u);
    } else {
        assert(t.push(x).drop_last() =~= t);
    }
}

proof fn lemma_sum_arranged(s: Seq<u32>, rule: spec_fn(u32, u32) -> Order, g: spec_fn(u32) -> int)
    ensures
        sum_in(arranged(s, rule), g) == sum_in(s, g),
    decreases s.len(),
{
    if s.len() > 0 {
        lemma_sum_arranged(s.drop_last(), rule, g);
        lemma_sum_inserted(arranged(s.drop_last(), rule), s.last(), rule, g);
    }
}

/// A number for each row of a partition, nothing for the others.
spec fn of_members(keys: Seq<Seq<u8>>, key: Seq<u8>, g: spec_fn(u32) -> int) -> spec_fn(int) -> int {
    |i: int|
        if keys[i] == key {
            g(i as u32)
        } else {
            0
        }
}

proof fn lemma_sum_members(keys: Seq<Seq<u8>>, key: Seq<u8>, n: int, g: spec_fn(u32) -> int)
    requires
        n <= u32::MAX,
    ensures
        sum_in(members(keys, key, n), g) == total(n, of_members(keys, key, g)),
    decreases n,
{
    if n > 0 {
        lemma_sum_members(keys, key, n - 1, g);
        if keys[n - 1] == key {
            let m = members(keys, key, n - 1);
            assert(m.push((n - 1) as u32).drop_last() =~= m);
        }
    }
}

pub(crate) proof fn lemma_total_agrees(n: int, f: spec_fn(int) -> int, g: spec_fn(int) -> int)
    requires
        forall|i: int| 0 <= i < n ==> #[trigger] f(i) == g(i),
    ensures
        total(n, f) == total(n, g),
    decreases n,
{
    if n > 0 {
        lemma_total_agrees(n - 1, f, g);
        assert(f(n - 1) == g(n - 1));
    }
}

/// The sum over a list of which only the first `k` count.
pub(crate) proof fn lemma_sum_prefix(s: Seq<u32>, k: int, f: spec_fn(u32) -> int, g: spec_fn(u32) -> int)
    requires
        0 <= k <= s.len(),
        forall|j: int| 0 <= j < k ==> f(#[trigger] s[j]) == g(s[j]),
        forall|j: int| k <= j < s.len() ==> f(#[trigger] s[j]) == 0,
    ensures
        sum_in(s, f) == sum_in(s.take(k), g),
    decreases s.len(),
{
    if s.len() > 0 {
        let d = s.drop_last();
        if k == s.len() {
            assert(s.take(k).drop_last() =~= d.take(k - 1));
            assert forall|j: int| 0 <= j < k - 1 implies f(#[trigger] d[j]) == g(d[j]) by {
                assert(d[j] == s[j]);
            }
            lemma_sum_prefix(d, k - 1, f, g);
            assert(s.last() == s[k - 1]);
        } else {
            assert(s.take(k) =~= d.take(k));
            assert forall|j: int| 0 <= j < k implies f(#[trigger] d[j]) == g(d[j]) by {
                assert(d[j] == s[j]);
            }
            assert forall|j: int| k <= j < d.len() implies f(#[trigger] d[j]) == 0 by {
                assert(d[j] == s[j]);
            }
            lemma_sum_prefix(d, k, f, g);
            assert(s.last() == s[s.len() - 1]);
        }
    } else {
        assert(s.take(k) =~= s);
    }
}

pub(crate) proof fn lemma_sum_of_ones(s: Seq<u32>, g: spec_fn(u32) -> int)
    requires
        forall|x: u32| #[trigger] g(x) == 1,
    ensures
        sum_in(s, g) == s.len(),
    decreases s.len(),
{
    if s.len() > 0 {
        lemma_sum_of_ones(s.drop_last(), g);
    }
}

// --- Partitions -----------------------------------------------------------------------------------

/// The rows of a window: how many there are, and that their sort keys can be compared.
pub open spec fn rows_fit(w: WindowV, kcols: Seq<ColV>, n: nat) -> bool {
    &&& n <= u32::MAX
    &&& kcols.len() == w.order_by.len()
    &&& forall|c: int, r: int|
        0 <= c < kcols.len() && 0 <= r < n ==> (#[trigger] kcols[c].cells[r]).fits(kcols[c].ty.phys())
}

/// Whether two rows are in one partition.
pub open spec fn together(pcols: Seq<ColV>, n: nat, r: int, s: int) -> bool {
    col_keys(pcols, n)[s] == col_keys(pcols, n)[r]
}

/// How the sort keys of two rows compare.
pub open spec fn by_key(w: WindowV, kcols: Seq<ColV>, a: int, b: int) -> Order {
    key_order(w.order_by, key_types(kcols), key_cells(kcols, a), key_cells(kcols, b), 0)
}

/// Whether row `a` is ahead of row `b`: by its key, or by having come first.
pub open spec fn ahead(w: WindowV, kcols: Seq<ColV>, a: int, b: int) -> bool {
    by_key(w, kcols, a, b) == Order::Less || (by_key(w, kcols, a, b) == Order::Equal && a < b)
}

/// How many rows of a row's partition there are of which something holds.
pub open spec fn with_row(pcols: Seq<ColV>, n: nat, r: int, f: spec_fn(int) -> bool) -> int {
    tally(n as int, |s: int| together(pcols, n, r, s) && f(s))
}

/// The number of rows ahead of a row in its partition.
pub open spec fn place(w: WindowV, pcols: Seq<ColV>, kcols: Seq<ColV>, n: nat, r: int) -> int {
    with_row(pcols, n, r, |s: int| ahead(w, kcols, s, r))
}

/// The number of rows of a row's partition.
pub open spec fn size(pcols: Seq<ColV>, n: nat, r: int) -> int {
    with_row(pcols, n, r, |s: int| true)
}

proof fn lemma_rows_order(w: WindowV, kcols: Seq<ColV>, n: nat)
    requires
        rows_fit(w, kcols, n),
    ensures
        orders(row_rule(w.order_by, kcols), |a: u32| a < n),
{
    let tys = key_types(kcols);
    let ks = w.order_by;
    let rule = row_rule(ks, kcols);
    let dom = |a: u32| a < n;
    keys_are_ordered(ks, tys);
    let r2 = |a: Seq<Val>, b: Seq<Val>| key_order(ks, tys, a, b, 0);
    let d2 = |a: Seq<Val>| key_fits(ks.len(), tys, a);
    assert forall|a: u32| dom(a) implies d2(#[trigger] key_cells(kcols, a as int)) by {
        assert forall|c: int| 0 <= c < ks.len() implies (#[trigger] key_cells(kcols, a as int)[c]).fits(tys[c].phys()) by {
            assert(kcols[c].cells[a as int].fits(kcols[c].ty.phys()));
        }
    }
    assert forall|a: u32, b: u32| dom(a) && dom(b) implies (#[trigger] rule(b, a)) == rule(a, b).flipped() by {
        let x = key_cells(kcols, a as int);
        let y = key_cells(kcols, b as int);
        assert(d2(x) && d2(y));
        assert(r2(y, x) == r2(x, y).flipped());
    }
    assert forall|a: u32, b: u32, c: u32|
        dom(a) && dom(b) && dom(c) && (#[trigger] rule(a, b)) != Order::Greater && (#[trigger] rule(b, c))
            != Order::Greater implies rule(a, c) != Order::Greater && (rule(a, b) == Order::Less || rule(b, c)
        == Order::Less ==> rule(a, c) == Order::Less) by {
        let x = key_cells(kcols, a as int);
        let y = key_cells(kcols, b as int);
        let z = key_cells(kcols, c as int);
        assert(d2(x) && d2(y) && d2(z));
        assert(r2(x, y) != Order::Greater && r2(y, z) != Order::Greater);
    }
}

/// What a sorted partition is like.
pub open spec fn settled(part: Seq<u32>, rule: spec_fn(u32, u32) -> Order, n: nat) -> bool {
    &&& orders(rule, |a: u32| a < n)
    &&& all_in(part, |a: u32| a < n)
    &&& in_order(part, rule)
    &&& forall|i: int, j: int|
        0 <= i < j < part.len() && rule(part[i], part[j]) == Order::Equal ==> (#[trigger] part[i]) < (#[trigger] part[j])
}

pub(crate) proof fn lemma_settled(w: WindowV, pcols: Seq<ColV>, kcols: Seq<ColV>, n: nat, r: int)
    requires
        rows_fit(w, kcols, n),
        0 <= r < n,
    ensures
        settled(partition_of(w, pcols, kcols, n, r), row_rule(w.order_by, kcols), n),
        forall|i: int|
            0 <= i < partition_of(w, pcols, kcols, n, r).len() ==> together(
                pcols,
                n,
                r,
                (#[trigger] partition_of(w, pcols, kcols, n, r)[i]) as int,
            ),
        forall|s: int|
            0 <= s < n && #[trigger] together(pcols, n, r, s) ==> partition_of(w, pcols, kcols, n, r).contains(s as u32),
{
    let keys = col_keys(pcols, n);
    let m = members(keys, keys[r], n as int);
    let rule = row_rule(w.order_by, kcols);
    let dom = |a: u32| a < n;
    lemma_rows_order(w, kcols, n);
    lemma_members(keys, keys[r], n as int);
    assert(all_in(m, dom));
    arranging_sorts(m, rule, dom);
    arranging_is_stable(m, rule, dom, |x: u32| x as int);
    partitions_hold_their_rows_once(keys, keys[r], n as int, rule, dom);
    let part = partition_of(w, pcols, kcols, n, r);
    assert forall|i: int, j: int| 0 <= i < j < part.len() && rule(part[i], part[j]) == Order::Equal implies (
    #[trigger] part[i]) < (#[trigger] part[j]) by {
        let num = |x: u32| x as int;
        assert(num(part[i]) < num(part[j]));
    }
}

/// A sum over the partition is one over all rows, of those that are in it.
pub(crate) proof fn lemma_over_rows(w: WindowV, pcols: Seq<ColV>, kcols: Seq<ColV>, n: nat, r: int, f: spec_fn(u32) -> int, g: spec_fn(int) -> int)
    requires
        rows_fit(w, kcols, n),
        0 <= r < n,
        forall|s: int| 0 <= s < n && together(pcols, n, r, s) ==> #[trigger] g(s) == f(s as u32),
        forall|s: int| 0 <= s < n && !together(pcols, n, r, s) ==> #[trigger] g(s) == 0,
    ensures
        sum_in(partition_of(w, pcols, kcols, n, r), f) == total(n as int, g),
{
    let keys = col_keys(pcols, n);
    lemma_sum_arranged(members(keys, keys[r], n as int), row_rule(w.order_by, kcols), f);
    lemma_sum_members(keys, keys[r], n as int, f);
    let h = of_members(keys, keys[r], f);
    assert forall|i: int| 0 <= i < n implies #[trigger] h(i) == g(i) by {
        assert(together(pcols, n, r, i) == (keys[i] == keys[r]));
    }
    lemma_total_agrees(n as int, h, g);
}

// --- Positions in a sorted partition ----------------------------------------------------------------

proof fn lemma_start_is(part: Seq<u32>, rule: spec_fn(u32, u32) -> Order, n: nat, p: int)
    requires
        settled(part, rule, n),
        0 <= p < part.len(),
    ensures
        0 <= peers_start(part, rule, p) <= p,
        forall|j: int| 0 <= j < peers_start(part, rule, p) ==> rule(#[trigger] part[j], part[p]) == Order::Less,
        forall|j: int| peers_start(part, rule, p) <= j < part.len() ==> rule(#[trigger] part[j], part[p]) != Order::Less,
    decreases p,
{
    let dom = |a: u32| a < n;
    let b = peers_start(part, rule, p);
    assert(dom(part[p]));
    assert forall|j: int| p <= j < part.len() implies rule(#[trigger] part[j], part[p]) != Order::Less by {
        assert(dom(part[j]));
        if j == p {
            assert(rule(part[p], part[p]) == rule(part[p], part[p]).flipped());
        } else {
            assert(rule(part[p], part[j]) != Order::Greater);
            assert(rule(part[j], part[p]) == rule(part[p], part[j]).flipped());
        }
    }
    if p > 0 {
        lemma_start_is(part, rule, n, p - 1);
        assert(dom(part[p - 1]));
        assert(rule(part[p - 1], part[p]) != Order::Greater);
        assert(rule(part[p], part[p - 1]) == rule(part[p - 1], part[p]).flipped());
        if rule(part[p - 1], part[p]) == Order::Equal {
            assert forall|j: int| 0 <= j < b implies rule(#[trigger] part[j], part[p]) == Order::Less by {
                assert(dom(part[j]));
                assert(rule(part[j], part[p - 1]) == Order::Less);
            }
            assert forall|j: int| b <= j < part.len() implies rule(#[trigger] part[j], part[p]) != Order::Less by {
                assert(dom(part[j]));
                if rule(part[j], part[p]) == Order::Less {
                    assert(rule(part[p], part[p - 1]) == Order::Equal);
                    assert(rule(part[j], part[p - 1]) == Order::Less);
                }
            }
        } else {
            assert forall|j: int| 0 <= j < b implies rule(#[trigger] part[j], part[p]) == Order::Less by {
                assert(dom(part[j]));
                if j < p - 1 {
                    assert(rule(part[j], part[p - 1]) != Order::Greater);
                }
            }
        }
    }
}

pub(crate) proof fn lemma_end_is(part: Seq<u32>, rule: spec_fn(u32, u32) -> Order, n: nat, p: int)
    requires
        settled(part, rule, n),
        0 <= p < part.len(),
    ensures
        p < peers_end(part, rule, p) <= part.len(),
        forall|j: int| 0 <= j < peers_end(part, rule, p) ==> rule(#[trigger] part[j], part[p]) != Order::Greater,
        forall|j: int| peers_end(part, rule, p) <= j < part.len() ==> rule(#[trigger] part[j], part[p]) == Order::Greater,
    decreases part.len() - p,
{
    let dom = |a: u32| a < n;
    let e = peers_end(part, rule, p);
    assert(dom(part[p]));
    assert forall|j: int| 0 <= j <= p implies rule(#[trigger] part[j], part[p]) != Order::Greater by {
        assert(dom(part[j]));
        if j == p {
            assert(rule(part[p], part[p]) == rule(part[p], part[p]).flipped());
        }
    }
    if p + 1 < part.len() {
        lemma_end_is(part, rule, n, p + 1);
        assert(dom(part[p + 1]));
        assert(rule(part[p], part[p + 1]) != Order::Greater);
        assert(rule(part[p + 1], part[p]) == rule(part[p], part[p + 1]).flipped());
        if rule(part[p], part[p + 1]) == Order::Equal {
            assert forall|j: int| 0 <= j < e implies rule(#[trigger] part[j], part[p]) != Order::Greater by {
                assert(dom(part[j]));
                assert(rule(part[j], part[p + 1]) != Order::Greater);
            }
            assert forall|j: int| e <= j < part.len() implies rule(#[trigger] part[j], part[p]) == Order::Greater by {
                assert(dom(part[j]));
                assert(rule(part[j], part[p + 1]) == Order::Greater);
                assert(rule(part[p + 1], part[j]) == Order::Less);
                assert(rule(part[p], part[j]) == Order::Less);
                assert(rule(part[j], part[p]) == rule(part[p], part[j]).flipped());
            }
        } else {
            assert forall|j: int| e <= j < part.len() implies rule(#[trigger] part[j], part[p]) == Order::Greater by {
                assert(dom(part[j]));
                if j > p + 1 {
                    assert(rule(part[p + 1], part[j]) != Order::Greater);
                    assert(rule(part[p], part[j]) == Order::Less);
                }
                assert(rule(part[p], part[j]) == Order::Less);
                assert(rule(part[j], part[p]) == rule(part[p], part[j]).flipped());
            }
        }
    }
}

/// Where a row stands in its sorted partition: behind as many rows as are ahead of it.
#[verifier::rlimit(30)]
pub(crate) proof fn lemma_place(w: WindowV, pcols: Seq<ColV>, kcols: Seq<ColV>, n: nat, r: int, p: int)
    requires
        rows_fit(w, kcols, n),
        0 <= r < n,
        0 <= p < partition_of(w, pcols, kcols, n, r).len(),
    ensures
        place(w, pcols, kcols, n, partition_of(w, pcols, kcols, n, r)[p] as int) == p,
{
    let part = partition_of(w, pcols, kcols, n, r);
    let rule = row_rule(w.order_by, kcols);
    let dom = |a: u32| a < n;
    lemma_settled(w, pcols, kcols, n, r);
    let s = part[p] as int;
    assert(dom(part[p]));
    assert(together(pcols, n, r, s));
    let f = |x: u32| one(ahead(w, kcols, x as int, s));
    let g = |i: int| one(together(pcols, n, s, i) && ahead(w, kcols, i, s));
    assert forall|i: int| 0 <= i < n && together(pcols, n, r, i) implies #[trigger] g(i) == f(i as u32) by {}
    lemma_over_rows(w, pcols, kcols, n, r, f, g);
    let h = |x: u32| 1int;
    assert forall|j: int| 0 <= j < p implies f(#[trigger] part[j]) == h(part[j]) by {
        assert(rule(part[j], part[p]) != Order::Greater);
    }
    assert forall|j: int| p <= j < part.len() implies f(#[trigger] part[j]) == 0 by {
        assert(dom(part[j]));
        assert(rule(part[j], part[p]) == rule(part[p], part[j]).flipped());
        if j > p {
            assert(rule(part[p], part[j]) != Order::Greater);
        }
    }
    lemma_sum_prefix(part, p, f, h);
    lemma_sum_of_ones(part.take(p), h);
    let q = |i: int| ahead(w, kcols, i, s);
    let q2 = |i: int| together(pcols, n, s, i) && q(i);
    let k = |i: int| one(q2(i));
    lemma_total_agrees(n as int, g, k);
}

/// Every row stands at its place.
pub(crate) proof fn lemma_at_place(w: WindowV, pcols: Seq<ColV>, kcols: Seq<ColV>, n: nat, r: int, s: int)
    requires
        rows_fit(w, kcols, n),
        0 <= r < n,
        0 <= s < n,
        together(pcols, n, r, s),
    ensures
        0 <= place(w, pcols, kcols, n, s) < partition_of(w, pcols, kcols, n, r).len(),
        partition_of(w, pcols, kcols, n, r)[place(w, pcols, kcols, n, s)] == s,
        partition_of(w, pcols, kcols, n, r).index_of(s as u32) == place(w, pcols, kcols, n, s),
{
    let part = partition_of(w, pcols, kcols, n, r);
    lemma_settled(w, pcols, kcols, n, r);
    assert(part.contains(s as u32));
    let p = part.index_of(s as u32);
    assert(part[p] == s as u32);
    lemma_place(w, pcols, kcols, n, r, p);
}

/// How many rows of the partition there are of which something holds, counted in its order.
proof fn lemma_with_row(w: WindowV, pcols: Seq<ColV>, kcols: Seq<ColV>, n: nat, r: int, f: spec_fn(int) -> bool, k: int)
    requires
        rows_fit(w, kcols, n),
        0 <= r < n,
        0 <= k <= partition_of(w, pcols, kcols, n, r).len(),
        forall|j: int| 0 <= j < k ==> f((#[trigger] partition_of(w, pcols, kcols, n, r)[j]) as int),
        forall|j: int|
            k <= j < partition_of(w, pcols, kcols, n, r).len() ==> !f(
                (#[trigger] partition_of(w, pcols, kcols, n, r)[j]) as int,
            ),
    ensures
        with_row(pcols, n, r, f) == k,
{
    let part = partition_of(w, pcols, kcols, n, r);
    let a = |x: u32| one(f(x as int));
    let q = |i: int| together(pcols, n, r, i) && f(i);
    let g = |i: int| one(q(i));
    lemma_over_rows(w, pcols, kcols, n, r, a, g);
    let h = |x: u32| 1int;
    assert forall|j: int| 0 <= j < k implies a(#[trigger] part[j]) == h(part[j]) by {
        assert(f(part[j] as int));
    }
    assert forall|j: int| k <= j < part.len() implies a(#[trigger] part[j]) == 0 by {
        assert(!f(part[j] as int));
    }
    lemma_sum_prefix(part, k, a, h);
    lemma_sum_of_ones(part.take(k), h);
}

pub(crate) proof fn lemma_size(w: WindowV, pcols: Seq<ColV>, kcols: Seq<ColV>, n: nat, r: int)
    requires
        rows_fit(w, kcols, n),
        0 <= r < n,
    ensures
        size(pcols, n, r) == partition_of(w, pcols, kcols, n, r).len(),
        partition_of(w, pcols, kcols, n, r).len() <= n,
{
    let part = partition_of(w, pcols, kcols, n, r);
    lemma_with_row(w, pcols, kcols, n, r, |s: int| true, part.len() as int);
    let keys = col_keys(pcols, n);
    lemma_members(keys, keys[r], n as int);
    let rule = row_rule(w.order_by, kcols);
    lemma_rows_order(w, kcols, n);
    assert(all_in(members(keys, keys[r], n as int), |a: u32| a < n));
    arranging_sorts(members(keys, keys[r], n as int), rule, |a: u32| a < n);
}

// --- The laws -----------------------------------------------------------------------------------------

/// `ROW_NUMBER` is one more than the number of rows ahead in the partition.
pub proof fn the_row_number_counts_the_rows_ahead(
    w: WindowV,
    pcols: Seq<ColV>,
    kcols: Seq<ColV>,
    acols: Seq<ColV>,
    n: nat,
    r: int,
)
    requires
        rows_fit(w, kcols, n),
        0 <= r < n,
        w.kind is RowNumber,
        w.result_ty is BigInt,
    ensures
        window_value(w, pcols, kcols, acols, n, r) == Ok::<Val, Code>(
            Val::I64((1 + place(w, pcols, kcols, n, r)) as i64),
        ),
        0 <= place(w, pcols, kcols, n, r) < size(pcols, n, r) <= n,
{
    lemma_at_place(w, pcols, kcols, n, r, r);
    lemma_size(w, pcols, kcols, n, r);
}

/// `RANK` is one more than the number of rows whose sort key is before the row's own.
pub proof fn the_rank_counts_the_rows_before(
    w: WindowV,
    pcols: Seq<ColV>,
    kcols: Seq<ColV>,
    acols: Seq<ColV>,
    n: nat,
    r: int,
)
    requires
        rows_fit(w, kcols, n),
        0 <= r < n,
        w.kind is Rank,
        w.result_ty is BigInt,
    ensures
        ({
            let before = with_row(pcols, n, r, |s: int| by_key(w, kcols, s, r) == Order::Less);
            &&& window_value(w, pcols, kcols, acols, n, r) == Ok::<Val, Code>(Val::I64((1 + before) as i64))
            &&& 0 <= before < n
        }),
{
    lemma_before(w, pcols, kcols, n, r);
}

proof fn lemma_before(w: WindowV, pcols: Seq<ColV>, kcols: Seq<ColV>, n: nat, r: int)
    requires
        rows_fit(w, kcols, n),
        0 <= r < n,
    ensures
        ({
            let part = partition_of(w, pcols, kcols, n, r);
            let rule = row_rule(w.order_by, kcols);
            let p = part.index_of(r as u32);
            &&& 0 <= p < part.len() <= n
            &&& part[p] == r
            &&& with_row(pcols, n, r, |s: int| by_key(w, kcols, s, r) == Order::Less) == peers_start(part, rule, p)
            &&& with_row(pcols, n, r, |s: int| by_key(w, kcols, s, r) != Order::Greater) == peers_end(part, rule, p)
            &&& 0 <= peers_start(part, rule, p) <= p
            &&& p < peers_end(part, rule, p) <= part.len()
        }),
{
    lemma_at_place(w, pcols, kcols, n, r, r);
    lemma_size(w, pcols, kcols, n, r);
    lemma_starts_at(w, pcols, kcols, n, r);
    lemma_ends_at(w, pcols, kcols, n, r);
}

proof fn lemma_starts_at(w: WindowV, pcols: Seq<ColV>, kcols: Seq<ColV>, n: nat, r: int)
    requires
        rows_fit(w, kcols, n),
        0 <= r < n,
    ensures
        ({
            let part = partition_of(w, pcols, kcols, n, r);
            let rule = row_rule(w.order_by, kcols);
            let p = part.index_of(r as u32);
            &&& with_row(pcols, n, r, |s: int| by_key(w, kcols, s, r) == Order::Less) == peers_start(part, rule, p)
            &&& 0 <= peers_start(part, rule, p) <= p
        }),
{
    let part = partition_of(w, pcols, kcols, n, r);
    let rule = row_rule(w.order_by, kcols);
    let p = part.index_of(r as u32);
    lemma_at_place(w, pcols, kcols, n, r, r);
    lemma_settled(w, pcols, kcols, n, r);
    lemma_start_is(part, rule, n, p);
    let k = peers_start(part, rule, p);
    let f = |s: int| by_key(w, kcols, s, r) == Order::Less;
    assert forall|j: int| 0 <= j < k implies f((#[trigger] part[j]) as int) by {
        assert(rule(part[j], part[p]) == Order::Less);
    }
    assert forall|j: int| k <= j < part.len() implies !f((#[trigger] part[j]) as int) by {
        assert(rule(part[j], part[p]) != Order::Less);
    }
    lemma_with_row(w, pcols, kcols, n, r, f, k);
}

proof fn lemma_ends_at(w: WindowV, pcols: Seq<ColV>, kcols: Seq<ColV>, n: nat, r: int)
    requires
        rows_fit(w, kcols, n),
        0 <= r < n,
    ensures
        ({
            let part = partition_of(w, pcols, kcols, n, r);
            let rule = row_rule(w.order_by, kcols);
            let p = part.index_of(r as u32);
            &&& with_row(pcols, n, r, |s: int| by_key(w, kcols, s, r) != Order::Greater) == peers_end(part, rule, p)
            &&& p < peers_end(part, rule, p) <= part.len()
        }),
{
    let part = partition_of(w, pcols, kcols, n, r);
    let rule = row_rule(w.order_by, kcols);
    let p = part.index_of(r as u32);
    lemma_at_place(w, pcols, kcols, n, r, r);
    lemma_settled(w, pcols, kcols, n, r);
    lemma_end_is(part, rule, n, p);
    let k = peers_end(part, rule, p);
    let f = |s: int| by_key(w, kcols, s, r) != Order::Greater;
    assert forall|j: int| 0 <= j < k implies f((#[trigger] part[j]) as int) by {
        assert(rule(part[j], part[p]) != Order::Greater);
    }
    assert forall|j: int| k <= j < part.len() implies !f((#[trigger] part[j]) as int) by {
        assert(rule(part[j], part[p]) == Order::Greater);
    }
    lemma_with_row(w, pcols, kcols, n, r, f, k);
}

/// `CUME_DIST` is the number of rows of the partition whose sort key is not after the row's own,
/// divided by the number of rows of the partition. It is more than 0, and 1 where no row of the
/// partition is after the row.
pub proof fn the_cumulative_share_counts_the_rows_not_after(
    w: WindowV,
    pcols: Seq<ColV>,
    kcols: Seq<ColV>,
    acols: Seq<ColV>,
    n: nat,
    r: int,
)
    requires
        rows_fit(w, kcols, n),
        0 <= r < n,
        w.kind is CumeDist,
        w.result_ty is Double,
    ensures
        ({
            let upto = with_row(pcols, n, r, |s: int| by_key(w, kcols, s, r) != Order::Greater);
            let all = size(pcols, n, r);
            let q = f_quotient(f_of_int(upto), f_of_int(all));
            &&& window_value(w, pcols, kcols, acols, n, r) == Ok::<Val, Code>(Val::F64(q))
            &&& 0 < upto <= all
            &&& f_less(F_ZERO, q)
            &&& upto == all ==> q == F_ONE
            &&& (forall|s: int|
                0 <= s < n && together(pcols, n, r, s) ==> #[trigger] by_key(w, kcols, s, r) != Order::Greater) ==> q == F_ONE
        }),
{
    lemma_before(w, pcols, kcols, n, r);
    lemma_size(w, pcols, kcols, n, r);
    let upto = with_row(pcols, n, r, |s: int| by_key(w, kcols, s, r) != Order::Greater);
    lemma_share(upto, size(pcols, n, r));
    if forall|s: int| 0 <= s < n && together(pcols, n, r, s) ==> #[trigger] by_key(w, kcols, s, r) != Order::Greater {
        lemma_none_after(w, pcols, kcols, n, r);
    }
}

proof fn lemma_share(a: int, b: int)
    requires
        0 < a <= b < 0x1_0000_0000,
    ensures
        f_less(F_ZERO, f_quotient(f_of_int(a), f_of_int(b))),
        a == b ==> f_quotient(f_of_int(a), f_of_int(b)) == F_ONE,
{
    a_share_is_more_than_zero(a, b);
    short_numbers_are_exact(b);
    let x = f_of_int(b);
    vstd::arithmetic::power2::lemma_pow2_pos(1074);
    assert(b * unit() > 0) by (nonlinear_arith)
        requires
            b > 0,
            unit() > 0,
    ;
    if crate::order::f64_magnitude(x) == 0 {
        crate::laws::rounding::lemma_zero(x);
    }
    a_number_goes_into_itself_once(x);
}

proof fn lemma_none_after(w: WindowV, pcols: Seq<ColV>, kcols: Seq<ColV>, n: nat, r: int)
    requires
        rows_fit(w, kcols, n),
        0 <= r < n,
        forall|s: int| 0 <= s < n && together(pcols, n, r, s) ==> #[trigger] by_key(w, kcols, s, r) != Order::Greater,
    ensures
        with_row(pcols, n, r, |s: int| by_key(w, kcols, s, r) != Order::Greater) == size(pcols, n, r),
{
    let f = |s: int| by_key(w, kcols, s, r) != Order::Greater;
    let part = partition_of(w, pcols, kcols, n, r);
    lemma_settled(w, pcols, kcols, n, r);
    lemma_size(w, pcols, kcols, n, r);
    let dom = |a: u32| a < n;
    assert forall|j: int| 0 <= j < part.len() implies f((#[trigger] part[j]) as int) by {
        assert(dom(part[j]));
        assert(together(pcols, n, r, part[j] as int));
    }
    lemma_with_row(w, pcols, kcols, n, r, f, part.len() as int);
}

/// `PERCENT_RANK` is the number of rows whose sort key is before the row's own, divided by the
/// number of the other rows of the partition; it is 0 on the first rows.
pub proof fn the_relative_rank_counts_the_rows_before(
    w: WindowV,
    pcols: Seq<ColV>,
    kcols: Seq<ColV>,
    acols: Seq<ColV>,
    n: nat,
    r: int,
)
    requires
        rows_fit(w, kcols, n),
        0 <= r < n,
        w.kind is PercentRank,
        w.result_ty is Double,
    ensures
        ({
            let before = with_row(pcols, n, r, |s: int| by_key(w, kcols, s, r) == Order::Less);
            let others = size(pcols, n, r) - 1;
            &&& 0 <= before <= others
            &&& window_value(w, pcols, kcols, acols, n, r) == Ok::<Val, Code>(
                Val::F64(
                    if others == 0 {
                        F_ZERO
                    } else {
                        f_quotient(f_of_int(before), f_of_int(others))
                    },
                ),
            )
        }),
{
    lemma_before(w, pcols, kcols, n, r);
    lemma_size(w, pcols, kcols, n, r);
}

// --- Dense ranks ------------------------------------------------------------------------------------------

/// Whether a row is the first of its peers: none of its partition with the same sort key came
/// before it.
pub open spec fn first_of_peers(w: WindowV, pcols: Seq<ColV>, kcols: Seq<ColV>, n: nat, s: int) -> bool {
    forall|t: int|
        0 <= t < s && together(pcols, n, s, t) ==> #[trigger] by_key(w, kcols, t, s) != Order::Equal
}

proof fn lemma_first_of_peers(w: WindowV, pcols: Seq<ColV>, kcols: Seq<ColV>, n: nat, r: int, j: int)
    requires
        rows_fit(w, kcols, n),
        0 <= r < n,
        0 <= j < partition_of(w, pcols, kcols, n, r).len(),
    ensures
        ({
            let part = partition_of(w, pcols, kcols, n, r);
            let rule = row_rule(w.order_by, kcols);
            first_of_peers(w, pcols, kcols, n, part[j] as int) == (j == 0 || rule(part[j - 1], part[j]) != Order::Equal)
        }),
{
    let part = partition_of(w, pcols, kcols, n, r);
    let rule = row_rule(w.order_by, kcols);
    let dom = |a: u32| a < n;
    lemma_settled(w, pcols, kcols, n, r);
    assert(dom(part[j]));
    let s = part[j] as int;
    assert(together(pcols, n, r, s));
    if j > 0 && rule(part[j - 1], part[j]) == Order::Equal {
        let t = part[j - 1] as int;
        assert(dom(part[j - 1]));
        assert(part[j - 1] < part[j]);
        assert(together(pcols, n, r, t));
        assert(together(pcols, n, s, t));
        assert(by_key(w, kcols, t, s) == Order::Equal);
    } else {
        assert forall|t: int| 0 <= t < s && together(pcols, n, s, t) implies #[trigger] by_key(w, kcols, t, s)
            != Order::Equal by {
            assert(together(pcols, n, r, t));
            assert(part.contains(t as u32));
            let i = part.index_of(t as u32);
            assert(part[i] == t as u32);
            assert(dom(part[i]));
            if rule(part[i], part[j]) == Order::Equal {
                assert(rule(part[j], part[i]) == rule(part[i], part[j]).flipped());
                if i > j {
                    assert(part[j] < part[i]);
                } else if i < j {
                    assert(dom(part[j - 1]));
                    assert(rule(part[j - 1], part[j]) == Order::Less);
                    if i < j - 1 {
                        assert(rule(part[i], part[j - 1]) != Order::Greater);
                    }
                    assert(rule(part[i], part[j]) == Order::Less);
                }
            }
        }
    }
}

proof fn lemma_groups(w: WindowV, pcols: Seq<ColV>, kcols: Seq<ColV>, n: nat, r: int, k: int, g: spec_fn(u32) -> int)
    requires
        rows_fit(w, kcols, n),
        0 <= r < n,
        0 <= k < partition_of(w, pcols, kcols, n, r).len(),
        forall|x: u32| #[trigger] g(x) == one(first_of_peers(w, pcols, kcols, n, x as int)),
    ensures
        sum_in(partition_of(w, pcols, kcols, n, r).take(k + 1), g) == peer_groups(
            partition_of(w, pcols, kcols, n, r),
            row_rule(w.order_by, kcols),
            k,
        ),
    decreases k,
{
    let part = partition_of(w, pcols, kcols, n, r);
    let rule = row_rule(w.order_by, kcols);
    assert(part.take(k + 1).drop_last() =~= part.take(k));
    assert(part.take(k + 1).last() == part[k]);
    lemma_first_of_peers(w, pcols, kcols, n, r, k);
    if k > 0 {
        lemma_groups(w, pcols, kcols, n, r, k - 1, g);
    } else {
        assert(part.take(0) =~= Seq::<u32>::empty());
        assert(sum_in(part.take(0), g) == 0);
    }
}

/// `DENSE_RANK` is the number of different sort keys in the partition that are not after the
/// row's own: the first of the peers of each are counted.
#[verifier::rlimit(30)]
pub proof fn the_dense_rank_counts_the_keys_not_after(
    w: WindowV,
    pcols: Seq<ColV>,
    kcols: Seq<ColV>,
    acols: Seq<ColV>,
    n: nat,
    r: int,
)
    requires
        rows_fit(w, kcols, n),
        0 <= r < n,
        w.kind is DenseRank,
        w.result_ty is BigInt,
    ensures
        ({
            let keys = with_row(
                pcols,
                n,
                r,
                |s: int| by_key(w, kcols, s, r) != Order::Greater && first_of_peers(w, pcols, kcols, n, s),
            );
            window_value(w, pcols, kcols, acols, n, r) == Ok::<Val, Code>(Val::I64(keys as i64)) && 0 < keys <= n
        }),
{
    let part = partition_of(w, pcols, kcols, n, r);
    let rule = row_rule(w.order_by, kcols);
    let dom = |a: u32| a < n;
    lemma_at_place(w, pcols, kcols, n, r, r);
    lemma_size(w, pcols, kcols, n, r);
    let p = part.index_of(r as u32);
    assert(part[p] == r);
    lemma_settled(w, pcols, kcols, n, r);
    let f = |s: int| by_key(w, kcols, s, r) != Order::Greater && first_of_peers(w, pcols, kcols, n, s);
    let a = |x: u32| one(f(x as int));
    let q = |i: int| together(pcols, n, r, i) && f(i);
    let g = |i: int| one(q(i));
    lemma_over_rows(w, pcols, kcols, n, r, a, g);
    let h = |x: u32| one(first_of_peers(w, pcols, kcols, n, x as int));
    assert forall|j: int| 0 <= j < p + 1 implies a(#[trigger] part[j]) == h(part[j]) by {
        assert(dom(part[j]) && dom(part[p]));
        if j < p {
            assert(rule(part[j], part[p]) != Order::Greater);
        } else {
            assert(rule(part[p], part[p]) == rule(part[p], part[p]).flipped());
        }
        assert(by_key(w, kcols, part[j] as int, r) == rule(part[j], part[p]));
    }
    assert forall|j: int| p + 1 <= j < part.len() implies a(#[trigger] part[j]) == 0 by {
        assert(dom(part[j]) && dom(part[p]));
        assert(rule(part[p], part[j]) != Order::Greater);
        assert(rule(part[j], part[p]) == rule(part[p], part[j]).flipped());
        assert(by_key(w, kcols, part[j] as int, r) == rule(part[j], part[p]));
        if rule(part[j], part[p]) != Order::Greater {
            assert(part[p] < part[j]);
            assert(together(pcols, n, r, part[j] as int));
            assert(together(pcols, n, part[j] as int, r));
            assert(by_key(w, kcols, r, part[j] as int) == Order::Equal);
            assert(!first_of_peers(w, pcols, kcols, n, part[j] as int));
        }
    }
    lemma_sum_prefix(part, p + 1, a, h);
    lemma_groups(w, pcols, kcols, n, r, p, h);
    lemma_group_bounds(part, rule, p);
}

proof fn lemma_group_bounds(part: Seq<u32>, rule: spec_fn(u32, u32) -> Order, p: int)
    requires
        0 <= p,
    ensures
        1 <= peer_groups(part, rule, p) <= p + 1,
    decreases p,
{
    if p > 0 {
        lemma_group_bounds(part, rule, p - 1);
    }
}

// --- Other rows ----------------------------------------------------------------------------------------------

/// The number of rows in a row's frame: the whole partition, or the rows not after the row.
pub open spec fn frame_size(w: WindowV, pcols: Seq<ColV>, kcols: Seq<ColV>, n: nat, r: int) -> int {
    if w.frame is WholePartition || w.order_by.len() == 0 {
        size(pcols, n, r)
    } else {
        with_row(pcols, n, r, |s: int| by_key(w, kcols, s, r) != Order::Greater)
    }
}

pub(crate) proof fn lemma_frame(w: WindowV, pcols: Seq<ColV>, kcols: Seq<ColV>, n: nat, r: int)
    requires
        rows_fit(w, kcols, n),
        0 <= r < n,
    ensures
        ({
            let part = partition_of(w, pcols, kcols, n, r);
            let rule = row_rule(w.order_by, kcols);
            let p = part.index_of(r as u32);
            &&& frame_end(w, part, rule, p) == frame_size(w, pcols, kcols, n, r)
            &&& 0 < frame_size(w, pcols, kcols, n, r) <= part.len()
        }),
{
    lemma_before(w, pcols, kcols, n, r);
    lemma_size(w, pcols, kcols, n, r);
}

/// The place in the partition from which a function takes its value, where it takes one: `LAG`
/// and `LEAD` go so many rows back and forth, `FIRST_VALUE`, `LAST_VALUE` and `NTH_VALUE` go by
/// the frame.
pub open spec fn wanted_place(w: WindowV, pcols: Seq<ColV>, kcols: Seq<ColV>, acols: Seq<ColV>, n: nat, r: int) -> Option<
    int,
> {
    let here = place(w, pcols, kcols, n, r);
    let by = if acols.len() < 2 {
        Some(1int)
    } else {
        acols[1].cells[r].as_int()
    };
    match w.kind {
        WindowKind::Lag => match by {
            Some(k) => Some(here - k),
            None => None,
        },
        WindowKind::Lead => match by {
            Some(k) => Some(here + k),
            None => None,
        },
        WindowKind::FirstValue => Some(0),
        WindowKind::LastValue => Some(frame_size(w, pcols, kcols, n, r) - 1),
        _ => match by {
            Some(k) => if 1 <= k <= frame_size(w, pcols, kcols, n, r) {
                Some(k - 1)
            } else {
                None
            },
            None => None,
        },
    }
}

/// Whether a function takes its value from another row.
pub open spec fn takes(k: WindowKind) -> bool {
    k is Lag || k is Lead || k is FirstValue || k is LastValue || k is NthValue
}

/// A function that takes its value from another row takes it from the row at the place it asks
/// for. `LAG` and `LEAD` give their third argument, or NULL, where the partition has no such row.
/// Where the number of rows is NULL, so is the value.
#[verifier::rlimit(40)]
pub proof fn values_are_taken_from_the_row_asked_for(
    w: WindowV,
    pcols: Seq<ColV>,
    kcols: Seq<ColV>,
    acols: Seq<ColV>,
    n: nat,
    r: int,
    s: int,
)
    requires
        rows_fit(w, kcols, n),
        0 <= r < n,
        0 <= s < n,
        takes(w.kind),
        acols.len() >= if w.kind is NthValue {
            2
        } else {
            1nat
        },
        acols.len() >= 2 ==> acols[1].cells[r] is Null || acols[1].cells[r].as_i64_spec() is Some,
        w.result_ty == acols[0].ty,
        forall|i: int| 0 <= i < n ==> (#[trigger] acols[0].cells[i]).fits(acols[0].ty.phys()),
        acols.len() > 2 ==> acols[2].cells[r].fits(acols[0].ty.phys()),
    ensures
        together(pcols, n, r, s) && wanted_place(w, pcols, kcols, acols, n, r) == Some(place(w, pcols, kcols, n, s))
            ==> window_value(w, pcols, kcols, acols, n, r) == Ok::<Val, Code>(acols[0].cells[s]),
        wanted_place(w, pcols, kcols, acols, n, r) is None ==> window_value(w, pcols, kcols, acols, n, r) == Ok::<Val, Code>(
            Val::Null,
        ),
        wanted_place(w, pcols, kcols, acols, n, r) matches Some(t) && !(0 <= t < size(pcols, n, r)) ==> window_value(
            w,
            pcols,
            kcols,
            acols,
            n,
            r,
        ) == Ok::<Val, Code>(
            if acols.len() > 2 {
                acols[2].cells[r]
            } else {
                Val::Null
            },
        ),
{
    lemma_at_place(w, pcols, kcols, n, r, r);
    lemma_size(w, pcols, kcols, n, r);
    lemma_frame(w, pcols, kcols, n, r);
    if together(pcols, n, r, s) {
        lemma_at_place(w, pcols, kcols, n, r, s);
    }
    assert(acols[0].cells[s].fits(acols[0].ty.phys()));
    let part = partition_of(w, pcols, kcols, n, r);
    assert(part[part.index_of(r as u32)] == r);
}

// --- Buckets ------------------------------------------------------------------------------------------------------

/// How many rows the first `k` of `b` buckets hold: the rows are dealt out evenly, and what is
/// left over goes to the first buckets, one row each.
pub open spec fn dealt(k: int, all: int, b: int) -> int {
    k * (all / b) + if k < all % b {
        k
    } else {
        all % b
    }
}

/// A row is in the bucket that the rows before it do not fill.
pub proof fn buckets_are_filled_in_turn(p: int, all: int, b: int)
    requires
        0 <= p < all,
        1 <= b <= all,
    ensures
        0 <= bucket_of(p, all, b) < b,
        dealt(bucket_of(p, all, b), all, b) <= p < dealt(bucket_of(p, all, b) + 1, all, b),
{
    let base = all / b;
    let rem = all % b;
    let k = bucket_of(p, all, b);
    vstd::arithmetic::div_mod::lemma_fundamental_div_mod(all, b);
    assert(base >= 1) by (nonlinear_arith)
        requires
            all == b * base + rem,
            0 <= rem < b,
            all >= b,
    ;
    let t = rem * (base + 1);
    assert(t == rem * base + rem) by (nonlinear_arith)
        requires
            t == rem * (base + 1),
    ;
    if p < t {
        let bb = base + 1;
        vstd::arithmetic::div_mod::lemma_fundamental_div_mod(p, bb);
        let m = p % bb;
        assert(0 <= k < rem) by (nonlinear_arith)
            requires
                p == bb * k + m,
                0 <= m < bb,
                0 <= p < rem * bb,
                bb > 0,
        ;
        assert(bb * k == k * base + k && (k + 1) * base == k * base + base) by (nonlinear_arith)
            requires
                bb == base + 1,
        ;
    } else {
        let x = p - t;
        let j = x / base;
        vstd::arithmetic::div_mod::lemma_fundamental_div_mod(x, base);
        let m = x % base;
        assert(k == rem + j);
        assert(j >= 0) by (nonlinear_arith)
            requires
                x == base * j + m,
                0 <= m < base,
                x >= 0,
                base > 0,
        ;
        assert(j < b - rem) by (nonlinear_arith)
            requires
                x == base * j + m,
                0 <= m,
                base > 0,
                x + rem * base + rem < b * base + rem,
        ;
        assert(k * base == rem * base + base * j && (k + 1) * base == k * base + base) by (nonlinear_arith)
            requires
                k == rem + j,
        ;
    }
}

/// `NTILE(b)` deals the rows of a partition out to `b` buckets in their order: a row's bucket is
/// the one that the rows ahead of it do not fill.
pub proof fn rows_are_dealt_out_to_buckets(
    w: WindowV,
    pcols: Seq<ColV>,
    kcols: Seq<ColV>,
    acols: Seq<ColV>,
    n: nat,
    r: int,
    b: i64,
)
    requires
        rows_fit(w, kcols, n),
        0 <= r < n,
        w.kind is NTile,
        w.result_ty is BigInt,
        acols.len() > 0,
        acols[0].cells[r].as_int() == Some(b as int),
        b >= 1,
    ensures
        ({
            let here = place(w, pcols, kcols, n, r);
            let all = size(pcols, n, r);
            &&& window_value(w, pcols, kcols, acols, n, r) matches Ok(Val::I64(k)) && 1 <= k <= b && dealt(k - 1, all, b as int)
                <= here < dealt(k as int, all, b as int)
        }),
{
    lemma_at_place(w, pcols, kcols, n, r, r);
    lemma_size(w, pcols, kcols, n, r);
    let part = partition_of(w, pcols, kcols, n, r);
    assert(part[part.index_of(r as u32)] == r);
    let here = place(w, pcols, kcols, n, r);
    let all = size(pcols, n, r);
    let bi = b as int;
    if b < all {
        buckets_are_filled_in_turn(here, all, bi);
    } else {
        if b == all {
            assert(all / bi == 1 && all % bi == 0) by (nonlinear_arith)
                requires
                    all == bi,
                    bi > 0,
            ;
        } else {
            assert(all / bi == 0 && all % bi == all) by (nonlinear_arith)
                requires
                    0 <= all < bi,
            ;
        }
        assert(here * 1 == here && (here + 1) * 1 == here + 1 && here * 0 == 0 && (here + 1) * 0 == 0) by (nonlinear_arith);
    }
}

} // verus!
