//! Stable sorting by rows' keys.
//!
//! Sorting and window functions order rows by the same rule: key by key, where
//! `desc` turns only the order of values and NULLs go where `nulls_first` says.
//! The sort is stable, so rows with equal keys keep the order in which they came.

use crate::expr::{cols_of, ColV};
use crate::order::Order;
use crate::plan::{keys_of, SortKey, SortKeyV};
use crate::vector::{
    cols_wf, order_values, val_order, val_order_flips, val_order_is_transitive, Ty, Val, Vector,
};
use vstd::prelude::*;

verus! {

// --- Sorting, as a function ---------------------------------------------------------

/// Puts an item behind all items that do not come after it.
pub open spec fn inserted<T>(t: Seq<T>, x: T, rule: spec_fn(T, T) -> Order) -> Seq<T>
    decreases t.len(),
{
    if t.len() == 0 {
        seq![x]
    } else if rule(t.last(), x) == Order::Greater {
        inserted(t.drop_last(), x, rule).push(t.last())
    } else {
        t.push(x)
    }
}

/// The items in order; those that are equal keep the order in which they came.
pub open spec fn arranged<T>(s: Seq<T>, rule: spec_fn(T, T) -> Order) -> Seq<T>
    decreases s.len(),
{
    if s.len() == 0 {
        Seq::empty()
    } else {
        inserted(arranged(s.drop_last(), rule), s.last(), rule)
    }
}

/// Whether a rule orders the items of a domain: one of two comes first or they are
/// equal, and the order carries over.
pub open spec fn orders<T>(rule: spec_fn(T, T) -> Order, dom: spec_fn(T) -> bool) -> bool {
    &&& forall|a: T, b: T| dom(a) && dom(b) ==> (#[trigger] rule(b, a)) == rule(a, b).flipped()
    &&& forall|a: T, b: T, c: T|
        dom(a) && dom(b) && dom(c) && (#[trigger] rule(a, b)) != Order::Greater && (#[trigger] rule(b, c))
            != Order::Greater ==> rule(a, c) != Order::Greater && (rule(a, b) == Order::Less || rule(b, c)
            == Order::Less ==> rule(a, c) == Order::Less)
}

pub open spec fn all_in<T>(s: Seq<T>, dom: spec_fn(T) -> bool) -> bool {
    forall|i: int| 0 <= i < s.len() ==> dom(#[trigger] s[i])
}

/// Whether items are in order.
pub open spec fn in_order<T>(s: Seq<T>, rule: spec_fn(T, T) -> Order) -> bool {
    forall|i: int, j: int| 0 <= i < j < s.len() ==> rule(#[trigger] s[i], #[trigger] s[j]) != Order::Greater
}

proof fn lemma_inserted<T>(t: Seq<T>, x: T, rule: spec_fn(T, T) -> Order, dom: spec_fn(T) -> bool)
    requires
        orders(rule, dom),
        all_in(t, dom),
        dom(x),
    ensures
        inserted(t, x, rule).len() == t.len() + 1,
        all_in(inserted(t, x, rule), dom),
        in_order(t, rule) ==> in_order(inserted(t, x, rule), rule),
        inserted(t, x, rule).to_multiset() == t.to_multiset().insert(x),
    decreases t.len(),
{
    broadcast use vstd::multiset::group_multiset_axioms;
    broadcast use vstd::seq_lib::group_to_multiset_ensures;

    let r = inserted(t, x, rule);
    if t.len() == 0 {
        assert(r =~= t.push(x));
    } else {
        let z = t.last();
        let f = t.drop_last();
        assert(t =~= f.push(z));
        assert(dom(z)) by {
            assert(dom(t[t.len() - 1]));
        }
        assert(all_in(f, dom)) by {
            assert forall|i: int| 0 <= i < f.len() implies dom(#[trigger] f[i]) by {
                assert(dom(t[i]));
            }
        }
        if rule(z, x) == Order::Greater {
            lemma_inserted(f, x, rule, dom);
            let g = inserted(f, x, rule);
            assert(r == g.push(z));
            assert(r.to_multiset() =~= t.to_multiset().insert(x));
            if in_order(t, rule) {
                assert(in_order(f, rule)) by {
                    assert forall|i: int, j: int| 0 <= i < j < f.len() implies rule(#[trigger] f[i], #[trigger] f[j])
                        != Order::Greater by {
                        assert(rule(t[i], t[j]) != Order::Greater);
                    }
                }
                assert forall|i: int, j: int| 0 <= i < j < r.len() implies rule(#[trigger] r[i], #[trigger] r[j])
                    != Order::Greater by {
                    if j < g.len() {
                        assert(rule(g[i], g[j]) != Order::Greater);
                    } else {
                        lemma_member(f, x, rule, g[i]);
                        if g[i] != x {
                            let k = choose|k: int| 0 <= k < f.len() && f[k] == g[i];
                            assert(rule(t[k], t[t.len() - 1]) != Order::Greater);
                        } else {
                            assert(rule(x, z) == rule(z, x).flipped());
                        }
                    }
                }
            }
        } else {
            assert(r == t.push(x));
            if in_order(t, rule) {
                assert forall|i: int, j: int| 0 <= i < j < r.len() implies rule(#[trigger] r[i], #[trigger] r[j])
                    != Order::Greater by {
                    if j < t.len() {
                        assert(rule(t[i], t[j]) != Order::Greater);
                    } else if i < t.len() - 1 {
                        assert(dom(t[i]));
                        assert(rule(t[i], t[t.len() - 1]) != Order::Greater);
                        assert(rule(t[i], z) != Order::Greater && rule(z, x) != Order::Greater);
                    }
                }
            }
        }
    }
}

proof fn lemma_member<T>(t: Seq<T>, x: T, rule: spec_fn(T, T) -> Order, y: T)
    ensures
        inserted(t, x, rule).contains(y) ==> y == x || exists|k: int| 0 <= k < t.len() && t[k] == y,
    decreases t.len(),
{
    let r = inserted(t, x, rule);
    if r.contains(y) {
        let j = choose|j: int| 0 <= j < r.len() && r[j] == y;
        if t.len() > 0 {
            if rule(t.last(), x) == Order::Greater {
                let g = inserted(t.drop_last(), x, rule);
                lemma_member(t.drop_last(), x, rule, y);
                if j < g.len() {
                    assert(g[j] == y);
                    assert(g.contains(y));
                    if y != x {
                        let k = choose|k: int| 0 <= k < t.drop_last().len() && t.drop_last()[k] == y;
                        assert(t[k] == y);
                    }
                } else {
                    assert(t[t.len() - 1] == y);
                }
            } else {
                if j < t.len() {
                    assert(t[j] == y);
                }
            }
        }
    }
}

/// Sorting gives the same items, in order.
pub proof fn arranging_sorts<T>(s: Seq<T>, rule: spec_fn(T, T) -> Order, dom: spec_fn(T) -> bool)
    requires
        orders(rule, dom),
        all_in(s, dom),
    ensures
        in_order(arranged(s, rule), rule),
        arranged(s, rule).to_multiset() == s.to_multiset(),
        arranged(s, rule).len() == s.len(),
        all_in(arranged(s, rule), dom),
    decreases s.len(),
{
    broadcast use vstd::multiset::group_multiset_axioms;
    broadcast use vstd::seq_lib::group_to_multiset_ensures;

    if s.len() == 0 {
        assert(arranged(s, rule) =~= s);
    } else {
        let f = s.drop_last();
        assert(s =~= f.push(s.last()));
        assert(all_in(f, dom)) by {
            assert forall|i: int| 0 <= i < f.len() implies dom(#[trigger] f[i]) by {
                assert(dom(s[i]));
            }
        }
        assert(dom(s[s.len() - 1]));
        arranging_sorts(f, rule, dom);
        lemma_inserted(arranged(f, rule), s.last(), rule, dom);
    }
}

/// Sorting is stable: of two equal items of a list that is numbered in ascending order, the
/// one with the smaller number stays first.
pub proof fn arranging_is_stable<T>(s: Seq<T>, rule: spec_fn(T, T) -> Order, dom: spec_fn(T) -> bool, num: spec_fn(T) -> int)
    requires
        orders(rule, dom),
        all_in(s, dom),
        forall|i: int, j: int| 0 <= i < j < s.len() ==> num(#[trigger] s[i]) < num(#[trigger] s[j]),
    ensures
        forall|i: int, j: int|
            0 <= i < j < s.len() && rule(arranged(s, rule)[i], arranged(s, rule)[j]) == Order::Equal ==> num(
                #[trigger] arranged(s, rule)[i],
            ) < num(#[trigger] arranged(s, rule)[j]),
    decreases s.len(),
{
    if s.len() > 0 {
        let f = s.drop_last();
        assert(all_in(f, dom)) by {
            assert forall|i: int| 0 <= i < f.len() implies dom(#[trigger] f[i]) by {
                assert(dom(s[i]));
            }
        }
        assert(dom(s[s.len() - 1]));
        arranging_is_stable(f, rule, dom, num);
        arranging_sorts(f, rule, dom);
        let t = arranged(f, rule);
        broadcast use vstd::multiset::group_multiset_axioms;
        broadcast use vstd::seq_lib::group_to_multiset_ensures;

        assert forall|i: int| 0 <= i < t.len() implies num(#[trigger] t[i]) < num(s.last()) by {
            assert(t.contains(t[i]));
            assert(t.to_multiset().count(t[i]) > 0);
            assert(f.contains(t[i]));
            let k = choose|k: int| 0 <= k < f.len() && f[k] == t[i];
            assert(num(s[k]) < num(s[s.len() - 1]));
        }
        lemma_stable_step(t, s.last(), rule, dom, num);
    }
}

proof fn lemma_stable_step<T>(t: Seq<T>, x: T, rule: spec_fn(T, T) -> Order, dom: spec_fn(T) -> bool, num: spec_fn(T) -> int)
    requires
        orders(rule, dom),
        all_in(t, dom),
        dom(x),
        in_order(t, rule),
        forall|i: int| 0 <= i < t.len() ==> num(#[trigger] t[i]) < num(x),
        forall|i: int, j: int|
            0 <= i < j < t.len() && rule(t[i], t[j]) == Order::Equal ==> num(#[trigger] t[i]) < num(#[trigger] t[j]),
    ensures
        forall|i: int, j: int|
            0 <= i < j < t.len() + 1 && rule(inserted(t, x, rule)[i], inserted(t, x, rule)[j]) == Order::Equal ==> num(
                #[trigger] inserted(t, x, rule)[i],
            ) < num(#[trigger] inserted(t, x, rule)[j]),
    decreases t.len(),
{
    lemma_inserted(t, x, rule, dom);
    let r = inserted(t, x, rule);
    if t.len() > 0 {
        let f = t.drop_last();
        let z = t.last();
        assert(dom(t[t.len() - 1]));
        if rule(z, x) == Order::Greater {
            assert(all_in(f, dom)) by {
                assert forall|i: int| 0 <= i < f.len() implies dom(#[trigger] f[i]) by {
                    assert(dom(t[i]));
                }
            }
            assert forall|i: int, j: int| 0 <= i < j < f.len() implies rule(#[trigger] f[i], #[trigger] f[j])
                != Order::Greater by {
                assert(rule(t[i], t[j]) != Order::Greater);
            }
            assert forall|i: int, j: int|
                0 <= i < j < f.len() && rule(f[i], f[j]) == Order::Equal implies num(#[trigger] f[i]) < num(#[trigger] f[j]) by {
                assert(num(t[i]) < num(t[j]));
            }
            assert forall|i: int| 0 <= i < f.len() implies num(#[trigger] f[i]) < num(x) by {
                assert(num(t[i]) < num(x));
            }
            lemma_stable_step(f, x, rule, dom, num);
            lemma_inserted(f, x, rule, dom);
            let g = inserted(f, x, rule);
            assert forall|i: int, j: int| 0 <= i < j < r.len() && rule(r[i], r[j]) == Order::Equal implies num(
                #[trigger] r[i],
            ) < num(#[trigger] r[j]) by {
                if j < g.len() {
                    assert(num(g[i]) < num(g[j]));
                } else {
                    assert(g.contains(g[i]));
                    lemma_member(f, x, rule, g[i]);
                    if g[i] == x {
                        assert(rule(x, z) == rule(z, x).flipped());
                    } else {
                        let k = choose|k: int| 0 <= k < f.len() && f[k] == g[i];
                        assert(num(t[k]) < num(t[t.len() - 1]));
                    }
                }
            }
        } else {
            assert forall|i: int, j: int| 0 <= i < j < r.len() && rule(r[i], r[j]) == Order::Equal implies num(
                #[trigger] r[i],
            ) < num(#[trigger] r[j]) by {
                if j < t.len() {
                    assert(num(t[i]) < num(t[j]));
                } else {
                    assert(num(t[i]) < num(x));
                }
            }
        }
    }
}

// --- The first few ---------------------------------------------------------------------

proof fn lemma_arranged_keeps<T>(t: Seq<T>, rule: spec_fn(T, T) -> Order)
    requires
        in_order(t, rule),
    ensures
        arranged(t, rule) == t,
    decreases t.len(),
{
    if t.len() > 0 {
        let f = t.drop_last();
        assert forall|i: int, j: int| 0 <= i < j < f.len() implies rule(#[trigger] f[i], #[trigger] f[j])
            != Order::Greater by {
            assert(rule(t[i], t[j]) != Order::Greater);
        }
        lemma_arranged_keeps(f, rule);
        if f.len() > 0 {
            assert(rule(t[t.len() - 2], t[t.len() - 1]) != Order::Greater);
        }
        assert(arranged(t, rule) =~= t);
    } else {
        assert(arranged(t, rule) =~= t);
    }
}

proof fn lemma_inserted_first<T>(t: Seq<T>, x: T, n: int, rule: spec_fn(T, T) -> Order, dom: spec_fn(T) -> bool)
    requires
        orders(rule, dom),
        all_in(t, dom),
        dom(x),
        in_order(t, rule),
        0 <= n,
    ensures
        first(inserted(t, x, rule), n) == first(inserted(first(t, n), x, rule), n),
    decreases t.len(),
{
    if t.len() > n {
        let z = t.last();
        let f = t.drop_last();
        assert(all_in(f, dom)) by {
            assert forall|i: int| 0 <= i < f.len() implies dom(#[trigger] f[i]) by {
                assert(dom(t[i]));
            }
        }
        assert forall|i: int, j: int| 0 <= i < j < f.len() implies rule(#[trigger] f[i], #[trigger] f[j])
            != Order::Greater by {
            assert(rule(t[i], t[j]) != Order::Greater);
        }
        assert(first(f, n) =~= first(t, n));
        lemma_inserted(f, x, rule, dom);
        if rule(z, x) == Order::Greater {
            lemma_inserted_first(f, x, n, rule, dom);
            assert(first(inserted(t, x, rule), n) =~= first(inserted(f, x, rule), n));
        } else {
            let h = first(t, n);
            if n > 0 {
                assert(dom(t[n - 1]) && dom(t[t.len() - 1]));
                assert(rule(t[n - 1], t[t.len() - 1]) != Order::Greater);
                assert(rule(t[n - 1], z) != Order::Greater && rule(z, x) != Order::Greater);
                assert(h.last() == t[n - 1]);
                assert(inserted(h, x, rule) == h.push(x));
            }
            assert(first(inserted(t, x, rule), n) =~= h);
            assert(first(inserted(h, x, rule), n) =~= h);
        }
    } else {
        assert(first(t, n) =~= t);
    }
}

/// The first `n` items, or all if there are fewer.
pub open spec fn first<T>(s: Seq<T>, n: int) -> Seq<T> {
    if s.len() <= n {
        s
    } else {
        s.take(n)
    }
}

/// To find the first `n` of all items, only the first `n` of those seen so far need be
/// kept.
pub proof fn keeping_the_first_is_enough<T>(
    a: Seq<T>,
    b: Seq<T>,
    n: int,
    rule: spec_fn(T, T) -> Order,
    dom: spec_fn(T) -> bool,
)
    requires
        orders(rule, dom),
        all_in(a, dom),
        all_in(b, dom),
        0 <= n,
    ensures
        first(arranged(first(arranged(a, rule), n) + b, rule), n) == first(arranged(a + b, rule), n),
    decreases b.len(),
{
    arranging_sorts(a, rule, dom);
    let t = first(arranged(a, rule), n);
    assert(in_order(t, rule)) by {
        assert forall|i: int, j: int| 0 <= i < j < t.len() implies rule(#[trigger] t[i], #[trigger] t[j])
            != Order::Greater by {
            assert(rule(arranged(a, rule)[i], arranged(a, rule)[j]) != Order::Greater);
        }
    }
    assert(all_in(t, dom)) by {
        assert forall|i: int| 0 <= i < t.len() implies dom(#[trigger] t[i]) by {
            assert(dom(arranged(a, rule)[i]));
        }
    }
    if b.len() == 0 {
        assert(t + b =~= t);
        assert(a + b =~= a);
        lemma_arranged_keeps(t, rule);
        assert(first(t, n) =~= t);
    } else {
        let c = b.drop_last();
        let x = b.last();
        assert(all_in(c, dom)) by {
            assert forall|i: int| 0 <= i < c.len() implies dom(#[trigger] c[i]) by {
                assert(dom(b[i]));
            }
        }
        assert(dom(b[b.len() - 1]));
        keeping_the_first_is_enough(a, c, n, rule, dom);
        assert((t + b).drop_last() =~= t + c);
        assert((a + b).drop_last() =~= a + c);
        assert(all_in(t + c, dom)) by {
            assert forall|i: int| 0 <= i < (t + c).len() implies dom(#[trigger] (t + c)[i]) by {
                if i < t.len() {
                    assert(dom(t[i]));
                } else {
                    assert(dom(c[i - t.len()]));
                }
            }
        }
        assert(all_in(a + c, dom)) by {
            assert forall|i: int| 0 <= i < (a + c).len() implies dom(#[trigger] (a + c)[i]) by {
                if i < a.len() {
                    assert(dom(a[i]));
                } else {
                    assert(dom(c[i - a.len()]));
                }
            }
        }
        arranging_sorts(t + c, rule, dom);
        arranging_sorts(a + c, rule, dom);
        lemma_inserted_first(arranged(t + c, rule), x, n, rule, dom);
        lemma_inserted_first(arranged(a + c, rule), x, n, rule, dom);
    }
}

// --- Mapping ---------------------------------------------------------------------------

/// Sorting commutes with a mapping that keeps the order.
pub(crate) proof fn lemma_arranged_mapped<A, B>(
    s: Seq<A>,
    f: spec_fn(A) -> B,
    rule: spec_fn(A, A) -> Order,
    mapped: spec_fn(B, B) -> Order,
)
    requires
        forall|i: int, j: int|
            0 <= i < s.len() && 0 <= j < s.len() ==> mapped(f(#[trigger] s[i]), f(#[trigger] s[j])) == rule(s[i], s[j]),
    ensures
        arranged(s.map_values(f), mapped) == arranged(s, rule).map_values(f),
        forall|y: A| arranged(s, rule).contains(y) ==> #[trigger] s.contains(y),
    decreases s.len(),
{
    if s.len() > 0 {
        let g = s.drop_last();
        let x = s.last();
        assert forall|i: int, j: int| 0 <= i < g.len() && 0 <= j < g.len() implies mapped(
            f(#[trigger] g[i]),
            f(#[trigger] g[j]),
        ) == rule(g[i], g[j]) by {
            assert(mapped(f(s[i]), f(s[j])) == rule(s[i], s[j]));
        }
        lemma_arranged_mapped(g, f, rule, mapped);
        assert(s.map_values(f).drop_last() =~= g.map_values(f));
        let t = arranged(g, rule);
        assert forall|i: int| 0 <= i < t.len() implies mapped(f(#[trigger] t[i]), f(x)) == rule(t[i], x) by {
            assert(t.contains(t[i]));
            assert(g.contains(t[i]));
            let k = choose|k: int| 0 <= k < g.len() && g[k] == t[i];
            assert(s[k] == t[i]);
            assert(s[s.len() - 1] == x);
        }
        lemma_inserted_mapped(t, x, f, rule, mapped);
        assert forall|y: A| arranged(s, rule).contains(y) implies #[trigger] s.contains(y) by {
            lemma_member(t, x, rule, y);
            if y == x {
                assert(s[s.len() - 1] == y);
            } else {
                let k = choose|k: int| 0 <= k < t.len() && t[k] == y;
                assert(t.contains(y));
                assert(g.contains(y));
                let m = choose|m: int| 0 <= m < g.len() && g[m] == y;
                assert(s[m] == y);
            }
        }
    } else {
        assert(arranged(s.map_values(f), mapped) =~= arranged(s, rule).map_values(f));
    }
}

proof fn lemma_inserted_mapped<A, B>(
    t: Seq<A>,
    x: A,
    f: spec_fn(A) -> B,
    rule: spec_fn(A, A) -> Order,
    mapped: spec_fn(B, B) -> Order,
)
    requires
        forall|i: int| 0 <= i < t.len() ==> mapped(f(#[trigger] t[i]), f(x)) == rule(t[i], x),
    ensures
        inserted(t.map_values(f), f(x), mapped) == inserted(t, x, rule).map_values(f),
    decreases t.len(),
{
    if t.len() > 0 {
        let g = t.drop_last();
        assert(mapped(f(t[t.len() - 1]), f(x)) == rule(t[t.len() - 1], x));
        assert forall|i: int| 0 <= i < g.len() implies mapped(f(#[trigger] g[i]), f(x)) == rule(g[i], x) by {
            assert(mapped(f(t[i]), f(x)) == rule(t[i], x));
        }
        lemma_inserted_mapped(g, x, f, rule, mapped);
        assert(t.map_values(f).drop_last() =~= g.map_values(f));
    }
    assert(inserted(t.map_values(f), f(x), mapped) =~= inserted(t, x, rule).map_values(f));
}

// --- Merging ---------------------------------------------------------------------------

/// Two lists merged from the end; of equal items, those of the first list go first.
pub open spec fn merged<T>(x: Seq<T>, y: Seq<T>, rule: spec_fn(T, T) -> Order) -> Seq<T>
    decreases x.len() + y.len(),
{
    if x.len() == 0 {
        y
    } else if y.len() == 0 {
        x
    } else if rule(x.last(), y.last()) == Order::Greater {
        merged(x.drop_last(), y, rule).push(x.last())
    } else {
        merged(x, y.drop_last(), rule).push(y.last())
    }
}

proof fn lemma_merged_inserted<T>(x: Seq<T>, y: Seq<T>, e: T, rule: spec_fn(T, T) -> Order, dom: spec_fn(T) -> bool)
    requires
        orders(rule, dom),
        all_in(x, dom),
        all_in(y, dom),
        dom(e),
    ensures
        merged(x, inserted(y, e, rule), rule) == inserted(merged(x, y, rule), e, rule),
    decreases x.len() + y.len(),
{
    let y2 = inserted(y, e, rule);
    if x.len() > 0 {
        let a = x.last();
        let x1 = x.drop_last();
        assert(dom(x[x.len() - 1]));
        assert(all_in(x1, dom)) by {
            assert forall|i: int| 0 <= i < x1.len() implies dom(#[trigger] x1[i]) by {
                assert(dom(x[i]));
            }
        }
        if y.len() == 0 {
            assert(y2 =~= seq![e]);
            assert(y2.drop_last() =~= y);
            assert(y2.last() == e);
            assert(merged(x, y, rule) == x);
            if rule(a, e) == Order::Greater {
                lemma_merged_inserted(x1, y, e, rule, dom);
                assert(merged(x1, y, rule) =~= x1);
                assert(merged(x, y2, rule) =~= inserted(x, e, rule));
            } else {
                assert(merged(x, y2, rule) =~= x.push(e));
            }
        } else {
            let b = y.last();
            let y1 = y.drop_last();
            assert(dom(y[y.len() - 1]));
            assert(all_in(y1, dom)) by {
                assert forall|i: int| 0 <= i < y1.len() implies dom(#[trigger] y1[i]) by {
                    assert(dom(y[i]));
                }
            }
            assert(rule(b, a) == rule(a, b).flipped());
            assert(rule(e, a) == rule(a, e).flipped());
            assert(rule(e, b) == rule(b, e).flipped());
            if rule(b, e) != Order::Greater {
                assert(y2 == y.push(e));
                assert(y2.drop_last() =~= y);
                if rule(a, e) == Order::Greater {
                    assert(rule(b, e) != Order::Greater && rule(e, a) == Order::Less);
                    assert(rule(b, a) == Order::Less);
                    lemma_merged_inserted(x1, y, e, rule, dom);
                    let m1 = merged(x1, y, rule);
                    assert(merged(x, y, rule) == m1.push(a));
                    assert(m1.push(a).drop_last() =~= m1);
                    assert(merged(x, y2, rule) == merged(x1, y2, rule).push(a));
                } else {
                    assert(merged(x, y, rule).last() == a || merged(x, y, rule).last() == b);
                    assert(merged(x, y2, rule) == merged(x, y, rule).push(e));
                    lemma_merged_len(x, y, rule);
                }
            } else {
                assert(y2 == inserted(y1, e, rule).push(b));
                assert(y2.drop_last() =~= inserted(y1, e, rule));
                if rule(a, b) == Order::Greater {
                    assert(rule(e, b) == Order::Less && rule(b, a) == Order::Less);
                    assert(rule(e, a) == Order::Less);
                    lemma_merged_inserted(x1, y, e, rule, dom);
                    let m1 = merged(x1, y, rule);
                    assert(merged(x, y, rule) == m1.push(a));
                    assert(m1.push(a).drop_last() =~= m1);
                    assert(merged(x, y2, rule) == merged(x1, y2, rule).push(a));
                } else {
                    lemma_merged_inserted(x, y1, e, rule, dom);
                    let m1 = merged(x, y1, rule);
                    assert(merged(x, y, rule) == m1.push(b));
                    assert(m1.push(b).drop_last() =~= m1);
                    assert(merged(x, y2, rule) == merged(x, y2.drop_last(), rule).push(b));
                }
            }
        }
        assert(merged(x, y2, rule) =~= inserted(merged(x, y, rule), e, rule));
    }
}

proof fn lemma_merge_arranges<T>(a: Seq<T>, b: Seq<T>, rule: spec_fn(T, T) -> Order, dom: spec_fn(T) -> bool)
    requires
        orders(rule, dom),
        all_in(a, dom),
        all_in(b, dom),
    ensures
        merged(arranged(a, rule), arranged(b, rule), rule) == arranged(a + b, rule),
    decreases b.len(),
{
    arranging_sorts(a, rule, dom);
    if b.len() == 0 {
        assert(a + b =~= a);
        let x = arranged(a, rule);
        assert(merged(x, Seq::empty(), rule) =~= x);
    } else {
        let c = b.drop_last();
        assert(all_in(c, dom)) by {
            assert forall|i: int| 0 <= i < c.len() implies dom(#[trigger] c[i]) by {
                assert(dom(b[i]));
            }
        }
        assert(dom(b[b.len() - 1]));
        lemma_merge_arranges(a, c, rule, dom);
        arranging_sorts(c, rule, dom);
        lemma_merged_inserted(arranged(a, rule), arranged(c, rule), b.last(), rule, dom);
        assert((a + b).drop_last() =~= a + c);
    }
}

/// A rule on row numbers that can be asked.
pub trait RowOrder {
    /// The rule.
    spec fn rule(&self) -> spec_fn(u32, u32) -> Order;

    /// The rows that it can be asked about.
    spec fn dom(&self) -> spec_fn(u32) -> bool;

    fn order_rows(&self, a: u32, b: u32) -> (r: Order)
        requires
            (self.dom())(a),
            (self.dom())(b),
        ensures
            r == (self.rule())(a, b),
    ;
}

fn merge_rows<O: RowOrder>(o: &O, a: &Vec<u32>, b: &Vec<u32>) -> (r: Vec<u32>)
    requires
        all_in(a@, o.dom()),
        all_in(b@, o.dom()),
        a@.len() + b@.len() <= usize::MAX,
    ensures
        r@ == merged(a@, b@, o.rule()),
{
    let n: usize = a.len() + b.len();
    let mut out: Vec<u32> = vec![0; n];
    let mut i: usize = a.len();
    let mut j: usize = b.len();
    let ghost all = merged(a@, b@, o.rule());
    proof {
        assert(a@.take(i as int) =~= a@);
        assert(b@.take(j as int) =~= b@);
        lemma_merged_len(a@, b@, o.rule());
    }
    while i > 0 || j > 0
        invariant
            all_in(a@, o.dom()),
            all_in(b@, o.dom()),
            i <= a@.len(),
            j <= b@.len(),
            n == a@.len() + b@.len(),
            out@.len() == n,
            all.len() == n,
            merged(a@.take(i as int), b@.take(j as int), o.rule()) == all.take(i + j),
            forall|k: int| i + j <= k < n ==> out@[k] == all[k],
        decreases i + j,
    {
        let ghost x = a@.take(i as int);
        let ghost y = b@.take(j as int);
        let k: usize = i + j - 1;
        proof {
            lemma_merged_len(x, y, o.rule());
            if i > 0 {
                assert(x.drop_last() =~= a@.take(i - 1));
                assert(x.last() == a@[i - 1]);
                assert((o.dom())(a@[i - 1]));
            }
            if j > 0 {
                assert(y.drop_last() =~= b@.take(j - 1));
                assert(y.last() == b@[j - 1]);
                assert((o.dom())(b@[j - 1]));
            }
            assert(all.take(i + j).drop_last() =~= all.take(k as int));
            assert(all.take(i + j).last() == all[k as int]);
        }
        let from_a: bool = if i == 0 {
            false
        } else if j == 0 {
            true
        } else {
            match o.order_rows(a[i - 1], b[j - 1]) {
                Order::Greater => true,
                _ => false,
            }
        };
        if from_a {
            out.set(k, a[i - 1]);
            i = i - 1;
            proof {
                if j == 0 {
                    assert(x =~= a@.take(i as int).push(a@[i as int]));
                    assert(merged(a@.take(i as int), y, o.rule()) =~= all.take(i + j));
                }
            }
        } else {
            out.set(k, b[j - 1]);
            j = j - 1;
            proof {
                if i == 0 {
                    assert(y =~= b@.take(j as int).push(b@[j as int]));
                    assert(merged(x, b@.take(j as int), o.rule()) =~= all.take(i + j));
                }
            }
        }
    }
    assert(out@ =~= all);
    out
}

proof fn lemma_merged_len<T>(x: Seq<T>, y: Seq<T>, rule: spec_fn(T, T) -> Order)
    ensures
        merged(x, y, rule).len() == x.len() + y.len(),
    decreases x.len() + y.len(),
{
    if x.len() > 0 && y.len() > 0 {
        lemma_merged_len(x.drop_last(), y, rule);
        lemma_merged_len(x, y.drop_last(), rule);
    }
}

/// Sorts row numbers, stably.
pub fn sort_rows<O: RowOrder>(o: &O, v: &Vec<u32>) -> (r: Vec<u32>)
    requires
        orders(o.rule(), o.dom()),
        all_in(v@, o.dom()),
    ensures
        r@ == arranged(v@, o.rule()),
        r@.len() == v@.len(),
        all_in(r@, o.dom()),
{
    let r = sort_range(o, v, 0, v.len());
    assert(v@.subrange(0, v@.len() as int) =~= v@);
    proof {
        arranging_sorts(v@, o.rule(), o.dom());
    }
    r
}

fn sort_range<O: RowOrder>(o: &O, v: &Vec<u32>, lo: usize, hi: usize) -> (r: Vec<u32>)
    requires
        orders(o.rule(), o.dom()),
        all_in(v@, o.dom()),
        lo <= hi <= v@.len(),
    ensures
        r@ == arranged(v@.subrange(lo as int, hi as int), o.rule()),
    decreases hi - lo,
{
    let ghost s = v@.subrange(lo as int, hi as int);
    if hi - lo <= 1 {
        let mut r: Vec<u32> = Vec::new();
        if lo < hi {
            r.push(v[lo]);
            proof {
                assert(s =~= seq![v@[lo as int]]);
                assert(s.drop_last() =~= Seq::empty());
                assert(arranged(s.drop_last(), o.rule()) =~= Seq::empty());
                assert(r@ =~= arranged(s, o.rule()));
            }
        } else {
            assert(r@ =~= arranged(s, o.rule()));
        }
        return r;
    }
    let mid: usize = lo + (hi - lo) / 2;
    let a = sort_range(o, v, lo, mid);
    let b = sort_range(o, v, mid, hi);
    let ghost sa = v@.subrange(lo as int, mid as int);
    let ghost sb = v@.subrange(mid as int, hi as int);
    proof {
        assert(all_in(sa, o.dom())) by {
            assert forall|i: int| 0 <= i < sa.len() implies (o.dom())(#[trigger] sa[i]) by {
                assert((o.dom())(v@[lo + i]));
            }
        }
        assert(all_in(sb, o.dom())) by {
            assert forall|i: int| 0 <= i < sb.len() implies (o.dom())(#[trigger] sb[i]) by {
                assert((o.dom())(v@[mid + i]));
            }
        }
        arranging_sorts(sa, o.rule(), o.dom());
        arranging_sorts(sb, o.rule(), o.dom());
        lemma_merge_arranges(sa, sb, o.rule(), o.dom());
        assert(sa + sb =~= s);
    }
    merge_rows(o, &a, &b)
}

// --- Rows ordered by their keys ---------------------------------------------------------

/// The order of two cells under one key.
pub open spec fn cell_order(k: SortKeyV, ty: Ty, a: Val, b: Val) -> Order {
    if a is Null && b is Null {
        Order::Equal
    } else if a is Null {
        if k.nulls_first {
            Order::Less
        } else {
            Order::Greater
        }
    } else if b is Null {
        if k.nulls_first {
            Order::Greater
        } else {
            Order::Less
        }
    } else if k.desc {
        val_order(a, b, ty).flipped()
    } else {
        val_order(a, b, ty)
    }
}

/// The order of two rows of key cells: by the first key that tells them apart.
pub open spec fn key_order(ks: Seq<SortKeyV>, tys: Seq<Ty>, a: Seq<Val>, b: Seq<Val>, k: int) -> Order
    decreases ks.len() - k,
{
    if k >= ks.len() {
        Order::Equal
    } else {
        let o = cell_order(ks[k], tys[k], a[k], b[k]);
        if o != Order::Equal {
            o
        } else {
            key_order(ks, tys, a, b, k + 1)
        }
    }
}

/// Whether key cells fit their columns.
pub open spec fn key_fits(n: nat, tys: Seq<Ty>, a: Seq<Val>) -> bool {
    &&& a.len() == n
    &&& tys.len() == n
    &&& forall|k: int| 0 <= k < n ==> (#[trigger] a[k]).fits(tys[k].phys())
}

proof fn lemma_key_order_flips(ks: Seq<SortKeyV>, tys: Seq<Ty>, a: Seq<Val>, b: Seq<Val>, k: int)
    requires
        0 <= k,
    ensures
        key_order(ks, tys, b, a, k) == key_order(ks, tys, a, b, k).flipped(),
    decreases ks.len() - k,
{
    if k < ks.len() {
        val_order_flips(a[k], b[k], tys[k]);
        lemma_key_order_flips(ks, tys, a, b, k + 1);
    }
}

proof fn lemma_cell_order_transitive(k: SortKeyV, ty: Ty, a: Val, b: Val, c: Val)
    requires
        a.fits(ty.phys()),
        b.fits(ty.phys()),
        c.fits(ty.phys()),
        cell_order(k, ty, a, b) != Order::Greater,
        cell_order(k, ty, b, c) != Order::Greater,
    ensures
        cell_order(k, ty, a, c) != Order::Greater,
        cell_order(k, ty, a, b) == Order::Less || cell_order(k, ty, b, c) == Order::Less ==> cell_order(k, ty, a, c)
            == Order::Less,
        cell_order(k, ty, a, b) == Order::Equal && cell_order(k, ty, b, c) == Order::Equal ==> cell_order(k, ty, a, c)
            == Order::Equal,
{
    if !(a is Null) && !(b is Null) && !(c is Null) {
        val_order_flips(a, b, ty);
        val_order_flips(b, c, ty);
        val_order_flips(a, c, ty);
        if k.desc {
            val_order_is_transitive(c, b, a, ty);
            if val_order(a, b, ty) == Order::Equal && val_order(b, c, ty) == Order::Equal {
                val_order_is_transitive(a, b, c, ty);
            }
        } else {
            val_order_is_transitive(a, b, c, ty);
            if val_order(a, b, ty) == Order::Equal && val_order(b, c, ty) == Order::Equal {
                val_order_is_transitive(c, b, a, ty);
            }
        }
    }
}

proof fn lemma_key_order_transitive(ks: Seq<SortKeyV>, tys: Seq<Ty>, a: Seq<Val>, b: Seq<Val>, c: Seq<Val>, k: int)
    requires
        0 <= k,
        key_fits(ks.len(), tys, a),
        key_fits(ks.len(), tys, b),
        key_fits(ks.len(), tys, c),
        key_order(ks, tys, a, b, k) != Order::Greater,
        key_order(ks, tys, b, c, k) != Order::Greater,
    ensures
        key_order(ks, tys, a, c, k) != Order::Greater,
        key_order(ks, tys, a, b, k) == Order::Less || key_order(ks, tys, b, c, k) == Order::Less ==> key_order(
            ks,
            tys,
            a,
            c,
            k,
        ) == Order::Less,
    decreases ks.len() - k,
{
    if k < ks.len() {
        assert(a[k].fits(tys[k].phys()) && b[k].fits(tys[k].phys()) && c[k].fits(tys[k].phys()));
        lemma_cell_order_transitive(ks[k], tys[k], a[k], b[k], c[k]);
        if cell_order(ks[k], tys[k], a[k], b[k]) == Order::Equal && cell_order(ks[k], tys[k], b[k], c[k])
            == Order::Equal {
            lemma_key_order_transitive(ks, tys, a, b, c, k + 1);
        }
    }
}

/// Ordering key cells is an order: total, and it carries over.
pub proof fn keys_are_ordered(ks: Seq<SortKeyV>, tys: Seq<Ty>)
    ensures
        orders(
            |a: Seq<Val>, b: Seq<Val>| key_order(ks, tys, a, b, 0),
            |a: Seq<Val>| key_fits(ks.len(), tys, a),
        ),
{
    let rule = |a: Seq<Val>, b: Seq<Val>| key_order(ks, tys, a, b, 0);
    let dom = |a: Seq<Val>| key_fits(ks.len(), tys, a);
    assert forall|a: Seq<Val>, b: Seq<Val>| dom(a) && dom(b) implies (#[trigger] rule(b, a)) == rule(a, b).flipped() by {
        lemma_key_order_flips(ks, tys, a, b, 0);
    }
    assert forall|a: Seq<Val>, b: Seq<Val>, c: Seq<Val>|
        dom(a) && dom(b) && dom(c) && (#[trigger] rule(a, b)) != Order::Greater && (#[trigger] rule(b, c))
            != Order::Greater implies rule(a, c) != Order::Greater && (rule(a, b) == Order::Less || rule(b, c)
        == Order::Less ==> rule(a, c) == Order::Less) by {
        lemma_key_order_transitive(ks, tys, a, b, c, 0);
    }
}

/// The key cells of a row.
pub open spec fn key_cells(cols: Seq<ColV>, r: int) -> Seq<Val> {
    Seq::new(cols.len(), |c: int| cols[c].cells[r])
}

pub open spec fn key_types(cols: Seq<ColV>) -> Seq<Ty> {
    Seq::new(cols.len(), |c: int| cols[c].ty)
}

/// Rows numbered from 0, ordered by key columns.
pub struct KeyedRows<'a> {
    pub keys: &'a Vec<SortKey>,
    pub cols: &'a Vec<Vector>,
    pub rows: usize,
}

impl<'a> KeyedRows<'a> {
    pub open spec fn wf(&self) -> bool {
        &&& self.keys@.len() == self.cols@.len()
        &&& cols_wf(self.cols@, self.rows as int)
    }
}

/// The rule that orders row numbers by key columns.
pub open spec fn row_rule(ks: Seq<SortKeyV>, cols: Seq<ColV>) -> spec_fn(u32, u32) -> Order {
    |a: u32, b: u32| key_order(ks, key_types(cols), key_cells(cols, a as int), key_cells(cols, b as int), 0)
}

impl<'a> RowOrder for KeyedRows<'a> {
    open spec fn rule(&self) -> spec_fn(u32, u32) -> Order {
        row_rule(keys_of(self.keys@), cols_of(self.cols@))
    }

    open spec fn dom(&self) -> spec_fn(u32) -> bool {
        |a: u32| self.wf() && a < self.rows
    }

    fn order_rows(&self, a: u32, b: u32) -> (r: Order) {
        let ghost ks = keys_of(self.keys@);
        let ghost vs = cols_of(self.cols@);
        let mut k: usize = 0;
        while k < self.keys.len()
            invariant
                self.wf(),
                a < self.rows,
                b < self.rows,
                ks == keys_of(self.keys@),
                vs == cols_of(self.cols@),
                k <= self.keys@.len(),
                (self.rule())(a, b) == key_order(ks, key_types(vs), key_cells(vs, a as int), key_cells(vs, b as int), k as int),
            decreases self.keys@.len() - k,
        {
            let c: &Vector = &self.cols[k];
            assert(c@.len() == self.rows);
            assert(vs[k as int].cells == c@ && vs[k as int].ty == c.ty());
            let va: bool = c.is_valid(a as usize);
            let vb: bool = c.is_valid(b as usize);
            let desc: bool = self.keys[k].desc;
            let nulls_first: bool = self.keys[k].nulls_first;
            let o: Order = if !va && !vb {
                Order::Equal
            } else if !va {
                if nulls_first {
                    Order::Less
                } else {
                    Order::Greater
                }
            } else if !vb {
                if nulls_first {
                    Order::Greater
                } else {
                    Order::Less
                }
            } else {
                let v: Order = order_values(c.cell(a as usize), c.cell(b as usize), c.ty());
                if desc {
                    v.reverse()
                } else {
                    v
                }
            };
            assert(o == cell_order(ks[k as int], key_types(vs)[k as int], key_cells(vs, a as int)[k as int], key_cells(
                vs,
                b as int,
            )[k as int]));
            if o != Order::Equal {
                return o;
            }
            k = k + 1;
        }
        Order::Equal
    }
}

/// Rows ordered by key columns are ordered.
pub(crate) proof fn lemma_rows_ordered(k: KeyedRows)
    requires
        k.wf(),
    ensures
        orders(k.rule(), k.dom()),
{
    let ks = keys_of(k.keys@);
    let vs = cols_of(k.cols@);
    let tys = key_types(vs);
    let rule = k.rule();
    let dom = k.dom();
    assert forall|a: u32| dom(a) implies key_fits(ks.len(), tys, #[trigger] key_cells(vs, a as int)) by {
        assert forall|c: int| 0 <= c < ks.len() implies (#[trigger] key_cells(vs, a as int)[c]).fits(tys[c].phys()) by {
            assert(k.cols@[c].wf());
            assert(k.cols@[c]@[a as int].fits(k.cols@[c].ty().phys()));
        }
    }
    assert forall|a: u32, b: u32| dom(a) && dom(b) implies (#[trigger] rule(b, a)) == rule(a, b).flipped() by {
        lemma_key_order_flips(ks, tys, key_cells(vs, a as int), key_cells(vs, b as int), 0);
    }
    assert forall|a: u32, b: u32, c: u32|
        dom(a) && dom(b) && dom(c) && (#[trigger] rule(a, b)) != Order::Greater && (#[trigger] rule(b, c))
            != Order::Greater implies rule(a, c) != Order::Greater && (rule(a, b) == Order::Less || rule(b, c)
        == Order::Less ==> rule(a, c) == Order::Less) by {
        lemma_key_order_transitive(
            ks,
            tys,
            key_cells(vs, a as int),
            key_cells(vs, b as int),
            key_cells(vs, c as int),
            0,
        );
    }
}

/// The order of two rows: by the keys, and by the row numbers if the keys are equal.
pub fn cmp_row(keys: &Vec<SortKey>, cols: &Vec<Vector>, a: u32, b: u32) -> (r: Order)
    requires
        keys@.len() == cols@.len(),
        forall|c: int|
            0 <= c < cols@.len() ==> (#[trigger] cols@[c]).wf() && a < cols@[c]@.len() && cols@[c]@.len() == cols@[0]@.len() && b
                < cols@[c]@.len(),
    ensures
        r == {
            let o = (row_rule(keys_of(keys@), cols_of(cols@)))(a, b);
            if o != Order::Equal {
                o
            } else if a < b {
                Order::Less
            } else if a > b {
                Order::Greater
            } else {
                Order::Equal
            }
        },
{
    if cols.len() > 0 {
        let rows: usize = cols[0].len();
        let o = KeyedRows { keys, cols, rows };
        let by_keys = o.order_rows(a, b);
        if by_keys != Order::Equal {
            return by_keys;
        }
    }
    if a < b {
        Order::Less
    } else if a > b {
        Order::Greater
    } else {
        Order::Equal
    }
}

} // verus!
