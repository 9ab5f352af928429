//! The looks that carrying a plan out takes at the splits of tables in files.

use crate::catalog::Catalog;
use crate::exec::{extends, Look};
use vstd::prelude::*;

verus! {

/// Looks that follow one another at once: the first begins with one catalog, each later one with what
/// the one before has left, and the last leaves the other catalog.
pub open spec fn leads(from: Catalog, ls: Seq<Look>, to: Catalog) -> bool
    decreases ls.len(),
{
    if ls.len() == 0 {
        from == to
    } else {
        ls.last().after == to && leads(from, ls.drop_last(), ls.last().before)
    }
}

/// Looks have been added that lead from one catalog to the other.
#[verifier::opaque]
pub open spec fn led_on(was: Seq<Look>, from: Catalog, now: Seq<Look>, to: Catalog) -> bool {
    extends(was, now) && leads(from, now.skip(was.len() as int), to)
}

/// What a pull does to the looks taken: it adds some, or none, that lead from the catalog before it to the
/// catalog after it.
pub open spec fn looked_on(was: Seq<Look>, from: Catalog, now: Seq<Look>, to: Catalog) -> bool {
    was.len() <= now.len() && led_on(was, from, now, to)
}

/// Some looks are among others, in the same order.
#[verifier::opaque]
pub open spec fn within(part: Seq<Look>, all: Seq<Look>) -> bool
    decreases all.len(),
{
    if part.len() == 0 {
        true
    } else if all.len() == 0 {
        false
    } else {
        ||| within(part, all.drop_last())
        ||| part.last() == all.last() && within(part.drop_last(), all.drop_last())
    }
}

/// The looks of one input, after those that were taken for it or for another input.
pub open spec fn added(all: Seq<Look>, was: Seq<Look>, now: Seq<Look>) -> Seq<Look> {
    all + now.skip(was.len() as int)
}

pub(crate) proof fn lemma_no_look(was: Seq<Look>, at: Catalog)
    ensures
        looked_on(was, at, was, at),
{
    reveal(led_on);
    assert(was.take(was.len() as int) =~= was);
    assert(was.skip(was.len() as int).len() == 0);
}

proof fn lemma_leads_on(from: Catalog, a: Seq<Look>, mid: Catalog, b: Seq<Look>, to: Catalog)
    requires
        leads(from, a, mid),
        leads(mid, b, to),
    ensures
        leads(from, a + b, to),
    decreases b.len(),
{
    if b.len() == 0 {
        assert(a + b =~= a);
    } else {
        lemma_leads_on(from, a, mid, b.drop_last(), b.last().before);
        assert((a + b).drop_last() =~= a + b.drop_last());
    }
}

pub(crate) proof fn lemma_looked_twice(
    a: Seq<Look>,
    from: Catalog,
    b: Seq<Look>,
    mid: Catalog,
    c: Seq<Look>,
    to: Catalog,
)
    requires
        looked_on(a, from, b, mid),
        looked_on(b, mid, c, to),
    ensures
        looked_on(a, from, c, to),
{
    reveal(led_on);
    let n = a.len() as int;
    let m = b.len() as int;
    lemma_leads_on(from, b.skip(n), mid, c.skip(m), to);
    assert(c.take(n) =~= c.take(m).take(n));
    assert(c.skip(n) =~= c.take(m).skip(n) + c.skip(m));
}

proof fn lemma_within_more(part: Seq<Look>, all: Seq<Look>, more: Seq<Look>)
    requires
        within(part, all),
    ensures
        within(part, all + more),
    decreases more.len(),
{
    if more.len() == 0 {
        assert(all + more =~= all);
    } else {
        lemma_within_more(part, all, more.drop_last());
        assert((all + more).drop_last() =~= all + more.drop_last());
        reveal_with_fuel(within, 1);
    }
}

proof fn lemma_within_both(part: Seq<Look>, all: Seq<Look>, more: Seq<Look>)
    requires
        within(part, all),
    ensures
        within(part + more, all + more),
    decreases more.len(),
{
    if more.len() == 0 {
        assert(all + more =~= all);
        assert(part + more =~= part);
    } else {
        lemma_within_both(part, all, more.drop_last());
        assert((all + more).drop_last() =~= all + more.drop_last());
        assert((part + more).drop_last() =~= part + more.drop_last());
        reveal_with_fuel(within, 1);
    }
}

/// Looks are among themselves and others.
pub(crate) proof fn lemma_within_sum(a: Seq<Look>, b: Seq<Look>)
    ensures
        within(a, a + b),
        within(b, a + b),
{
    let none = Seq::<Look>::empty();
    assert(within(none, none) && within(none, a)) by {
        reveal_with_fuel(within, 1);
    }
    lemma_within_both(none, none, a);
    assert(none + a =~= a);
    lemma_within_more(a, a, b);
    lemma_within_both(none, a, b);
    assert(none + b =~= b);
}

/// No looks are among any.
pub(crate) proof fn lemma_within_none(all: Seq<Look>)
    ensures
        within(Seq::empty(), all),
{
    reveal_with_fuel(within, 1);
}

/// The looks of an input are kept among those of all inputs, and so are those of the other inputs.
pub(crate) proof fn lemma_beside(all: Seq<Look>, was: Seq<Look>, from: Catalog, now: Seq<Look>, to: Catalog)
    requires
        looked_on(was, from, now, to),
        within(was, all),
    ensures
        looked_on(all, from, added(all, was, now), to),
        within(now, added(all, was, now)),
        forall|o: Seq<Look>| #[trigger] within(o, all) ==> within(o, added(all, was, now)),
        now.len() > was.len() ==> added(all, was, now).len() > all.len() && added(all, was, now).last() == now.last(),
{
    reveal(led_on);
    let more = now.skip(was.len() as int);
    let sum = added(all, was, now);
    assert(now =~= was + more);
    lemma_within_both(was, all, more);
    assert(sum.take(all.len() as int) =~= all);
    assert(sum.skip(all.len() as int) =~= more);
    assert forall|o: Seq<Look>| #[trigger] within(o, all) implies within(o, sum) by {
        lemma_within_more(o, all, more);
    }
}

} // verus!
