//! What a peeling decoder recovers, stated without reference to the order in
//! which it works: the peeling closure of its equations.
//!
//! An equation is the set of source indices an encoded symbol still names. An
//! index is recovered by peeling when some equation has it as its only unknown;
//! the closure is what repeated peeling reaches from the indices known at the
//! start, characterised as the intersection of all sets that contain those
//! indices and leave no equation with a single unknown.

use vstd::prelude::*;
use crate::lt::strictly_increasing;

verus! {

/// `x` is the only index of `e` outside `s`.
pub open spec fn sole_unknown(e: Set<u32>, s: Set<u32>, x: u32) -> bool {
    &&& e.contains(x)
    &&& !s.contains(x)
    &&& forall|y: u32| #[trigger] e.contains(y) && y != x ==> s.contains(y)
}

/// No equation of `eqs` has exactly one index outside `s`.
pub open spec fn peel_closed(eqs: Seq<Set<u32>>, s: Set<u32>) -> bool {
    forall|i: int, x: u32| 0 <= i < eqs.len() ==> !#[trigger] sole_unknown(eqs[i], s, x)
}

/// The indices that peeling the equations `eqs` recovers, starting from the known
/// indices `known`.
pub open spec fn peeling_closure(eqs: Seq<Set<u32>>, known: Set<u32>) -> Set<u32> {
    Set::new(
        |x: u32|
            forall|s: Set<u32>| #![trigger peel_closed(eqs, s)]
                known.subset_of(s) && peel_closed(eqs, s) ==> s.contains(x),
    )
}

/// `d` is what is left of some equation of `eqs` once the indices of `k` are dropped.
pub open spec fn from_some_eq(d: Set<u32>, eqs: Seq<Set<u32>>, k: Set<u32>) -> bool {
    exists|i: int| #![trigger eqs[i]] 0 <= i < eqs.len() && d == eqs[i].difference(k)
}

/// `d` is one of `sets`.
pub open spec fn in_list(d: Set<u32>, sets: Seq<Set<u32>>) -> bool {
    exists|j: int| #![trigger sets[j]] 0 <= j < sets.len() && sets[j] == d
}

/// Every set of `sets` is what is left of some equation once the indices of `k`
/// are dropped.
pub open spec fn lists_from(sets: Seq<Set<u32>>, eqs: Seq<Set<u32>>, k: Set<u32>) -> bool {
    forall|j: int| 0 <= j < sets.len() ==> #[trigger] from_some_eq(sets[j], eqs, k)
}

/// Every equation that still has an index outside `k` is in `sets`, with the indices
/// of `k` dropped.
pub open spec fn eqs_listed(sets: Seq<Set<u32>>, eqs: Seq<Set<u32>>, k: Set<u32>) -> bool {
    forall|i: int| 0 <= i < eqs.len() ==> #[trigger] eqs[i].difference(k).is_empty()
        || in_list(eqs[i].difference(k), sets)
}

/// The known indices belong to the closure.
pub proof fn lemma_known_in_closure(eqs: Seq<Set<u32>>, known: Set<u32>)
    ensures
        known.subset_of(peeling_closure(eqs, known)),
{
}

/// Peeling one more index keeps what is known inside the closure: if `k` lies in
/// the closure and `idx` is the only unknown of equation `i`, `idx` lies in it too.
pub proof fn lemma_closure_step(eqs: Seq<Set<u32>>, known: Set<u32>, k: Set<u32>, i: int, idx: u32)
    requires
        k.subset_of(peeling_closure(eqs, known)),
        0 <= i < eqs.len(),
        eqs[i].difference(k) == set![idx],
    ensures
        peeling_closure(eqs, known).contains(idx),
{
    assert forall|s: Set<u32>| #![trigger peel_closed(eqs, s)]
        known.subset_of(s) && peel_closed(eqs, s) implies s.contains(idx) by {
        assert forall|y: u32| k.contains(y) implies s.contains(y) by {
            assert(peeling_closure(eqs, known).contains(y));
        }
        if !s.contains(idx) {
            assert(eqs[i].difference(k).contains(idx));
            assert forall|y: u32| #[trigger] eqs[i].contains(y) && y != idx implies s.contains(y) by {
                if !k.contains(y) {
                    assert(eqs[i].difference(k).contains(y));
                }
            }
            assert(sole_unknown(eqs[i], s, idx));
        }
    }
}

/// An increasing list with at least two entries names at least two indices.
pub proof fn lemma_not_single(v: Seq<u32>, x: u32)
    requires
        strictly_increasing(v),
        v.len() >= 2,
    ensures
        v.to_set() != set![x],
{
    if v.to_set() == set![x] {
        assert(v.to_set().contains(v[0]));
        assert(v.to_set().contains(v[1]));
    }
}

/// A list is empty exactly when the set of its entries is.
pub proof fn lemma_empty_list_set(v: Seq<u32>)
    ensures
        v.len() == 0 <==> v.to_set().is_empty(),
{
    if v.len() > 0 {
        assert(v.to_set().contains(v[0]));
    } else {
        assert(v.to_set() =~= Set::<u32>::empty());
    }
}

/// Once every listed equation has at least two unknowns, what is known is the whole closure.
pub proof fn lemma_closure_reached(eqs: Seq<Set<u32>>, known: Set<u32>, k: Set<u32>, sets: Seq<Set<u32>>)
    requires
        known.subset_of(k),
        k.subset_of(peeling_closure(eqs, known)),
        eqs_listed(sets, eqs, k),
        forall|j: int, x: u32| 0 <= j < sets.len() && #[trigger] sets[j].contains(x) ==> sets[j] != set![x],
    ensures
        k == peeling_closure(eqs, known),
        peel_closed(eqs, k),
{
    assert forall|i: int, x: u32| 0 <= i < eqs.len() implies !#[trigger] sole_unknown(eqs[i], k, x) by {
        if sole_unknown(eqs[i], k, x) {
            let d = eqs[i].difference(k);
            assert(d =~= set![x]) by {
                assert forall|y: u32| d.contains(y) implies y == x by {}
            }
            assert(d.contains(x));
            assert(!d.is_empty());
            assert(in_list(d, sets));
            let j = choose|j: int| #![trigger sets[j]] 0 <= j < sets.len() && sets[j] == d;
            assert(sets[j].contains(x));
        }
    }
    assert(peel_closed(eqs, k));
    assert(peeling_closure(eqs, known) =~= k) by {
        assert forall|x: u32| peeling_closure(eqs, known).contains(x) implies k.contains(x) by {}
    }
}

/// Removing entry `q` from an increasing list removes that index from its set.
pub proof fn lemma_remove_to_set(v: Seq<u32>, q: int)
    requires
        strictly_increasing(v),
        0 <= q < v.len(),
    ensures
        v.remove(q).to_set() == v.to_set().remove(v[q]),
{
    let r = v.remove(q);
    assert forall|y: u32| r.to_set().contains(y) <==> v.to_set().remove(v[q]).contains(y) by {
        if r.to_set().contains(y) {
            let a = choose|a: int| 0 <= a < r.len() && r[a] == y;
            if a < q {
                assert(v[a] == y);
                assert(v[a] < v[q]);
            } else {
                assert(v[a + 1] == y);
                assert(v[a + 1] > v[q]);
            }
        }
        if v.to_set().remove(v[q]).contains(y) {
            let a = choose|a: int| 0 <= a < v.len() && v[a] == y;
            assert(a != q);
            if a < q {
                assert(r[a] == y);
            } else {
                assert(r[a - 1] == y);
            }
        }
    }
    assert(r.to_set() =~= v.to_set().remove(v[q]));
}

/// At the start of peeling, with every index of the equations unknown, each
/// equation is listed as it is.
pub proof fn lemma_lists_initial(eqs: Seq<Set<u32>>, k: Set<u32>)
    requires
        forall|j: int, y: u32| 0 <= j < eqs.len() && #[trigger] eqs[j].contains(y) ==> !k.contains(y),
    ensures
        lists_from(eqs, eqs, k),
        eqs_listed(eqs, eqs, k),
{
    assert forall|j: int| 0 <= j < eqs.len() implies #[trigger] from_some_eq(eqs[j], eqs, k) by {
        assert(eqs[j] =~= eqs[j].difference(k));
    }
    assert forall|i: int| 0 <= i < eqs.len() implies #[trigger] eqs[i].difference(k).is_empty()
        || in_list(eqs[i].difference(k), eqs) by {
        assert(eqs[i] =~= eqs[i].difference(k));
    }
}

/// During a peeling round that recovers `idx`: every equation with an unknown left is
/// among the reworked sets `news` (against `k` with `idx`) or among the sets `olds`
/// still to rework (against `k`).
pub open spec fn round_listed(
    news: Seq<Set<u32>>,
    olds: Seq<Set<u32>>,
    eqs: Seq<Set<u32>>,
    k: Set<u32>,
    idx: u32,
) -> bool {
    forall|i: int| 0 <= i < eqs.len() ==> #[trigger] eqs[i].difference(k.insert(idx)).is_empty()
        || in_list(eqs[i].difference(k.insert(idx)), news)
        || in_list(eqs[i].difference(k), olds)
}

/// One set of those still to rework is taken from their end, `idx` dropped from it,
/// and the rest kept when anything is left: the bookkeeping of a peeling round
/// carries over.
pub proof fn lemma_rework_step(
    eqs: Seq<Set<u32>>,
    k: Set<u32>,
    idx: u32,
    olds: Seq<Set<u32>>,
    news: Seq<Set<u32>>,
    n2: Set<u32>,
)
    requires
        olds.len() > 0,
        lists_from(olds, eqs, k),
        lists_from(news, eqs, k.insert(idx)),
        round_listed(news, olds, eqs, k, idx),
        n2 == olds.last().remove(idx),
    ensures
        lists_from(olds.drop_last(), eqs, k),
        lists_from(if n2.is_empty() { news } else { news.push(n2) }, eqs, k.insert(idx)),
        round_listed(if n2.is_empty() { news } else { news.push(n2) }, olds.drop_last(), eqs, k, idx),
{
    let k2 = k.insert(idx);
    let news2 = if n2.is_empty() { news } else { news.push(n2) };
    let od = olds.drop_last();
    let last = olds.len() - 1;
    assert forall|j: int| 0 <= j < od.len() implies #[trigger] from_some_eq(od[j], eqs, k) by {
        assert(od[j] == olds[j]);
        assert(from_some_eq(olds[j], eqs, k));
    }
    assert(olds[last] == olds.last());
    assert(from_some_eq(olds[last], eqs, k));
    let il = choose|i: int| #![trigger eqs[i]] 0 <= i < eqs.len() && olds[last] == eqs[i].difference(k);
    assert(n2 =~= eqs[il].difference(k2));
    assert forall|j: int| 0 <= j < news2.len() implies #[trigger] from_some_eq(news2[j], eqs, k2) by {
        if j < news.len() {
            assert(news2[j] == news[j]);
            assert(from_some_eq(news[j], eqs, k2));
        } else {
            assert(news2[j] == n2);
        }
    }
    assert forall|i: int| 0 <= i < eqs.len() implies #[trigger] eqs[i].difference(k2).is_empty()
        || in_list(eqs[i].difference(k2), news2) || in_list(eqs[i].difference(k), od) by {
        if !eqs[i].difference(k2).is_empty() {
            if in_list(eqs[i].difference(k2), news) {
                let j = choose|j: int| #![trigger news[j]] 0 <= j < news.len() && news[j] == eqs[i].difference(k2);
                assert(news2[j] == news[j]);
            } else {
                assert(in_list(eqs[i].difference(k), olds));
                let j = choose|j: int| #![trigger olds[j]] 0 <= j < olds.len() && olds[j] == eqs[i].difference(k);
                if j < last {
                    assert(od[j] == olds[j]);
                } else {
                    assert(eqs[i].difference(k2) =~= n2);
                    assert(news2[news.len() as int] == n2);
                }
            }
        }
    }
}

/// A peeling round starts: the set `sets[p]`, whose only unknown is `idx`, is taken
/// out, and every other set is still to rework.
pub proof fn lemma_round_start(eqs: Seq<Set<u32>>, k: Set<u32>, idx: u32, sets: Seq<Set<u32>>, p: int)
    requires
        0 <= p < sets.len(),
        sets[p] == set![idx],
        lists_from(sets, eqs, k),
        eqs_listed(sets, eqs, k),
    ensures
        lists_from(sets.remove(p), eqs, k),
        lists_from(Seq::<Set<u32>>::empty(), eqs, k.insert(idx)),
        round_listed(Seq::<Set<u32>>::empty(), sets.remove(p), eqs, k, idx),
{
    let rest = sets.remove(p);
    let k2 = k.insert(idx);
    assert forall|j: int| 0 <= j < rest.len() implies #[trigger] from_some_eq(rest[j], eqs, k) by {
        if j < p {
            assert(rest[j] == sets[j]);
            assert(from_some_eq(sets[j], eqs, k));
        } else {
            assert(rest[j] == sets[j + 1]);
            assert(from_some_eq(sets[j + 1], eqs, k));
        }
    }
    assert forall|i: int| 0 <= i < eqs.len() implies #[trigger] eqs[i].difference(k2).is_empty()
        || in_list(eqs[i].difference(k2), Seq::<Set<u32>>::empty()) || in_list(eqs[i].difference(k), rest) by {
        if !eqs[i].difference(k2).is_empty() {
            assert(!eqs[i].difference(k).is_empty()) by {
                let y = eqs[i].difference(k2).choose();
                assert(eqs[i].difference(k2).contains(y));
                assert(eqs[i].difference(k).contains(y));
            }
            assert(in_list(eqs[i].difference(k), sets));
            let j = choose|j: int| #![trigger sets[j]] 0 <= j < sets.len() && sets[j] == eqs[i].difference(k);
            if j == p {
                assert(eqs[i].difference(k2) =~= Set::<u32>::empty()) by {
                    assert forall|y: u32| !eqs[i].difference(k2).contains(y) by {
                        if eqs[i].difference(k2).contains(y) {
                            assert(sets[p].contains(y));
                        }
                    }
                }
            } else if j < p {
                assert(rest[j] == sets[j]);
            } else {
                assert(rest[j - 1] == sets[j]);
            }
        }
    }
}

/// A peeling round ends when nothing is left to rework.
pub proof fn lemma_round_end(eqs: Seq<Set<u32>>, k: Set<u32>, idx: u32, news: Seq<Set<u32>>)
    requires
        round_listed(news, Seq::<Set<u32>>::empty(), eqs, k, idx),
    ensures
        eqs_listed(news, eqs, k.insert(idx)),
{
    assert forall|i: int| 0 <= i < eqs.len() implies #[trigger] eqs[i].difference(k.insert(idx)).is_empty()
        || in_list(eqs[i].difference(k.insert(idx)), news) by {
        if in_list(eqs[i].difference(k), Seq::<Set<u32>>::empty()) {
            let j = choose|j: int| #![trigger Seq::<Set<u32>>::empty()[j]] 0 <= j < Seq::<Set<u32>>::empty().len()
                && Seq::<Set<u32>>::empty()[j] == eqs[i].difference(k);
        }
    }
}

} // verus!
