//! The mathematics of evaluation order: edges between component ids, Kahn's
//! algorithm with the lowest ready id taken first, and topological orders.
use vstd::prelude::*;

use crate::types::ConnView;

verus! {

/// Some connection leads from component `a` to component `b`.
pub open spec fn has_edge(conns: Seq<ConnView>, a: usize, b: usize) -> bool {
    exists|k: int| 0 <= k < conns.len() && #[trigger] conns[k].from.id == a && conns[k].to.id == b
}

/// `n` is still to be placed and no component still to be placed feeds it.
pub open spec fn is_ready(rem: Set<usize>, conns: Seq<ConnView>, n: usize) -> bool {
    rem.contains(n) && forall|m: usize| #[trigger] rem.contains(m) ==> !has_edge(conns, m, n)
}

/// `n` is the ready component with the lowest id.
pub open spec fn is_lowest_ready(rem: Set<usize>, conns: Seq<ConnView>, n: usize) -> bool {
    is_ready(rem, conns, n) && forall|m: usize| #[trigger] is_ready(rem, conns, m) ==> n <= m
}

/// Kahn's algorithm on the components `rem`: repeatedly place the ready
/// component with the lowest id; `None` when it gets stuck before placing
/// them all, which happens exactly when the edges hold a cycle.
pub open spec fn kahn_order(rem: Set<usize>, conns: Seq<ConnView>) -> Option<Seq<usize>>
    decreases rem.len(),
{
    if rem.finite() && rem.len() > 0 {
        if exists|n: usize| is_lowest_ready(rem, conns, n) {
            let n = choose|n: usize| is_lowest_ready(rem, conns, n);
            match kahn_order(rem.remove(n), conns) {
                Some(rest) => Some(seq![n] + rest),
                None => None,
            }
        } else {
            None
        }
    } else {
        Some(Seq::empty())
    }
}

/// The order that Kahn's algorithm gives, empty where it finds a cycle.
pub open spec fn sorted_order(ids: Set<usize>, conns: Seq<ConnView>) -> Seq<usize> {
    match kahn_order(ids, conns) {
        Some(o) => o,
        None => Seq::empty(),
    }
}

/// `order` lists every id of `ids` once, and no connection leads from a
/// component to itself or to one listed before it.
pub open spec fn is_topological(order: Seq<usize>, ids: Set<usize>, conns: Seq<ConnView>) -> bool {
    &&& order.no_duplicates()
    &&& order.to_set() == ids
    &&& forall|i: int, j: int|
        0 <= i <= j < order.len() ==> !has_edge(conns, #[trigger] order[j], #[trigger] order[i])
}

/// The components and connections admit an evaluation order.
pub open spec fn acyclic(ids: Set<usize>, conns: Seq<ConnView>) -> bool {
    exists|o: Seq<usize>| is_topological(o, ids, conns)
}

/// Taking connections away keeps an evaluation order valid.
pub proof fn lemma_fewer_edges(o: Seq<usize>, ids: Set<usize>, big: Seq<ConnView>, small: Seq<ConnView>)
    requires
        is_topological(o, ids, big),
        forall|k: int| 0 <= k < small.len() ==> big.contains(#[trigger] small[k]),
    ensures
        is_topological(o, ids, small),
{
    assert forall|i: int, j: int| 0 <= i <= j < o.len() implies !has_edge(small, #[trigger] o[j], #[trigger] o[i]) by {
        if has_edge(small, o[j], o[i]) {
            let k = choose|k: int| 0 <= k < small.len() && #[trigger] small[k].from.id == o[j] && small[k].to.id == o[i];
            assert(big.contains(small[k]));
            let l = choose|l: int| 0 <= l < big.len() && big[l] == small[k];
            assert(big[l].from.id == o[j]);
            assert(has_edge(big, o[j], o[i]));
        }
    }
}

/// Taking one component out of an evaluation order leaves an evaluation
/// order of the others.
pub proof fn lemma_order_without(o: Seq<usize>, ids: Set<usize>, conns: Seq<ConnView>, p: int)
    requires
        is_topological(o, ids, conns),
        0 <= p < o.len(),
    ensures
        is_topological(o.remove(p), ids.remove(o[p]), conns),
{
    let r = o.remove(p);
    let x = o[p];
    assert forall|i: int| 0 <= i < r.len() implies #[trigger] r[i] == o[if i < p { i } else { i + 1 }] by {}
    assert forall|i: int, j: int| 0 <= i <= j < r.len() implies !has_edge(conns, #[trigger] r[j], #[trigger] r[i]) by {
        let i2 = if i < p { i } else { i + 1 };
        let j2 = if j < p { j } else { j + 1 };
        assert(r[i] == o[i2]);
        assert(r[j] == o[j2]);
    }
    assert forall|i: int, j: int| 0 <= i < j < r.len() implies r[i] != r[j] by {
        let i2 = if i < p { i } else { i + 1 };
        let j2 = if j < p { j } else { j + 1 };
        assert(r[i] == o[i2]);
        assert(r[j] == o[j2]);
    }
    assert(r.to_set() =~= ids.remove(x)) by {
        assert forall|y: usize| r.contains(y) <==> ids.remove(x).contains(y) by {
            assert(o.to_set().contains(y) == o.contains(y));
            if r.contains(y) {
                let q = choose|q: int| 0 <= q < r.len() && r[q] == y;
                let q2 = if q < p { q } else { q + 1 };
                assert(o[q2] == y);
                assert(q2 != p);
            }
            if ids.remove(x).contains(y) {
                let q = choose|q: int| 0 <= q < o.len() && o[q] == y;
                assert(q != p);
                if q < p {
                    assert(r[q] == y);
                } else {
                    assert(r[q - 1] == y);
                }
            }
        }
    }
}

/// In `o`, which lists every member of `rem` and whose entries before `k`
/// are not in `rem`, where every member of `rem` is fed by another, some
/// connection leads backwards.
proof fn lemma_backward_edge_from(o: Seq<usize>, rem: Set<usize>, conns: Seq<ConnView>, k: int, x: usize)
    requires
        0 <= k <= o.len(),
        rem.contains(x),
        forall|y: usize| rem.contains(y) ==> o.contains(y),
        forall|q: int| 0 <= q < k ==> !rem.contains(#[trigger] o[q]),
        forall|n: usize| rem.contains(n) ==> !is_ready(rem, conns, n),
    ensures
        exists|i: int, j: int|
            0 <= i <= j < o.len() && has_edge(conns, #[trigger] o[j], #[trigger] o[i]),
    decreases o.len() - k,
{
    let xi = choose|q: int| 0 <= q < o.len() && o[q] == x;
    assert(xi >= k);
    if rem.contains(o[k]) {
        let n = o[k];
        assert(!is_ready(rem, conns, n));
        let m = choose|m: usize| rem.contains(m) && has_edge(conns, m, n);
        assert(o.contains(m));
        let j = choose|q: int| 0 <= q < o.len() && o[q] == m;
        assert(j >= k);
        assert(has_edge(conns, o[j], o[k]));
    } else {
        lemma_backward_edge_from(o, rem, conns, k + 1, x);
    }
}

/// Where some components remain and none of them is ready, no evaluation
/// order exists.
pub proof fn lemma_stuck_is_cyclic(ids: Set<usize>, conns: Seq<ConnView>, rem: Set<usize>, x: usize)
    requires
        rem.subset_of(ids),
        rem.contains(x),
        forall|n: usize| rem.contains(n) ==> !is_ready(rem, conns, n),
    ensures
        !acyclic(ids, conns),
{
    if acyclic(ids, conns) {
        let o = choose|o: Seq<usize>| is_topological(o, ids, conns);
        assert forall|y: usize| rem.contains(y) implies o.contains(y) by {
            assert(o.to_set().contains(y));
        }
        lemma_backward_edge_from(o, rem, conns, 0, x);
        let (i, j) = choose|i: int, j: int|
            0 <= i <= j < o.len() && has_edge(conns, #[trigger] o[j], #[trigger] o[i]);
        assert(!has_edge(conns, o[j], o[i]));
    }
}

} // verus!
