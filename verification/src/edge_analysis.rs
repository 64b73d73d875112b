//! Edge sharing: how many faces reference each undirected edge. One
//! face means a border edge, two an interior edge, more a non-manifold
//! fan.

use crate::geometry::{same_edge, OrientedEdge, UnorientedEdge};
use vstd::prelude::*;

verus! {

/// How many of the first `i` oriented edges denote the undirected edge
/// `e`.
pub open spec fn edge_count_upto(edges: Seq<OrientedEdge>, i: int, e: UnorientedEdge) -> nat
    decreases i,
{
    if i <= 0 {
        0
    } else {
        edge_count_upto(edges, i - 1, e) + if same_edge(UnorientedEdge(edges[i - 1]), e) {
            1nat
        } else {
            0nat
        }
    }
}

/// Whether the sharing list has an entry for the undirected edge `e`.
pub open spec fn listed(entries: Seq<(UnorientedEdge, u32)>, e: UnorientedEdge) -> bool {
    exists|k: int| 0 <= k < entries.len() && same_edge((#[trigger] entries[k]).0, e)
}

/// Groups the oriented edges by their undirected identity and counts how
/// many times each one occurs, in first-occurrence order.
#[verifier::loop_isolation(false)]
pub fn edge_sharing(oriented_edges: &Vec<OrientedEdge>) -> (r: Vec<(UnorientedEdge, u32)>)
    requires
        oriented_edges@.len() <= u32::MAX,
    ensures
        forall|k1: int, k2: int|
            0 <= k1 < k2 < r@.len() ==> !same_edge((#[trigger] r@[k1]).0, (#[trigger] r@[k2]).0),
        forall|k: int|
            0 <= k < r@.len() ==> (#[trigger] r@[k]).1 == edge_count_upto(
                oriented_edges@,
                oriented_edges@.len() as int,
                r@[k].0,
            ) && r@[k].1 > 0,
        forall|i: int|
            0 <= i < oriented_edges@.len() ==> listed(r@, UnorientedEdge(
                #[trigger] oriented_edges@[i],
            )),
{
    let n = oriented_edges.len();
    let mut entries: Vec<(UnorientedEdge, u32)> = Vec::new();
    let mut i: usize = 0;
    while i < n
        invariant
            0 <= i <= n,
            n == oriented_edges@.len() <= u32::MAX,
            forall|k1: int, k2: int|
                0 <= k1 < k2 < entries@.len() ==> !same_edge(
                    (#[trigger] entries@[k1]).0,
                    (#[trigger] entries@[k2]).0,
                ),
            forall|k: int|
                0 <= k < entries@.len() ==> (#[trigger] entries@[k]).1 == edge_count_upto(
                    oriented_edges@,
                    i as int,
                    entries@[k].0,
                ) && entries@[k].1 > 0 && entries@[k].1 <= i,
            forall|j: int|
                0 <= j < i ==> listed(entries@, UnorientedEdge(#[trigger] oriented_edges@[j])),
        decreases n - i,
    {
        let cur = UnorientedEdge(oriented_edges[i]);
        let ghost prev = entries@;
        let mut k: usize = 0;
        let mut found = false;
        while k < entries.len() && !found
            invariant
                0 <= k <= entries@.len(),
                entries@ == prev,
                !found ==> forall|j: int| 0 <= j < k ==> !same_edge((#[trigger] entries@[j]).0, cur),
                found ==> 0 < k <= entries@.len() && same_edge(entries@[k - 1].0, cur),
            decreases entries@.len() - k + (if found { 0int } else { 1int }),
        {
            if entries[k].0.eq_edge(&cur) {
                found = true;
            }
            k = k + 1;
        }
        if found {
            let idx = k - 1;
            let e0 = entries[idx].0;
            let c0 = entries[idx].1;
            entries[idx] = (e0, c0 + 1);
            proof {
                assert forall|kk: int| 0 <= kk < entries@.len() implies (#[trigger] entries@[kk]).1
                    == edge_count_upto(oriented_edges@, i + 1, entries@[kk].0) && entries@[kk].1 > 0
                    && entries@[kk].1 <= i + 1 by {
                    if kk == idx {
                        assert(same_edge(UnorientedEdge(oriented_edges@[i as int]), entries@[kk].0));
                    } else {
                        assert(entries@[kk] == prev[kk]);
                        if same_edge(UnorientedEdge(oriented_edges@[i as int]), entries@[kk].0) {
                            assert(same_edge(entries@[kk].0, cur));
                            if kk < idx {
                                assert(!same_edge((prev[kk]).0, (prev[idx as int]).0));
                                assert(false);
                            } else {
                                assert(!same_edge((prev[idx as int]).0, (prev[kk]).0));
                                assert(false);
                            }
                        }
                    }
                }
                assert forall|j: int| 0 <= j < i + 1 implies listed(
                    entries@,
                    UnorientedEdge(#[trigger] oriented_edges@[j]),
                ) by {
                    if j < i {
                        let kk = choose|kk: int|
                            0 <= kk < prev.len() && same_edge(
                                (#[trigger] prev[kk]).0,
                                UnorientedEdge(oriented_edges@[j]),
                            );
                        assert(same_edge((entries@[kk]).0, UnorientedEdge(oriented_edges@[j])));
                    } else {
                        assert(same_edge((entries@[idx as int]).0, UnorientedEdge(
                            oriented_edges@[j],
                        )));
                    }
                }
            }
        } else {
            entries.push((cur, 1));
            proof {
                assert forall|kk: int| 0 <= kk < entries@.len() implies (#[trigger] entries@[kk]).1
                    == edge_count_upto(oriented_edges@, i + 1, entries@[kk].0) && entries@[kk].1 > 0
                    && entries@[kk].1 <= i + 1 by {
                    if kk == entries@.len() - 1 {
                        assert(same_edge(UnorientedEdge(oriented_edges@[i as int]), cur));
                        assert(edge_count_upto(oriented_edges@, i as int, cur) == 0) by {
                            lemma_unlisted_count_zero(oriented_edges@, i as int, cur, prev);
                        }
                    } else {
                        assert(entries@[kk] == prev[kk]);
                        if same_edge(UnorientedEdge(oriented_edges@[i as int]), entries@[kk].0) {
                            assert(same_edge(entries@[kk].0, cur));
                            assert(false);
                        }
                    }
                }
                assert forall|j: int| 0 <= j < i + 1 implies listed(
                    entries@,
                    UnorientedEdge(#[trigger] oriented_edges@[j]),
                ) by {
                    if j < i {
                        let kk = choose|kk: int|
                            0 <= kk < prev.len() && same_edge(
                                (#[trigger] prev[kk]).0,
                                UnorientedEdge(oriented_edges@[j]),
                            );
                        assert(same_edge((entries@[kk]).0, UnorientedEdge(oriented_edges@[j])));
                    } else {
                        assert(same_edge(
                            (entries@[entries@.len() - 1]).0,
                            UnorientedEdge(oriented_edges@[j]),
                        ));
                    }
                }
            }
        }
        i = i + 1;
    }
    entries
}

/// An edge no prior entry matches has not occurred among the first `i`
/// oriented edges, given all of them are listed.
proof fn lemma_unlisted_count_zero(
    edges: Seq<OrientedEdge>,
    i: int,
    e: UnorientedEdge,
    entries: Seq<(UnorientedEdge, u32)>,
)
    requires
        0 <= i <= edges.len(),
        forall|j: int| 0 <= j < i ==> listed(entries, UnorientedEdge(#[trigger] edges[j])),
        forall|k: int| 0 <= k < entries.len() ==> !same_edge((#[trigger] entries[k]).0, e),
    ensures
        edge_count_upto(edges, i, e) == 0,
    decreases i,
{
    if i > 0 {
        lemma_unlisted_count_zero(edges, i - 1, e, entries);
        if same_edge(UnorientedEdge(edges[i - 1]), e) {
            let k = choose|k: int|
                0 <= k < entries.len() && same_edge((#[trigger] entries[k]).0, UnorientedEdge(
                    edges[i - 1],
                ));
            assert(same_edge(entries[k].0, e));
            assert(false);
        }
    }
}

} // verus!
