use vstd::prelude::*;
use crate::types::{Distance, DISTANCE_NONE, DISTANCE_UNREACHABLE_BASE, MAX_NODE_COUNT};
use crate::graph::Graph;
use crate::retainers::RetainerIndex;
use crate::reach::{is_structural_edge, structural_edge};
use crate::distances::{count_assigned, lemma_count_assigned_bound, lemma_count_assigned_update, reachable_distances_sound, lemma_lower_keeps_sound, lemma_assign_unreachable_keeps_sound};

verus! {

/// Sum of all entries, a missing distance counting as `DISTANCE_NONE`.
pub open spec fn sum_dist(d: Seq<Distance>) -> int
    decreases d.len(),
{
    if d.len() == 0 {
        0
    } else {
        sum_dist(d.drop_last()) + d.last().0
    }
}

proof fn lemma_sum_update(d: Seq<Distance>, i: int, x: Distance)
    requires
        0 <= i < d.len(),
    ensures
        sum_dist(d.update(i, x)) == sum_dist(d) - d[i].0 + x.0,
    decreases d.len(),
{
    if i == d.len() - 1 {
        assert(d.update(i, x).drop_last() =~= d.drop_last());
    } else {
        lemma_sum_update(d.drop_last(), i, x);
        assert(d.update(i, x).drop_last() =~= d.drop_last().update(i, x));
    }
}

proof fn lemma_sum_nonneg(d: Seq<Distance>)
    ensures
        sum_dist(d) >= 0,
    decreases d.len(),
{
    if d.len() > 0 {
        lemma_sum_nonneg(d.drop_last());
    }
}

/// Every distance is below the unreachable base plus the number of nodes
/// that have a distance, so none of them reaches `DISTANCE_NONE`.
pub open spec fn depths_bounded(d: Seq<Distance>) -> bool {
    forall|v: int|
        0 <= v < d.len() && #[trigger] d[v].0 != DISTANCE_NONE ==> d[v].0 < DISTANCE_UNREACHABLE_BASE
            + count_assigned(d)
}

/// Entries below `lo` are those of `d0`.
pub open spec fn below_kept(d0: Seq<Distance>, d: Seq<Distance>, lo: u32) -> bool {
    &&& d0.len() == d.len()
    &&& forall|v: int| 0 <= v < d.len() && #[trigger] d0[v].0 < lo ==> d[v] == d0[v]
    &&& forall|v: int| 0 <= v < d.len() && #[trigger] d[v].0 < lo ==> d[v] == d0[v]
}

/// `d2` gives every node a distance at most its distance in `d1`, and keeps
/// every assigned one assigned.
pub open spec fn no_larger(d1: Seq<Distance>, d2: Seq<Distance>) -> bool {
    &&& d1.len() == d2.len()
    &&& forall|v: int| 0 <= v < d1.len() ==> (#[trigger] d2[v]).0 <= d1[v].0
}

/// The walk follows edge `e` of `u`: it passes the structural filter and
/// is not weak, unless weak edges count.
pub open spec fn relaxable(g: Graph, u: int, e: int, weak_is_reachable: bool) -> bool {
    (g.edge_type(e) != g.types.edge_weak || weak_is_reachable) && structural_edge(g, u, e)
}

/// No edge of `u` that the walk follows could lower its target: every such
/// target has a distance, at most one more than `u`'s.
pub open spec fn settled(g: Graph, d: Seq<Distance>, u: int, weak_is_reachable: bool) -> bool {
    forall|e: int|
        #[trigger] g.is_out_edge(u, e) && relaxable(g, u, e, weak_is_reachable) ==> d[g.edge_target(e)].0
            != DISTANCE_NONE && d[g.edge_target(e)].0 <= d[u].0 + 1
}

/// Node `u` is in the queue at or after position `from`.
pub open spec fn queued_from(q: Seq<usize>, from: int, u: int) -> bool {
    exists|j: int| from <= j < q.len() && q[j] == u
}

/// Lowering node `c` keeps every other node settled.
proof fn lemma_lower_keeps_settled(g: Graph, d: Seq<Distance>, c: int, x: u32, u: int, weak: bool)
    requires
        g.wf(),
        d.len() == g.node_count(),
        0 <= c < d.len(),
        0 <= u < d.len(),
        u != c,
        x != DISTANCE_NONE,
        d[c].0 == DISTANCE_NONE || x < d[c].0,
        settled(g, d, u, weak),
    ensures
        settled(g, d.update(c, Distance(x)), u, weak),
{
    let nd = d.update(c, Distance(x));
    assert forall|e: int| #[trigger] g.is_out_edge(u, e) && relaxable(g, u, e, weak) implies nd[g.edge_target(e)].0
        != DISTANCE_NONE && nd[g.edge_target(e)].0 <= nd[u].0 + 1 by {
        assert(g.edge_target(e) < g.node_count());
    }
}

/// Node `v` is the target of an edge the walk follows from a node whose
/// distance is at least `lo` and below `v`'s.
pub open spec fn fed_from_above(g: Graph, d: Seq<Distance>, v: int, lo: u32, weak_is_reachable: bool) -> bool {
    exists|u: int, e: int|
        0 <= u < g.node_count() && #[trigger] g.is_out_edge(u, e) && relaxable(g, u, e, weak_is_reachable)
            && g.edge_target(e) == v && lo <= d[u].0 && d[u].0 < d[v].0
}

/// Lowering node `c` to at least `lo` keeps every other node fed.
proof fn lemma_lower_keeps_fed(g: Graph, d: Seq<Distance>, c: int, x: u32, v: int, lo: u32, weak: bool)
    requires
        d.len() == g.node_count(),
        0 <= c < d.len(),
        0 <= v < d.len(),
        v != c,
        x >= lo,
        d[c].0 == DISTANCE_NONE || x < d[c].0,
        fed_from_above(g, d, v, lo, weak),
    ensures
        fed_from_above(g, d.update(c, Distance(x)), v, lo, weak),
{
    let nd = d.update(c, Distance(x));
    let (u, e) = choose|u: int, e: int|
        0 <= u < g.node_count() && #[trigger] g.is_out_edge(u, e) && relaxable(g, u, e, weak)
            && g.edge_target(e) == v && lo <= d[u].0 && d[u].0 < d[v].0;
    assert(g.is_out_edge(u, e) && lo <= nd[u].0 && nd[u].0 < nd[v].0);
}

/// A node whose distance stays keeps being fed when others only get lower,
/// never below `lo`.
proof fn lemma_fed_kept(g: Graph, d1: Seq<Distance>, d2: Seq<Distance>, v: int, lo: u32, weak: bool)
    requires
        d1.len() == g.node_count(),
        no_larger(d1, d2),
        0 <= v < d1.len(),
        d2[v] == d1[v],
        forall|w: int| 0 <= w < d1.len() && #[trigger] d2[w] != d1[w] ==> d2[w].0 > lo,
        fed_from_above(g, d1, v, lo, weak),
    ensures
        fed_from_above(g, d2, v, lo, weak),
{
    let (u, e) = choose|u: int, e: int|
        0 <= u < g.node_count() && #[trigger] g.is_out_edge(u, e) && relaxable(g, u, e, weak)
            && g.edge_target(e) == v && lo <= d1[u].0 && d1[u].0 < d1[v].0;
    assert(d2[u].0 <= d1[u].0);
    if d2[u] != d1[u] {
        assert(d2[u].0 > lo);
    }
    assert(g.is_out_edge(u, e) && lo <= d2[u].0 && d2[u].0 < d2[v].0);
}

/// A settled node whose distance stays stays settled when others only get
/// lower.
proof fn lemma_settled_kept(g: Graph, d1: Seq<Distance>, d2: Seq<Distance>, u: int, weak: bool)
    requires
        g.wf(),
        d1.len() == g.node_count(),
        no_larger(d1, d2),
        0 <= u < d1.len(),
        d2[u] == d1[u],
        settled(g, d1, u, weak),
    ensures
        settled(g, d2, u, weak),
{
    assert forall|e: int| #[trigger] g.is_out_edge(u, e) && relaxable(g, u, e, weak) implies d2[g.edge_target(e)].0
        != DISTANCE_NONE && d2[g.edge_target(e)].0 <= d2[u].0 + 1 by {
        assert(g.edge_target(e) < g.node_count());
        assert(d2[g.edge_target(e)].0 <= d1[g.edge_target(e)].0);
    }
}

/// Lowers distances from the queued nodes over edges that the structural
/// filter lets through (weak edges only when `weak_is_reachable`), until
/// no edge gives a child a smaller distance than it has. Queued nodes all
/// have a distance of at least `lo`; entries below `lo` do not change.
pub fn unreachable_bfs(
    g: &Graph,
    dist: &mut Vec<Distance>,
    queue: &mut Vec<usize>,
    weak_is_reachable: bool,
    lo: u32,
)
    requires
        g.wf(),
        old(dist)@.len() == g.node_count(),
        depths_bounded(old(dist)@),
        reachable_distances_sound(*g, old(dist)@),
        forall|i: int|
            0 <= i < old(queue)@.len() ==> #[trigger] old(queue)@[i] < g.node_count() && old(
                dist,
            )@[old(queue)@[i] as int].0 != DISTANCE_NONE && old(dist)@[old(queue)@[i] as int].0 >= lo,
    ensures
        final(dist)@.len() == g.node_count(),
        depths_bounded(final(dist)@),
        reachable_distances_sound(*g, final(dist)@),
        below_kept(old(dist)@, final(dist)@, lo),
        no_larger(old(dist)@, final(dist)@),
        final(queue)@.len() >= old(queue)@.len(),
        forall|i: int| 0 <= i < old(queue)@.len() ==> #[trigger] final(queue)@[i] == old(queue)@[i],
        forall|i: int| 0 <= i < final(queue)@.len() ==> #[trigger] final(queue)@[i] < g.node_count(),
        forall|v: int| 0 <= v < g.node_count() && #[trigger] final(dist)@[v] != old(dist)@[v] ==> queued_from(final(queue)@, 0, v),
        forall|v: int| 0 <= v < g.node_count() && #[trigger] final(dist)@[v] != old(dist)@[v] ==> final(dist)@[v].0 > lo,
        forall|i: int| 0 <= i < final(queue)@.len() ==> settled(*g, final(dist)@, #[trigger] final(queue)@[i] as int, weak_is_reachable),
        forall|v: int| 0 <= v < g.node_count() && #[trigger] final(dist)@[v] != old(dist)@[v] ==> fed_from_above(*g, final(dist)@, v, lo, weak_is_reachable),
{
    let n = g.nodes.len();
    let mut index: usize = 0;
    proof {
        lemma_sum_nonneg(dist@);
    }
    while index < queue.len()
        invariant
            g.wf(),
            n == g.node_count(),
            dist@.len() == n,
            depths_bounded(dist@),
            reachable_distances_sound(*g, dist@),
            below_kept(old(dist)@, dist@, lo),
            no_larger(old(dist)@, dist@),
            index <= queue@.len(),
            forall|i: int|
                0 <= i < queue@.len() ==> #[trigger] queue@[i] < n && dist@[queue@[i] as int].0
                    != DISTANCE_NONE && dist@[queue@[i] as int].0 >= lo,
            queue@.len() >= old(queue)@.len(),
            forall|i: int| 0 <= i < old(queue)@.len() ==> #[trigger] queue@[i] == old(queue)@[i],
            forall|v: int| 0 <= v < n && #[trigger] dist@[v] != old(dist)@[v] ==> queued_from(queue@, 0, v),
            forall|v: int| 0 <= v < n && #[trigger] dist@[v] != old(dist)@[v] ==> dist@[v].0 > lo,
            forall|i: int| 0 <= i < index ==> settled(*g, dist@, #[trigger] queue@[i] as int, weak_is_reachable)
                || queued_from(queue@, index as int, queue@[i] as int),
            forall|v: int| 0 <= v < n && #[trigger] dist@[v] != old(dist)@[v] ==> fed_from_above(*g, dist@, v, lo, weak_is_reachable),
        decreases sum_dist(dist@) + queue@.len() - index,
    {
        proof {
            lemma_sum_nonneg(dist@);
            lemma_count_assigned_bound(dist@);
        }
        let ghost m0 = sum_dist(dist@) + queue@.len() - index;
        let node = queue[index];
        let ghost old_index = index as int;
        index += 1;
        proof {
            assert forall|i: int| 0 <= i < index implies settled(*g, dist@, #[trigger] queue@[i] as int, weak_is_reachable)
                || queued_from(queue@, index as int, queue@[i] as int) || queue@[i] == node by {
                if i < old_index && !settled(*g, dist@, queue@[i] as int, weak_is_reachable) {
                    let j = choose|j: int| old_index <= j < queue@.len() && queue@[j] == queue@[i];
                    if j != old_index {
                        assert(queued_from(queue@, index as int, queue@[i] as int));
                    }
                }
            }
        }
        let cur = dist[node].0;
        let distance = cur + 1;
        let (first_edge, last_edge) = g.node_edge_range(node);
        let ghost start_potential = sum_dist(dist@) + queue@.len();
        let mut ei = first_edge;
        while ei < last_edge
            invariant
                g.wf(),
                n == g.node_count(),
                node < n,
                dist@.len() == n,
                dist@[node as int].0 <= cur,
                cur >= lo,
                cur != DISTANCE_NONE,
                distance == cur + 1,
                depths_bounded(dist@),
                reachable_distances_sound(*g, dist@),
                cur < DISTANCE_UNREACHABLE_BASE + count_assigned(dist@),
                count_assigned(dist@) <= n,
                below_kept(old(dist)@, dist@, lo),
                no_larger(old(dist)@, dist@),
                first_edge == g.edge_begin(node as int),
                last_edge == g.edge_end(node as int),
                last_edge <= g.edge_count(),
                first_edge <= ei <= last_edge,
                index <= queue@.len(),
                sum_dist(dist@) + queue@.len() <= start_potential,
                forall|i: int|
                    0 <= i < queue@.len() ==> #[trigger] queue@[i] < n && dist@[queue@[i] as int].0
                        != DISTANCE_NONE && dist@[queue@[i] as int].0 >= lo,
                dist@[node as int].0 == cur,
                queue@.len() >= old(queue)@.len(),
                forall|i: int| 0 <= i < old(queue)@.len() ==> #[trigger] queue@[i] == old(queue)@[i],
                forall|v: int| 0 <= v < n && #[trigger] dist@[v] != old(dist)@[v] ==> queued_from(queue@, 0, v),
                forall|v: int| 0 <= v < n && #[trigger] dist@[v] != old(dist)@[v] ==> dist@[v].0 > lo,
                forall|i: int| 0 <= i < index ==> settled(*g, dist@, #[trigger] queue@[i] as int, weak_is_reachable)
                    || queued_from(queue@, index as int, queue@[i] as int) || queue@[i] == node,
                forall|f: int| #[trigger] g.is_out_edge(node as int, f) && f < ei && relaxable(*g, node as int, f, weak_is_reachable)
                    ==> dist@[g.edge_target(f)].0 != DISTANCE_NONE && dist@[g.edge_target(f)].0 <= cur + 1,
                forall|v: int| 0 <= v < n && #[trigger] dist@[v] != old(dist)@[v] ==> fed_from_above(*g, dist@, v, lo, weak_is_reachable),
            decreases last_edge - ei,
        {
            let et = g.edge_type_raw(ei);
            if (et != g.types.edge_weak || weak_is_reachable) && is_structural_edge(g, node, ei) {
                let child = g.edge_to_node(ei);
                let cd = dist[child].0;
                if cd == DISTANCE_NONE || distance < cd {
                    let ghost old_d = dist@;
                    proof {
                        lemma_lower_keeps_sound(*g, dist@, child as int, distance, node as int, ei as int);
                        lemma_count_assigned_update(dist@, child as int, Distance(distance));
                        lemma_sum_update(dist@, child as int, Distance(distance));
                        lemma_count_assigned_bound(dist@);
                        if cd == DISTANCE_NONE {
                            assert(count_assigned(dist@) < n) by {
                                assert(dist@[child as int].0 == DISTANCE_NONE);
                            }
                        }
                    }
                    let ghost old_q = queue@;
                    dist.set(child, Distance(distance));
                    queue.push(child);
                    proof {
                        assert(child != node);
                        assert(queued_from(queue@, index as int, child as int)) by {
                            assert(queue@[queue@.len() - 1] == child);
                        }
                        assert forall|v: int| 0 <= v < n && #[trigger] dist@[v] != old(dist)@[v] implies queued_from(queue@, 0, v) by {
                            if v == child {
                                assert(queue@[queue@.len() - 1] == child);
                            } else {
                                assert(old_d[v] == dist@[v]);
                                let j = choose|j: int| 0 <= j < old_q.len() && old_q[j] == v;
                                assert(queue@[j] == v);
                            }
                        }
                        assert forall|v: int| 0 <= v < n && #[trigger] dist@[v] != old(dist)@[v] implies dist@[v].0 > lo by {
                            if v != child {
                                assert(old_d[v] == dist@[v]);
                            }
                        }
                        assert forall|v: int| 0 <= v < n && #[trigger] dist@[v] != old(dist)@[v] implies fed_from_above(*g, dist@, v, lo, weak_is_reachable) by {
                            if v == child {
                                assert(g.is_out_edge(node as int, ei as int) && relaxable(*g, node as int, ei as int, weak_is_reachable));
                                assert(dist@[node as int].0 == cur);
                            } else {
                                assert(old_d[v] == dist@[v]);
                                assert(fed_from_above(*g, old_d, v, lo, weak_is_reachable));
                                lemma_lower_keeps_fed(*g, old_d, child as int, distance, v, lo, weak_is_reachable);
                            }
                        }
                        assert forall|i: int| 0 <= i < index implies settled(*g, dist@, #[trigger] queue@[i] as int, weak_is_reachable)
                            || queued_from(queue@, index as int, queue@[i] as int) || queue@[i] == node by {
                            assert(queue@[i] == old_q[i]);
                            let u = old_q[i] as int;
                            if u == child {
                                assert(queue@[queue@.len() - 1] == child);
                            } else if settled(*g, old_d, u, weak_is_reachable) {
                                lemma_lower_keeps_settled(*g, old_d, child as int, distance, u, weak_is_reachable);
                            } else if queued_from(old_q, index as int, u) {
                                let j = choose|j: int| index <= j < old_q.len() && old_q[j] == u;
                                assert(queue@[j] == u);
                            }
                        }
                        assert forall|f: int| #[trigger] g.is_out_edge(node as int, f) && f < ei + 1 && relaxable(*g, node as int, f, weak_is_reachable)
                            implies dist@[g.edge_target(f)].0 != DISTANCE_NONE && dist@[g.edge_target(f)].0 <= cur + 1 by {
                            assert(g.edge_target(f) < n);
                        }
                        assert forall|i: int| 0 <= i < old(queue)@.len() implies #[trigger] queue@[i] == old(queue)@[i] by {
                            assert(queue@[i] == old_q[i]);
                        }
                        lemma_count_assigned_bound(dist@);
                        assert forall|v: int|
                            0 <= v < dist@.len() && #[trigger] dist@[v].0 != DISTANCE_NONE implies dist@[v].0
                                < DISTANCE_UNREACHABLE_BASE + count_assigned(dist@) by {
                            if v != child {
                                assert(old_d[v].0 != DISTANCE_NONE);
                            }
                        }
                        assert forall|v: int|
                            0 <= v < dist@.len() && #[trigger] old(dist)@[v].0 < lo implies dist@[v]
                                == old(dist)@[v] by {
                            if v == child {
                                assert(old_d[v] == old(dist)@[v]);
                                assert(false);
                            }
                        }
                        assert forall|v: int|
                            0 <= v < dist@.len() && #[trigger] dist@[v].0 < lo implies dist@[v]
                                == old(dist)@[v] by {
                            if v != child {
                                assert(old_d[v].0 < lo);
                            }
                        }
                        assert forall|v: int| 0 <= v < n implies (#[trigger] dist@[v]).0 <= old(dist)@[v].0 by {
                            assert(old_d[v].0 <= old(dist)@[v].0);
                        }
                        assert forall|i: int|
                            0 <= i < queue@.len() implies #[trigger] queue@[i] < n && dist@[queue@[i] as int].0
                                != DISTANCE_NONE && dist@[queue@[i] as int].0 >= lo by {
                            if i < queue@.len() - 1 {
                                assert(old(queue)@.len() >= 0);
                            }
                        }
                    }
                }
            }
            ei += 1;
        }
        proof {
            lemma_sum_nonneg(dist@);
            assert(sum_dist(dist@) + queue@.len() - index < m0);
            assert(settled(*g, dist@, node as int, weak_is_reachable)) by {
                assert forall|e: int| #[trigger] g.is_out_edge(node as int, e) && relaxable(*g, node as int, e, weak_is_reachable)
                    implies dist@[g.edge_target(e)].0 != DISTANCE_NONE && dist@[g.edge_target(e)].0 <= dist@[node as int].0 + 1 by {
                    assert(e < ei);
                }
            }
        }
    }
    proof {
        assert forall|i: int| 0 <= i < queue@.len() implies settled(*g, dist@, #[trigger] queue@[i] as int, weak_is_reachable) by {
            if queued_from(queue@, index as int, queue@[i] as int) {
                let j = choose|j: int| index <= j < queue@.len() && queue@[j] == queue@[i];
            }
        }
    }
}

proof fn lemma_below_kept_trans(a: Seq<Distance>, b: Seq<Distance>, c: Seq<Distance>, lo: u32)
    requires
        below_kept(a, b, lo),
        below_kept(b, c, lo),
    ensures
        below_kept(a, c, lo),
{
    assert forall|v: int| 0 <= v < c.len() && #[trigger] a[v].0 < lo implies c[v] == a[v] by {
        assert(b[v] == a[v]);
    }
    assert forall|v: int| 0 <= v < c.len() && #[trigger] c[v].0 < lo implies c[v] == a[v] by {
        assert(c[v] == b[v]);
    }
}

proof fn lemma_set_unassigned(d: Seq<Distance>, v: int, x: u32)
    requires
        0 <= v < d.len(),
        d[v].0 == DISTANCE_NONE,
        depths_bounded(d),
        x < DISTANCE_UNREACHABLE_BASE + count_assigned(d) + 1,
        x != DISTANCE_NONE,
    ensures
        depths_bounded(d.update(v, Distance(x))),
        count_assigned(d.update(v, Distance(x))) == count_assigned(d) + 1,
        x >= DISTANCE_UNREACHABLE_BASE ==> below_kept(d, d.update(v, Distance(x)), DISTANCE_UNREACHABLE_BASE),
        no_larger(d, d.update(v, Distance(x))),
{
    lemma_count_assigned_update(d, v, Distance(x));
    let nd = d.update(v, Distance(x));
    assert forall|u: int| 0 <= u < nd.len() && #[trigger] nd[u].0 != DISTANCE_NONE implies nd[u].0
        < DISTANCE_UNREACHABLE_BASE + count_assigned(nd) by {
        if u != v {
            assert(d[u].0 != DISTANCE_NONE);
        }
    }
}

/// Node `v` starts a spread at the unreachable base: one of its retainers
/// has a reachable distance, or it has no retainer through a non-weak edge.
pub open spec fn unreachable_seed(g: Graph, ret: RetainerIndex, d: Seq<Distance>, v: int) -> bool {
    ||| exists|s: int| ret.range_begin(v) <= s < ret.range_end(v) && d[#[trigger] ret.retaining_nodes@[s] as int].0
        < DISTANCE_UNREACHABLE_BASE
    ||| forall|s: int| ret.range_begin(v) <= s < ret.range_end(v) ==> g.edge_type(#[trigger] ret.retaining_edges@[s] as int)
        == g.types.edge_weak
}

/// Each node with an ordinal below `upto` that has no distance in `d0`, and
/// that a node with a reachable distance in `d0` holds through a weak edge,
/// has in `d` a distance of at most that node's plus one.
pub open spec fn weak_targets_within(g: Graph, d0: Seq<Distance>, d: Seq<Distance>, upto: int) -> bool {
    forall|u: int, e: int|
        0 <= u < g.node_count() && #[trigger] g.is_out_edge(u, e) && g.edge_type(e) == g.types.edge_weak
            && d0[u].0 < DISTANCE_UNREACHABLE_BASE && g.edge_target(e) < upto && d0[g.edge_target(e)].0
            == DISTANCE_NONE ==> d[g.edge_target(e)].0 <= d0[u].0 + 1
}

proof fn lemma_weak_targets_no_larger(g: Graph, d0: Seq<Distance>, d1: Seq<Distance>, d2: Seq<Distance>, upto: int)
    requires
        g.wf(),
        d1.len() == g.node_count(),
        weak_targets_within(g, d0, d1, upto),
        no_larger(d1, d2),
    ensures
        weak_targets_within(g, d0, d2, upto),
{
    assert forall|u: int, e: int|
        0 <= u < g.node_count() && #[trigger] g.is_out_edge(u, e) && g.edge_type(e) == g.types.edge_weak
            && d0[u].0 < DISTANCE_UNREACHABLE_BASE && g.edge_target(e) < upto && d0[g.edge_target(e)].0
            == DISTANCE_NONE implies d2[g.edge_target(e)].0 <= d0[u].0 + 1 by {
        assert(g.edge_target(e) < g.node_count());
        assert(d2[g.edge_target(e)].0 <= d1[g.edge_target(e)].0);
    }
}

/// `p` is a path of nodes without a distance in `d0`, each next one the
/// target of an edge of the one before that the depth walk follows.
pub open spec fn unreached_path(g: Graph, d0: Seq<Distance>, p: Seq<int>, weak_is_reachable: bool) -> bool {
    &&& p.len() > 0
    &&& forall|i: int| 0 <= i < p.len() ==> 0 <= #[trigger] p[i] < g.node_count() && d0[p[i]].0 == DISTANCE_NONE
    &&& forall|i: int| 0 <= i < p.len() - 1 ==> #[trigger] path_step(g, p, i, weak_is_reachable)
}

/// The depth walk follows an edge from `p[i]` to `p[i + 1]`.
pub open spec fn path_step(g: Graph, p: Seq<int>, i: int, weak_is_reachable: bool) -> bool {
    exists|e: int| #[trigger] g.is_out_edge(p[i], e) && relaxable(g, p[i], e, weak_is_reachable) && g.edge_target(e) == p[i + 1]
}

/// Node `v` is reached from a seed (see `unreachable_seed`) along such a
/// path.
pub open spec fn reached_from_seed(g: Graph, ret: RetainerIndex, d0: Seq<Distance>, v: int, weak_is_reachable: bool) -> bool {
    exists|p: Seq<int>|
        #[trigger] unreached_path(g, d0, p, weak_is_reachable) && p.last() == v && unreachable_seed(g, ret, d0, p[0])
}

/// Along a path of nodes without a distance in `d0` whose first node has a
/// distance in `d`, where every such node with a distance in `d` is
/// settled, the last node has a distance in `d` too.
proof fn lemma_path_reaches(g: Graph, d0: Seq<Distance>, d: Seq<Distance>, p: Seq<int>, weak: bool)
    requires
        g.wf(),
        d.len() == g.node_count(),
        unreached_path(g, d0, p, weak),
        d[p[0]].0 != DISTANCE_NONE,
        forall|w: int|
            0 <= w < g.node_count() && d0[w].0 == DISTANCE_NONE && #[trigger] d[w].0 != DISTANCE_NONE ==> settled(g, d, w, weak),
    ensures
        d[p.last()].0 != DISTANCE_NONE,
    decreases p.len(),
{
    if p.len() > 1 {
        let q = p.drop_last();
        assert forall|i: int| 0 <= i < q.len() implies 0 <= #[trigger] q[i] < g.node_count() && d0[q[i]].0 == DISTANCE_NONE by {
            assert(q[i] == p[i]);
        }
        assert forall|i: int| 0 <= i < q.len() - 1 implies #[trigger] path_step(g, q, i, weak) by {
            assert(q[i] == p[i] && q[i + 1] == p[i + 1]);
            assert(path_step(g, p, i, weak));
            let pi = p[i];
            let e = choose|e: int| #[trigger] g.is_out_edge(pi, e) && relaxable(g, pi, e, weak) && g.edge_target(e) == p[i + 1];
            assert(g.is_out_edge(q[i], e) && relaxable(g, q[i], e, weak) && g.edge_target(e) == q[i + 1]);
        }
        assert(unreached_path(g, d0, q, weak));
        lemma_path_reaches(g, d0, d, q, weak);
        let u = p[p.len() - 2];
        assert(q.last() == u);
        assert(path_step(g, p, p.len() - 2, weak));
        let e = choose|e: int| #[trigger] g.is_out_edge(u, e) && relaxable(g, u, e, weak) && g.edge_target(e) == p[p.len() - 1];
        assert(0 <= u < g.node_count() && d0[u].0 == DISTANCE_NONE);
        assert(settled(g, d, u, weak));
    }
}

/// What spreading over weak edges gave, `aw`, starting from `d0`: a node
/// without a distance that a reached node holds through a weak edge got at
/// most that node's distance plus one, and every node without a distance
/// in `d0` that got one is settled, weak edges followed too.
pub open spec fn weak_phase_ok(g: Graph, d0: Seq<Distance>, aw: Seq<Distance>) -> bool {
    &&& aw.len() == g.node_count()
    &&& weak_targets_within(g, d0, aw, g.node_count() as int)
    &&& forall|v: int| 0 <= v < g.node_count() && d0[v].0 == DISTANCE_NONE && #[trigger] aw[v].0 != DISTANCE_NONE ==> settled(g, aw, v, true)
}

/// What the depth spreads do to `aw`, the distances before them, giving
/// `d`: distances below the base stay; every node has a distance; a seed
/// (see `unreachable_seed`) gets the base; every node without a distance
/// in `aw` is walked (see `depth_walked`); and one at the base that a seed
/// reaches is a seed itself.
pub open spec fn depths_from(g: Graph, ret: RetainerIndex, aw: Seq<Distance>, d: Seq<Distance>, weak_is_reachable: bool) -> bool {
    &&& below_kept(aw, d, DISTANCE_UNREACHABLE_BASE)
    &&& forall|v: int| 0 <= v < g.node_count() ==> (#[trigger] d[v]).0 != DISTANCE_NONE
    &&& forall|v: int|
        0 <= v < g.node_count() && aw[v].0 == DISTANCE_NONE && #[trigger] unreachable_seed(g, ret, aw, v) ==> d[v].0
            == DISTANCE_UNREACHABLE_BASE
    &&& forall|v: int| 0 <= v < g.node_count() && aw[v].0 == DISTANCE_NONE ==> #[trigger] depth_walked(g, d, v, weak_is_reachable)
    &&& forall|v: int|
        0 <= v < g.node_count() && aw[v].0 == DISTANCE_NONE && d[v].0 == DISTANCE_UNREACHABLE_BASE && #[trigger] reached_from_seed(
            g,
            ret,
            aw,
            v,
            weak_is_reachable,
        ) ==> unreachable_seed(g, ret, aw, v)
}

/// Node `v` is settled by the depth walk, and a depth above the unreachable
/// base comes from a node the walk follows into `v` with a smaller depth
/// that is at least that base.
pub open spec fn depth_walked(g: Graph, d: Seq<Distance>, v: int, weak_is_reachable: bool) -> bool {
    &&& settled(g, d, v, weak_is_reachable)
    &&& d[v].0 > DISTANCE_UNREACHABLE_BASE ==> fed_from_above(g, d, v, DISTANCE_UNREACHABLE_BASE, weak_is_reachable)
}

/// Gives a distance to every node the roots do not reach.
///
/// With `weak_is_reachable`, a node without a distance that a node with a
/// reachable distance retains through a weak edge first gets the smallest
/// such retainer distance plus one, and distances spread from those nodes.
/// Then each node still without a distance that has a retainer with a
/// reachable distance, or that no retainer holds through a non-weak edge,
/// gets `DISTANCE_UNREACHABLE_BASE`, and distances spread from those
/// nodes; any node still left starts a spread of its own, in ordinal order,
/// so a node that a spread from those nodes reaches never sits at the base
/// unless it is one of them.
#[verifier::rlimit(100)]
#[verifier::spinoff_prover]
pub fn calculate_unreachable_depths(
    g: &Graph,
    ret: &RetainerIndex,
    dist: &mut Vec<Distance>,
    weak_is_reachable: bool,
)
    requires
        g.wf(),
        ret.wf_for(*g),
        old(dist)@.len() == g.node_count(),
        depths_bounded(old(dist)@),
        reachable_distances_sound(*g, old(dist)@),
    ensures
        final(dist)@.len() == g.node_count(),
        depths_bounded(final(dist)@),
        reachable_distances_sound(*g, final(dist)@),
        forall|v: int| 0 <= v < g.node_count() ==> (#[trigger] final(dist)@[v]).0 != DISTANCE_NONE,
        !weak_is_reachable ==> below_kept(old(dist)@, final(dist)@, DISTANCE_UNREACHABLE_BASE),
        !weak_is_reachable ==> forall|v: int| 0 <= v < g.node_count() && old(dist)@[v].0 == DISTANCE_NONE && #[trigger] unreachable_seed(
            *g,
            *ret,
            old(dist)@,
            v,
        ) ==> final(dist)@[v].0 == DISTANCE_UNREACHABLE_BASE,
        weak_is_reachable ==> forall|v: int| 0 <= v < g.node_count() && old(dist)@[v].0 == DISTANCE_NONE ==> (#[trigger] final(dist)@[v]).0
            != DISTANCE_NONE,
        weak_is_reachable ==> weak_targets_within(*g, old(dist)@, final(dist)@, g.node_count() as int),
        !weak_is_reachable ==> forall|v: int| 0 <= v < g.node_count() && old(dist)@[v].0 == DISTANCE_NONE ==> #[trigger] depth_walked(
            *g,
            final(dist)@,
            v,
            false,
        ),
        !weak_is_reachable ==> forall|v: int|
            0 <= v < g.node_count() && old(dist)@[v].0 == DISTANCE_NONE && final(dist)@[v].0 == DISTANCE_UNREACHABLE_BASE
                && #[trigger] reached_from_seed(*g, *ret, old(dist)@, v, false) ==> unreachable_seed(*g, *ret, old(dist)@, v),
        !weak_is_reachable ==> depths_from(*g, *ret, old(dist)@, final(dist)@, false),
        weak_is_reachable ==> exists|aw: Seq<Distance>|
            #[trigger] weak_phase_ok(*g, old(dist)@, aw) && depths_from(*g, *ret, aw, final(dist)@, true),
{
    let n = g.nodes.len();
    let ghost d_start = dist@;
    if weak_is_reachable {
        let mut weak_seeds: Vec<usize> = Vec::new();
        let mut ordinal: usize = 0;
        while ordinal < n
            invariant
                g.wf(),
                ret.wf_for(*g),
                n == g.node_count(),
                ordinal <= n,
                dist@.len() == n,
                d_start.len() == n,
                depths_bounded(dist@),
                reachable_distances_sound(*g, dist@),
                forall|w: int| 0 <= w < n && d_start[w].0 != DISTANCE_NONE ==> #[trigger] dist@[w] == d_start[w],
                forall|w: int| ordinal <= w < n ==> #[trigger] dist@[w] == d_start[w],
                weak_targets_within(*g, d_start, dist@, ordinal as int),
                forall|i: int|
                    0 <= i < weak_seeds@.len() ==> #[trigger] weak_seeds@[i] < n && dist@[weak_seeds@[i] as int].0
                        != DISTANCE_NONE,
                forall|w: int| 0 <= w < n && #[trigger] dist@[w] != d_start[w] ==> queued_from(weak_seeds@, 0, w),
            decreases n - ordinal,
        {
            let ghost d_before = dist@;
            if dist[ordinal].0 == DISTANCE_NONE {
                assert(ret.first_retainer_index@[ordinal as int] <= g.edge_count());
                assert(ret.first_retainer_index@[ordinal + 1] <= g.edge_count());
                let first = ret.first_retainer_index[ordinal] as usize;
                let last = ret.first_retainer_index[ordinal + 1] as usize;
                assert(ret.range_end(ordinal as int) == ret.range_begin(ordinal as int) + crate::retainers::count_to(*g, g.edge_count() as int, ordinal as int));
                let mut min_dist: u32 = DISTANCE_NONE;
                let mut idx = first;
                while idx < last
                    invariant
                        g.wf(),
                        ret.wf_for(*g),
                        n == g.node_count(),
                        ordinal < n,
                        first == ret.range_begin(ordinal as int),
                        last == ret.range_end(ordinal as int),
                        last <= g.edge_count(),
                        first <= idx <= last,
                        dist@.len() == n,
                        min_dist == DISTANCE_NONE || min_dist < DISTANCE_UNREACHABLE_BASE,
                        min_dist != DISTANCE_NONE ==> exists|u: int, e: int|
                            0 <= u < n && #[trigger] g.is_out_edge(u, e) && g.edge_target(e) == ordinal && dist@[u].0 == min_dist,
                        forall|s: int|
                            first <= s < idx && dist@[#[trigger] ret.retaining_nodes@[s] as int].0 < DISTANCE_UNREACHABLE_BASE
                                && g.edge_type(ret.retaining_edges@[s] as int) == g.types.edge_weak ==> min_dist
                                <= dist@[ret.retaining_nodes@[s] as int].0,
                    decreases last - idx,
                {
                    assert(ret.range_begin(ordinal as int) <= idx < ret.range_end(ordinal as int));
                    proof {
                        crate::retainers::lemma_retainer_entry(*g, *ret, ordinal as int, idx as int);
                    }
                    let retainer = ret.retaining_nodes[idx] as usize;
                    let rd = dist[retainer].0;
                    if rd < DISTANCE_UNREACHABLE_BASE && rd < min_dist {
                        let edge_index = ret.retaining_edges[idx] as usize;
                        if g.edge_type_raw(edge_index) == g.types.edge_weak {
                            min_dist = rd;
                            proof {
                                assert(g.is_out_edge(retainer as int, edge_index as int) && g.edge_target(edge_index as int) == ordinal);
                            }
                        }
                    }
                    idx += 1;
                }
                proof {
                    assert forall|u: int, e: int|
                        0 <= u < n && #[trigger] g.is_out_edge(u, e) && g.edge_type(e) == g.types.edge_weak
                            && d_start[u].0 < DISTANCE_UNREACHABLE_BASE && g.edge_target(e) == ordinal implies min_dist
                            <= d_start[u].0 by {
                        assert(g.edge_target(e) == ordinal);
                        let s = choose|s: int|
                            ret.range_begin(g.edge_target(e)) <= s < ret.range_end(g.edge_target(e))
                                && #[trigger] ret.retaining_edges@[s] == e;
                        crate::retainers::lemma_retainer_entry(*g, *ret, ordinal as int, s);
                        crate::graph::lemma_edge_owner_unique(*g, u, ret.retaining_nodes@[s] as int, e);
                        assert(dist@[u] == d_start[u]);
                        assert(dist@[ret.retaining_nodes@[s] as int].0 < DISTANCE_UNREACHABLE_BASE);
                    }
                }
                if min_dist != DISTANCE_NONE {
                    proof {
                        lemma_set_unassigned(dist@, ordinal as int, (min_dist + 1) as u32);
                        let (u, e) = choose|u: int, e: int|
                            0 <= u < n && #[trigger] g.is_out_edge(u, e) && g.edge_target(e) == ordinal && dist@[u].0 == min_dist;
                        lemma_lower_keeps_sound(*g, dist@, ordinal as int, (min_dist + 1) as u32, u, e);
                    }
                    let ghost d_pre = dist@;
                    let ghost ws_pre = weak_seeds@;
                    dist.set(ordinal, Distance(min_dist + 1));
                    weak_seeds.push(ordinal);
                    proof {
                        assert forall|w: int| 0 <= w < n && #[trigger] dist@[w] != d_start[w] implies queued_from(weak_seeds@, 0, w) by {
                            if w == ordinal {
                                assert(weak_seeds@[weak_seeds@.len() - 1] == w);
                            } else {
                                assert(d_pre[w] == dist@[w]);
                                let j = choose|j: int| 0 <= j < ws_pre.len() && ws_pre[j] == w;
                                assert(weak_seeds@[j] == w);
                            }
                        }
                    }
                }
                assert forall|u: int, e: int|
                    0 <= u < n && #[trigger] g.is_out_edge(u, e) && g.edge_type(e) == g.types.edge_weak
                        && d_start[u].0 < DISTANCE_UNREACHABLE_BASE && g.edge_target(e) == ordinal implies dist@[ordinal as int].0
                        <= d_start[u].0 + 1 by {
                    assert(min_dist <= d_start[u].0);
                }
            }
            proof {
                assert forall|u: int, e: int|
                    0 <= u < g.node_count() && #[trigger] g.is_out_edge(u, e) && g.edge_type(e) == g.types.edge_weak
                        && d_start[u].0 < DISTANCE_UNREACHABLE_BASE && g.edge_target(e) < ordinal + 1 && d_start[g.edge_target(e)].0
                        == DISTANCE_NONE implies dist@[g.edge_target(e)].0 <= d_start[u].0 + 1 by {
                    if g.edge_target(e) < ordinal {
                        assert(dist@[g.edge_target(e)] == d_before[g.edge_target(e)]);
                    } else {
                        assert(d_before[ordinal as int] == d_start[ordinal as int]);
                    }
                }
                assert forall|w: int| 0 <= w < n && d_start[w].0 != DISTANCE_NONE implies #[trigger] dist@[w] == d_start[w] by {
                    assert(d_before[w] == d_start[w]);
                }
                assert forall|w: int| ordinal + 1 <= w < n implies #[trigger] dist@[w] == d_start[w] by {
                    assert(d_before[w] == d_start[w]);
                }
            }
            ordinal += 1;
        }
        proof {
            assert(weak_targets_within(*g, d_start, dist@, g.node_count() as int));
        }
        let ghost before_weak_bfs = dist@;
        let ghost ws0 = weak_seeds@;
        unreachable_bfs(g, dist, &mut weak_seeds, true, 0);
        proof {
            lemma_weak_targets_no_larger(*g, d_start, before_weak_bfs, dist@, g.node_count() as int);
            assert forall|v: int| 0 <= v < n && d_start[v].0 == DISTANCE_NONE && #[trigger] dist@[v].0 != DISTANCE_NONE implies settled(
                *g,
                dist@,
                v,
                true,
            ) by {
                if dist@[v] != before_weak_bfs[v] {
                    let j = choose|j: int| 0 <= j < weak_seeds@.len() && weak_seeds@[j] == v;
                    assert(settled(*g, dist@, weak_seeds@[j] as int, true));
                } else {
                    assert(before_weak_bfs[v] != d_start[v]);
                    let j = choose|j: int| 0 <= j < ws0.len() && ws0[j] == v;
                    assert(weak_seeds@[j] == ws0[j]);
                    assert(settled(*g, dist@, weak_seeds@[j] as int, true));
                }
            }
            assert(weak_phase_ok(*g, d_start, dist@));
        }
    }
    let ghost after_weak = dist@;
    let mut seeds: Vec<usize> = Vec::new();
    let mut ordinal: usize = 0;
    while ordinal < n
        invariant
            g.wf(),
            ret.wf_for(*g),
            n == g.node_count(),
            ordinal <= n,
            dist@.len() == n,
            depths_bounded(dist@),
            reachable_distances_sound(*g, dist@),
            below_kept(after_weak, dist@, DISTANCE_UNREACHABLE_BASE),
            no_larger(after_weak, dist@),
            forall|i: int|
                0 <= i < seeds@.len() ==> #[trigger] seeds@[i] < n && dist@[seeds@[i] as int].0
                    != DISTANCE_NONE && dist@[seeds@[i] as int].0 >= DISTANCE_UNREACHABLE_BASE,
            forall|v: int| 0 <= v < ordinal && after_weak[v].0 == DISTANCE_NONE && #[trigger] unreachable_seed(*g, *ret, after_weak, v)
                ==> dist@[v].0 == DISTANCE_UNREACHABLE_BASE,
            forall|v: int| 0 <= v < n && #[trigger] dist@[v] != after_weak[v] ==> after_weak[v].0 == DISTANCE_NONE && dist@[v].0 == DISTANCE_UNREACHABLE_BASE,
            forall|v: int| ordinal <= v < n ==> #[trigger] dist@[v] == after_weak[v],
            forall|v: int| 0 <= v < n && #[trigger] dist@[v] != after_weak[v] ==> queued_from(seeds@, 0, v),
            forall|v: int| 0 <= v < n && #[trigger] dist@[v] != after_weak[v] ==> unreachable_seed(*g, *ret, after_weak, v),
        decreases n - ordinal,
    {
        let ghost d0 = dist@;
        if dist[ordinal].0 == DISTANCE_NONE {
            let first = ret.first_retainer_index[ordinal] as usize;
            let last = ret.first_retainer_index[ordinal + 1] as usize;
            assert(ret.range_end(ordinal as int) == ret.range_begin(ordinal as int) + crate::retainers::count_to(*g, g.edge_count() as int, ordinal as int));
            assert(ret.first_retainer_index@[ordinal + 1] <= g.edge_count());
            let mut has_reachable_retainer = false;
            let mut has_strong_unreachable_retainer = false;
            let mut idx = first;
            while idx < last
                invariant_except_break
                    !has_reachable_retainer,
                    forall|s: int| first <= s < idx ==> dist@[#[trigger] ret.retaining_nodes@[s] as int].0 >= DISTANCE_UNREACHABLE_BASE,
                invariant
                    g.wf(),
                    ret.wf_for(*g),
                    n == g.node_count(),
                    ordinal < n,
                    first == ret.range_begin(ordinal as int),
                    last == ret.range_end(ordinal as int),
                    last <= g.edge_count(),
                    first <= idx <= last,
                    dist@.len() == n,
                    !has_strong_unreachable_retainer ==> forall|s: int| first <= s < idx ==> g.edge_type(
                        #[trigger] ret.retaining_edges@[s] as int,
                    ) == g.types.edge_weak,
                    has_strong_unreachable_retainer ==> exists|s: int| first <= s < idx && g.edge_type(
                        #[trigger] ret.retaining_edges@[s] as int,
                    ) != g.types.edge_weak,
                ensures
                    has_strong_unreachable_retainer ==> exists|s: int| first <= s < last && g.edge_type(
                        #[trigger] ret.retaining_edges@[s] as int,
                    ) != g.types.edge_weak,
                    has_reachable_retainer ==> exists|s: int| first <= s < last && dist@[#[trigger] ret.retaining_nodes@[s] as int].0
                        < DISTANCE_UNREACHABLE_BASE,
                    !has_reachable_retainer ==> forall|s: int| first <= s < last ==> dist@[#[trigger] ret.retaining_nodes@[s] as int].0
                        >= DISTANCE_UNREACHABLE_BASE,
                    !has_reachable_retainer && !has_strong_unreachable_retainer ==> forall|s: int| first <= s < last ==> g.edge_type(
                        #[trigger] ret.retaining_edges@[s] as int,
                    ) == g.types.edge_weak,
                decreases last - idx,
            {
                assert(ret.range_begin(ordinal as int) <= idx < ret.range_end(ordinal as int));
                proof {
                    crate::retainers::lemma_retainer_entry(*g, *ret, ordinal as int, idx as int);
                }
                let retainer = ret.retaining_nodes[idx] as usize;
                if dist[retainer].0 < DISTANCE_UNREACHABLE_BASE {
                    has_reachable_retainer = true;
                    break;
                }
                let edge_index = ret.retaining_edges[idx] as usize;
                if g.edge_type_raw(edge_index) != g.types.edge_weak {
                    has_strong_unreachable_retainer = true;
                }
                idx += 1;
            }
            if has_reachable_retainer || !has_strong_unreachable_retainer {
                proof {
                    assert(unreachable_seed(*g, *ret, after_weak, ordinal as int)) by {
                        if has_reachable_retainer {
                            let s = choose|s: int| first <= s < last && dist@[#[trigger] ret.retaining_nodes@[s] as int].0
                                < DISTANCE_UNREACHABLE_BASE;
                            crate::retainers::lemma_retainer_entry(*g, *ret, ordinal as int, s);
                            let u = ret.retaining_nodes@[s] as int;
                            assert(dist@[u] == after_weak[u]);
                        }
                    }
                    lemma_set_unassigned(dist@, ordinal as int, DISTANCE_UNREACHABLE_BASE);
                    lemma_below_kept_trans(after_weak, dist@, dist@.update(ordinal as int, Distance(DISTANCE_UNREACHABLE_BASE)), DISTANCE_UNREACHABLE_BASE);
                    lemma_assign_unreachable_keeps_sound(*g, dist@, ordinal as int, DISTANCE_UNREACHABLE_BASE);
                }
                let ghost before = dist@;
                dist.set(ordinal, Distance(DISTANCE_UNREACHABLE_BASE));
                let ghost seeds_before = seeds@;
                seeds.push(ordinal);
                proof {
                    assert forall|v: int| 0 <= v < n && #[trigger] dist@[v] != after_weak[v] implies unreachable_seed(*g, *ret, after_weak, v) by {
                        if v != ordinal {
                            assert(before[v] == dist@[v]);
                        }
                    }
                    assert forall|v: int| 0 <= v < n && #[trigger] dist@[v] != after_weak[v] implies queued_from(seeds@, 0, v) by {
                        if v == ordinal {
                            assert(seeds@[seeds@.len() - 1] == v);
                        } else {
                            assert(before[v] == dist@[v]);
                            let j = choose|j: int| 0 <= j < seeds_before.len() && seeds_before[j] == v;
                            assert(seeds@[j] == v);
                        }
                    }
                    assert forall|v: int| 0 <= v < n implies (#[trigger] dist@[v]).0 <= after_weak[v].0 by {
                        assert(before[v].0 <= after_weak[v].0);
                    }
                    assert forall|i: int|
                        0 <= i < seeds@.len() implies #[trigger] seeds@[i] < n && dist@[seeds@[i] as int].0
                            != DISTANCE_NONE && dist@[seeds@[i] as int].0 >= DISTANCE_UNREACHABLE_BASE by {
                        if i < seeds@.len() - 1 {
                            assert(before[seeds@[i] as int].0 != DISTANCE_NONE);
                        }
                    }
                }
            } else {
                proof {
                    assert(!unreachable_seed(*g, *ret, after_weak, ordinal as int)) by {
                        if exists|s: int| ret.range_begin(ordinal as int) <= s < ret.range_end(ordinal as int)
                            && after_weak[#[trigger] ret.retaining_nodes@[s] as int].0 < DISTANCE_UNREACHABLE_BASE {
                            let s = choose|s: int| ret.range_begin(ordinal as int) <= s < ret.range_end(ordinal as int)
                                && after_weak[#[trigger] ret.retaining_nodes@[s] as int].0 < DISTANCE_UNREACHABLE_BASE;
                            crate::retainers::lemma_retainer_entry(*g, *ret, ordinal as int, s);
                            let u = ret.retaining_nodes@[s] as int;
                            if dist@[u] != after_weak[u] {
                            }
                        }
                    }
                }
            }
        }
        proof {
            assert forall|v: int| 0 <= v < ordinal + 1 && after_weak[v].0 == DISTANCE_NONE && #[trigger] unreachable_seed(*g, *ret, after_weak, v)
                implies dist@[v].0 == DISTANCE_UNREACHABLE_BASE by {
                if v < ordinal {
                    assert(d0[v].0 == DISTANCE_UNREACHABLE_BASE);
                }
            }
            assert forall|v: int| 0 <= v < n && #[trigger] dist@[v] != after_weak[v] implies after_weak[v].0 == DISTANCE_NONE && dist@[v].0
                == DISTANCE_UNREACHABLE_BASE by {
                if v != ordinal {
                    assert(dist@[v] == d0[v]);
                }
            }
        }
        ordinal += 1;
    }
    let ghost before_bfs = dist@;
    let ghost seeds0 = seeds@;
    unreachable_bfs(g, dist, &mut seeds, weak_is_reachable, DISTANCE_UNREACHABLE_BASE);
    proof {
        assert forall|v: int| 0 <= v < n && after_weak[v].0 == DISTANCE_NONE && dist@[v].0 != DISTANCE_NONE implies #[trigger] depth_walked(
            *g,
            dist@,
            v,
            weak_is_reachable,
        ) by {
            if dist@[v] != before_bfs[v] {
                let j = choose|j: int| 0 <= j < seeds@.len() && seeds@[j] == v;
                assert(settled(*g, dist@, seeds@[j] as int, weak_is_reachable));
            } else {
                assert(before_bfs[v] != after_weak[v]);
                let j = choose|j: int| 0 <= j < seeds0.len() && seeds0[j] == v;
                assert(seeds@[j] == seeds0[j]);
                assert(settled(*g, dist@, seeds@[j] as int, weak_is_reachable));
            }
        }
        assert forall|v: int| 0 <= v < n && after_weak[v].0 == DISTANCE_NONE && #[trigger] unreachable_seed(*g, *ret, after_weak, v)
            implies dist@[v].0 == DISTANCE_UNREACHABLE_BASE by {
            assert(before_bfs[v].0 == DISTANCE_UNREACHABLE_BASE);
            assert(dist@[v].0 <= before_bfs[v].0);
        }
        lemma_below_kept_trans(after_weak, before_bfs, dist@, DISTANCE_UNREACHABLE_BASE);
        assert forall|v: int| 0 <= v < n implies (#[trigger] dist@[v]).0 <= after_weak[v].0 by {
            assert(before_bfs[v].0 <= after_weak[v].0);
        }
    }
    let ghost after2 = dist@;
    proof {
        assert forall|v: int|
            0 <= v < n && after_weak[v].0 == DISTANCE_NONE && #[trigger] reached_from_seed(*g, *ret, after_weak, v, weak_is_reachable)
                implies after2[v].0 != DISTANCE_NONE by {
            let p = choose|p: Seq<int>|
                #[trigger] unreached_path(*g, after_weak, p, weak_is_reachable) && p.last() == v && unreachable_seed(*g, *ret, after_weak, p[0]);
            assert(0 <= p[0] < n && after_weak[p[0]].0 == DISTANCE_NONE);
            assert(after2[p[0]].0 == DISTANCE_UNREACHABLE_BASE);
            assert forall|w: int|
                0 <= w < g.node_count() && after_weak[w].0 == DISTANCE_NONE && #[trigger] after2[w].0 != DISTANCE_NONE implies settled(
                    *g,
                    after2,
                    w,
                    weak_is_reachable,
                ) by {
                assert(depth_walked(*g, after2, w, weak_is_reachable));
            }
            lemma_path_reaches(*g, after_weak, after2, p, weak_is_reachable);
        }
        assert forall|v: int|
            0 <= v < n && after_weak[v].0 == DISTANCE_NONE && #[trigger] after2[v].0 == DISTANCE_UNREACHABLE_BASE implies unreachable_seed(
                *g,
                *ret,
                after_weak,
                v,
            ) by {
            if after2[v] == before_bfs[v] {
                assert(before_bfs[v] != after_weak[v]);
            }
        }
    }
    let mut ordinal: usize = 0;
    while ordinal < n
        invariant
            g.wf(),
            n == g.node_count(),
            ordinal <= n,
            dist@.len() == n,
            depths_bounded(dist@),
            reachable_distances_sound(*g, dist@),
            below_kept(after_weak, dist@, DISTANCE_UNREACHABLE_BASE),
            forall|v: int| 0 <= v < ordinal ==> (#[trigger] dist@[v]).0 != DISTANCE_NONE,
            forall|v: int| 0 <= v < n && after_weak[v].0 == DISTANCE_NONE && #[trigger] unreachable_seed(*g, *ret, after_weak, v)
                ==> dist@[v].0 == DISTANCE_UNREACHABLE_BASE,
            ret.wf_for(*g),
            no_larger(after_weak, dist@),
            forall|v: int| 0 <= v < n && after_weak[v].0 == DISTANCE_NONE && dist@[v].0 != DISTANCE_NONE ==> #[trigger] depth_walked(
                *g,
                dist@,
                v,
                weak_is_reachable,
            ),
            no_larger(after2, dist@),
            after2.len() == n,
            forall|v: int|
                0 <= v < n && after_weak[v].0 == DISTANCE_NONE && #[trigger] dist@[v].0 == DISTANCE_UNREACHABLE_BASE
                    && !unreachable_seed(*g, *ret, after_weak, v) ==> after2[v].0 == DISTANCE_NONE,
        decreases n - ordinal,
    {
        if dist[ordinal].0 == DISTANCE_NONE {
            proof {
                lemma_set_unassigned(dist@, ordinal as int, DISTANCE_UNREACHABLE_BASE);
                lemma_below_kept_trans(after_weak, dist@, dist@.update(ordinal as int, Distance(DISTANCE_UNREACHABLE_BASE)), DISTANCE_UNREACHABLE_BASE);
                lemma_assign_unreachable_keeps_sound(*g, dist@, ordinal as int, DISTANCE_UNREACHABLE_BASE);
            }
            let ghost before = dist@;
            dist.set(ordinal, Distance(DISTANCE_UNREACHABLE_BASE));
            let mut single: Vec<usize> = Vec::new();
            single.push(ordinal);
            let ghost mid = dist@;
            proof {
                assert forall|v: int| 0 <= v <= ordinal implies (#[trigger] dist@[v]).0 != DISTANCE_NONE by {
                    if v < ordinal {
                        assert(before[v].0 != DISTANCE_NONE);
                    }
                }
            }
            unreachable_bfs(g, dist, &mut single, weak_is_reachable, DISTANCE_UNREACHABLE_BASE);
            proof {
                assert forall|v: int| 0 <= v < n && after_weak[v].0 == DISTANCE_NONE && #[trigger] unreachable_seed(*g, *ret, after_weak, v)
                    implies dist@[v].0 == DISTANCE_UNREACHABLE_BASE by {
                    assert(before[v].0 == DISTANCE_UNREACHABLE_BASE);
                    assert(mid[v].0 == DISTANCE_UNREACHABLE_BASE);
                    assert(dist@[v].0 <= mid[v].0);
                }
                lemma_below_kept_trans(after_weak, mid, dist@, DISTANCE_UNREACHABLE_BASE);
                assert forall|v: int| 0 <= v <= ordinal implies (#[trigger] dist@[v]).0 != DISTANCE_NONE by {
                    assert(mid[v].0 != DISTANCE_NONE);
                    assert(dist@[v].0 <= mid[v].0);
                }
                assert forall|v: int| 0 <= v < n implies (#[trigger] dist@[v]).0 <= after_weak[v].0 by {
                    assert(dist@[v].0 <= mid[v].0);
                    assert(before[v].0 <= after_weak[v].0);
                }
                assert forall|v: int| 0 <= v < n implies (#[trigger] dist@[v]).0 <= after2[v].0 by {
                    assert(dist@[v].0 <= mid[v].0);
                    assert(before[v].0 <= after2[v].0);
                }
                assert(after2[ordinal as int].0 == DISTANCE_NONE) by {
                    assert(before[ordinal as int].0 <= after2[ordinal as int].0);
                }
                assert forall|v: int|
                    0 <= v < n && after_weak[v].0 == DISTANCE_NONE && #[trigger] dist@[v].0 == DISTANCE_UNREACHABLE_BASE
                        && !unreachable_seed(*g, *ret, after_weak, v) implies after2[v].0 == DISTANCE_NONE by {
                    if v != ordinal {
                        if dist@[v] == mid[v] {
                            assert(before[v] == mid[v]);
                        }
                    }
                }
                assert forall|v: int| 0 <= v < n && after_weak[v].0 == DISTANCE_NONE && dist@[v].0 != DISTANCE_NONE implies #[trigger] depth_walked(
                    *g,
                    dist@,
                    v,
                    weak_is_reachable,
                ) by {
                    if dist@[v] != mid[v] {
                        let j = choose|j: int| 0 <= j < single@.len() && single@[j] == v;
                        assert(settled(*g, dist@, single@[j] as int, weak_is_reachable));
                    } else if v == ordinal {
                        assert(single@[0] == ordinal);
                        assert(settled(*g, dist@, single@[0] as int, weak_is_reachable));
                    } else {
                        assert(before[v] == mid[v]);
                        assert(depth_walked(*g, before, v, weak_is_reachable));
                        lemma_lower_keeps_settled(*g, before, ordinal as int, DISTANCE_UNREACHABLE_BASE, v, weak_is_reachable);
                        lemma_settled_kept(*g, mid, dist@, v, weak_is_reachable);
                        if dist@[v].0 > DISTANCE_UNREACHABLE_BASE {
                            lemma_lower_keeps_fed(*g, before, ordinal as int, DISTANCE_UNREACHABLE_BASE, v, DISTANCE_UNREACHABLE_BASE, weak_is_reachable);
                            lemma_fed_kept(*g, mid, dist@, v, DISTANCE_UNREACHABLE_BASE, weak_is_reachable);
                        }
                    }
                }
            }
        }
        ordinal += 1;
    }
    proof {
        if !weak_is_reachable {
            assert(after_weak == old(dist)@);
            assert forall|v: int| 0 <= v < g.node_count() && old(dist)@[v].0 == DISTANCE_NONE implies #[trigger] depth_walked(
                *g,
                dist@,
                v,
                false,
            ) by {
                assert(dist@[v].0 != DISTANCE_NONE);
            }
            assert forall|v: int|
                0 <= v < g.node_count() && old(dist)@[v].0 == DISTANCE_NONE && dist@[v].0 == DISTANCE_UNREACHABLE_BASE
                    && #[trigger] reached_from_seed(*g, *ret, old(dist)@, v, false) implies unreachable_seed(*g, *ret, old(dist)@, v) by {
                assert(after2[v].0 != DISTANCE_NONE);
            }
        } else {
            lemma_weak_targets_no_larger(*g, d_start, after_weak, dist@, g.node_count() as int);
        }
        assert forall|v: int| 0 <= v < g.node_count() && after_weak[v].0 == DISTANCE_NONE implies #[trigger] depth_walked(
            *g,
            dist@,
            v,
            weak_is_reachable,
        ) by {
            assert(dist@[v].0 != DISTANCE_NONE);
        }
        assert forall|v: int|
            0 <= v < g.node_count() && after_weak[v].0 == DISTANCE_NONE && dist@[v].0 == DISTANCE_UNREACHABLE_BASE && #[trigger] reached_from_seed(
                *g,
                *ret,
                after_weak,
                v,
                weak_is_reachable,
            ) implies unreachable_seed(*g, *ret, after_weak, v) by {
            assert(after2[v].0 != DISTANCE_NONE);
        }
        assert(depths_from(*g, *ret, after_weak, dist@, weak_is_reachable));
        if weak_is_reachable {
            assert(weak_phase_ok(*g, d_start, after_weak));
        }
    }
}

} // verus!
