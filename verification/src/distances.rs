use vstd::prelude::*;
use crate::types::{Distance, RootKind, DISTANCE_NONE, DISTANCE_UNREACHABLE_BASE, MAX_NODE_COUNT};
use crate::graph::Graph;
use crate::reach::{should_traverse_edge, structural_edge, maybe_paired_edge};
use crate::fxcoll::{ByteSet, byte_set_new};

verus! {

/// Number of entries of `d` that hold a distance.
pub open spec fn count_assigned(d: Seq<Distance>) -> nat
    decreases d.len(),
{
    if d.len() == 0 {
        0
    } else {
        count_assigned(d.drop_last()) + if d.last().0 != DISTANCE_NONE {
            1nat
        } else {
            0nat
        }
    }
}

pub proof fn lemma_count_assigned_bound(d: Seq<Distance>)
    ensures
        count_assigned(d) <= d.len(),
        (exists|i: int| 0 <= i < d.len() && d[i].0 == DISTANCE_NONE) ==> count_assigned(d) < d.len(),
    decreases d.len(),
{
    if d.len() > 0 {
        lemma_count_assigned_bound(d.drop_last());
        if exists|i: int| 0 <= i < d.len() && d[i].0 == DISTANCE_NONE {
            let i = choose|i: int| 0 <= i < d.len() && d[i].0 == DISTANCE_NONE;
            if i < d.len() - 1 {
                assert(d.drop_last()[i].0 == DISTANCE_NONE);
            }
        }
    }
}

pub proof fn lemma_count_assigned_update(d: Seq<Distance>, i: int, x: Distance)
    requires
        0 <= i < d.len(),
    ensures
        count_assigned(d.update(i, x)) == count_assigned(d) - (if d[i].0 != DISTANCE_NONE {
            1int
        } else {
            0int
        }) + (if x.0 != DISTANCE_NONE {
            1int
        } else {
            0int
        }),
    decreases d.len(),
{
    if i == d.len() - 1 {
        assert(d.update(i, x).drop_last() =~= d.drop_last());
    } else {
        lemma_count_assigned_update(d.drop_last(), i, x);
        assert(d.update(i, x).drop_last() =~= d.drop_last().update(i, x));
    }
}

/// Node `v` has a retainer `u`, through an edge of `u`, that is strictly
/// closer to the roots.
pub open spec fn has_closer_retainer(g: Graph, d: Seq<Distance>, v: int) -> bool {
    exists|u: int, e: int|
        0 <= u < g.node_count() && #[trigger] g.is_out_edge(u, e) && g.edge_target(e) == v
            && d[u].0 != DISTANCE_NONE && d[u].0 < d[v].0
}

/// Every node with a reachable distance, other than the two roots, has a
/// retainer strictly closer to the GC roots, which sit at distance 0.
pub open spec fn reachable_distances_sound(g: Graph, d: Seq<Distance>) -> bool {
    &&& d.len() == g.node_count()
    &&& d[g.gc_roots_ordinal as int].0 == 0
    &&& forall|v: int|
        0 <= v < d.len() && #[trigger] d[v].0 < DISTANCE_UNREACHABLE_BASE && v != g.gc_roots_ordinal
            && v != g.root_ordinal ==> has_closer_retainer(g, d, v)
}

/// Lowering node `c` to one more than the distance of a retainer `u`
/// keeps every reachable node's closer retainer.
pub proof fn lemma_lower_keeps_sound(g: Graph, d: Seq<Distance>, c: int, x: u32, u: int, e: int)
    requires
        g.wf(),
        reachable_distances_sound(g, d),
        0 <= c < g.node_count(),
        0 <= u < g.node_count(),
        g.is_out_edge(u, e),
        g.edge_target(e) == c,
        d[u].0 != DISTANCE_NONE,
        d[u].0 < x,
        d[c].0 == DISTANCE_NONE || x < d[c].0,
    ensures
        reachable_distances_sound(g, d.update(c, Distance(x))),
{
    let nd = d.update(c, Distance(x));
    assert(u != c);
    assert(c != g.gc_roots_ordinal);
    assert forall|v: int|
        0 <= v < nd.len() && #[trigger] nd[v].0 < DISTANCE_UNREACHABLE_BASE && v != g.gc_roots_ordinal
            && v != g.root_ordinal implies has_closer_retainer(g, nd, v) by {
        if v == c {
            assert(g.is_out_edge(u, e) && g.edge_target(e) == v && nd[u].0 != DISTANCE_NONE && nd[u].0 < nd[v].0);
        } else {
            assert(has_closer_retainer(g, d, v));
            let (w, f) = choose|w: int, f: int|
                0 <= w < g.node_count() && #[trigger] g.is_out_edge(w, f) && g.edge_target(f) == v
                    && d[w].0 != DISTANCE_NONE && d[w].0 < d[v].0;
            assert(nd[w].0 != DISTANCE_NONE && nd[w].0 < nd[v].0);
        }
    }
}

/// Giving a node without a distance one that is not reachable keeps every
/// reachable node's closer retainer.
pub proof fn lemma_assign_unreachable_keeps_sound(g: Graph, d: Seq<Distance>, c: int, x: u32)
    requires
        g.wf(),
        reachable_distances_sound(g, d),
        0 <= c < g.node_count(),
        d[c].0 == DISTANCE_NONE,
        x >= DISTANCE_UNREACHABLE_BASE,
    ensures
        reachable_distances_sound(g, d.update(c, Distance(x))),
{
    let nd = d.update(c, Distance(x));
    assert(c != g.gc_roots_ordinal);
    assert forall|v: int|
        0 <= v < nd.len() && #[trigger] nd[v].0 < DISTANCE_UNREACHABLE_BASE && v != g.gc_roots_ordinal
            && v != g.root_ordinal implies has_closer_retainer(g, nd, v) by {
        assert(v != c);
        assert(has_closer_retainer(g, d, v));
        let (w, f) = choose|w: int, f: int|
            0 <= w < g.node_count() && #[trigger] g.is_out_edge(w, f) && g.edge_target(f) == v
                && d[w].0 != DISTANCE_NONE && d[w].0 < d[v].0;
        assert(w != c);
        assert(nd[w].0 != DISTANCE_NONE && nd[w].0 < nd[v].0);
    }
}

/// The distance facts that hold while the distances are being assigned:
/// the GC roots are at distance 0, every distance is below the number of
/// nodes that have one, and every node with a distance other than the two
/// roots has a retainer closer to the roots.
#[verifier::opaque]
pub open spec fn distances_sound(g: Graph, d: Seq<Distance>) -> bool {
    &&& d.len() == g.node_count()
    &&& d[g.gc_roots_ordinal as int].0 == 0
    &&& forall|v: int|
        0 <= v < d.len() && #[trigger] d[v].0 != DISTANCE_NONE ==> d[v].0 < count_assigned(d)
    &&& forall|v: int|
        0 <= v < d.len() && #[trigger] d[v].0 != DISTANCE_NONE && v != g.gc_roots_ordinal && v
            != g.root_ordinal ==> has_closer_retainer(g, d, v)
}

/// `d2` keeps every distance that `d1` holds.
pub open spec fn keeps_assigned(d1: Seq<Distance>, d2: Seq<Distance>) -> bool {
    &&& d1.len() == d2.len()
    &&& forall|v: int| 0 <= v < d1.len() && d1[v].0 != DISTANCE_NONE ==> #[trigger] d2[v] == d1[v]
}

/// The first `len` queue entries are nodes that have a distance.
#[verifier::opaque]
pub open spec fn queue_ok(g: Graph, d: Seq<Distance>, q: Seq<u32>, len: int) -> bool {
    &&& q.len() == g.node_count()
    &&& 0 <= len <= count_assigned(d)
    &&& forall|i: int| 0 <= i < len ==> #[trigger] q[i] < g.node_count() && d[q[i] as int].0 != DISTANCE_NONE
}

proof fn lemma_assign_child(g: Graph, d: Seq<Distance>, node: int, e: int, child: int, x: u32)
    requires
        g.wf(),
        distances_sound(g, d),
        0 <= node < g.node_count(),
        d[node].0 != DISTANCE_NONE,
        g.is_out_edge(node, e),
        g.edge_target(e) == child,
        d[child].0 == DISTANCE_NONE,
        x == d[node].0 + 1,
    ensures
        distances_sound(g, d.update(child, Distance(x))),
        x != DISTANCE_NONE,
        count_assigned(d.update(child, Distance(x))) == count_assigned(d) + 1,
        count_assigned(d) < g.node_count(),
        keeps_assigned(d, d.update(child, Distance(x))),
{
    reveal(distances_sound);
    let nd = d.update(child, Distance(x));
    assert(0 <= child < g.node_count());
    lemma_count_assigned_update(d, child, Distance(x));
    lemma_count_assigned_bound(d);
    assert(x != DISTANCE_NONE) by {
        assert(d[node].0 < count_assigned(d));
    }
    assert forall|v: int|
        0 <= v < nd.len() && #[trigger] nd[v].0 != DISTANCE_NONE && v != g.gc_roots_ordinal && v
            != g.root_ordinal implies has_closer_retainer(g, nd, v) by {
        if v == child {
            assert(g.is_out_edge(node, e));
            assert(nd[node] == d[node]);
        } else {
            assert(d[v].0 != DISTANCE_NONE);
            assert(has_closer_retainer(g, d, v));
            let (u, f) = choose|u: int, f: int|
                0 <= u < g.node_count() && #[trigger] g.is_out_edge(u, f) && g.edge_target(f) == v
                    && d[u].0 != DISTANCE_NONE && d[u].0 < d[v].0;
            assert(u != child);
            assert(g.is_out_edge(u, f));
            assert(nd[u] == d[u]);
        }
    }
    assert forall|v: int|
        0 <= v < nd.len() && #[trigger] nd[v].0 != DISTANCE_NONE implies nd[v].0 < count_assigned(nd) by {
        if v != child {
            assert(d[v].0 != DISTANCE_NONE);
        } else {
            assert(d[node].0 < count_assigned(d));
        }
    }
}

proof fn lemma_queue_push(g: Graph, d: Seq<Distance>, nd: Seq<Distance>, q: Seq<u32>, len: int, child: int)
    requires
        g.wf(),
        d.len() == g.node_count(),
        queue_ok(g, d, q, len),
        keeps_assigned(d, nd),
        count_assigned(nd) == count_assigned(d) + 1,
        count_assigned(d) < g.node_count(),
        0 <= child < g.node_count(),
        nd[child].0 != DISTANCE_NONE,
    ensures
        len < q.len(),
        q.len() == g.node_count(),
        queue_ok(g, nd, q.update(len, child as u32), len + 1),
{
    reveal(queue_ok);
    assert(child < MAX_NODE_COUNT);
    assert((child as u32) as int == child);
    let nq = q.update(len, child as u32);
    assert forall|i: int| 0 <= i < len + 1 implies #[trigger] nq[i] < g.node_count() && nd[nq[i] as int].0
        != DISTANCE_NONE by {
        if i < len {
            assert(q[i] < g.node_count() && d[q[i] as int].0 != DISTANCE_NONE);
        }
    }
}

proof fn lemma_queue_keep(g: Graph, d: Seq<Distance>, nd: Seq<Distance>, q: Seq<u32>, len: int)
    requires
        d.len() == g.node_count(),
        queue_ok(g, d, q, len),
        keeps_assigned(d, nd),
        count_assigned(d) <= count_assigned(nd),
    ensures
        queue_ok(g, nd, q, len),
{
    reveal(queue_ok);
    assert forall|i: int| 0 <= i < len implies #[trigger] q[i] < g.node_count() && nd[q[i] as int].0
        != DISTANCE_NONE by {
        assert(q[i] < g.node_count() && d[q[i] as int].0 != DISTANCE_NONE);
    }
}

proof fn lemma_queue_entry(g: Graph, d: Seq<Distance>, q: Seq<u32>, len: int, i: int)
    requires
        queue_ok(g, d, q, len),
        0 <= i < len,
    ensures
        q[i] < g.node_count(),
        d[q[i] as int].0 != DISTANCE_NONE,
        q.len() == g.node_count(),
        len <= count_assigned(d),
{
    reveal(queue_ok);
}

/// Edge `e` of `node` is followed whatever the walk has seen: it is not
/// weak, the structural filter lets it through, and it cannot belong to a
/// WeakMap ephemeron pair.
pub open spec fn always_followed(g: Graph, node: int, e: int) -> bool {
    g.edge_type(e) != g.types.edge_weak && structural_edge(g, node, e) && !maybe_paired_edge(g, e)
}

/// What one relaxation step did: the queue entries below `len0` stay, the
/// entries from `len0` to `len1` are the nodes that got a distance, each
/// without one before, now one more than `node`'s, and the target of one of
/// `node`'s structural, non-weak edges; no other distance changed; and every
/// target of an edge of `node` that is always followed has a distance now,
/// one more than `node`'s where it had none.
pub open spec fn relaxed(
    g: Graph,
    node: int,
    d0: Seq<Distance>,
    d1: Seq<Distance>,
    q0: Seq<u32>,
    q1: Seq<u32>,
    len0: int,
    len1: int,
) -> bool {
    &&& q1.len() == q0.len()
    &&& len0 <= len1
    &&& forall|i: int| 0 <= i < len0 ==> #[trigger] q1[i] == q0[i]
    &&& forall|i: int| len0 <= i < len1 ==> {
        let c = #[trigger] q1[i] as int;
        &&& 0 <= c < g.node_count()
        &&& d0[c].0 == DISTANCE_NONE
        &&& d1[c].0 == d0[node].0 + 1
    }
    &&& forall|v: int| 0 <= v < d0.len() && #[trigger] d1[v] != d0[v] ==> {
        &&& d0[v].0 == DISTANCE_NONE
        &&& d1[v].0 == d0[node].0 + 1
        &&& exists|i: int| len0 <= i < len1 && q1[i] == v
        &&& exists|e: int| #[trigger] g.is_out_edge(node, e) && g.edge_target(e) == v && g.edge_type(e) != g.types.edge_weak
            && structural_edge(g, node, e)
    }
    &&& forall|e: int| #[trigger] g.is_out_edge(node, e) && always_followed(g, node, e) && d0[g.edge_target(e)].0
        == DISTANCE_NONE ==> d1[g.edge_target(e)].0 == d0[node].0 + 1
}

/// Every edge of `u` that is always followed leads to a node with a
/// distance.
pub open spec fn closed_at(g: Graph, d: Seq<Distance>, u: int) -> bool {
    forall|e: int| #[trigger] g.is_out_edge(u, e) && always_followed(g, u, e) ==> d[g.edge_target(e)].0 != DISTANCE_NONE
}

/// Node `v` is among queue entries `from` to `to`.
pub open spec fn in_queue(q: Seq<u32>, from: int, to: int, v: int) -> bool {
    exists|j: int| from <= j < to && q[j] as int == v
}

/// Every node with a distance, other than the synthetic root, is closed or
/// still waits among queue entries `from` to `to`.
pub open spec fn closed_or_queued(g: Graph, d: Seq<Distance>, q: Seq<u32>, from: int, to: int) -> bool {
    forall|v: int|
        0 <= v < d.len() && #[trigger] d[v].0 != DISTANCE_NONE && v != g.root_ordinal ==> closed_at(g, d, v)
            || in_queue(q, from, to, v)
}

proof fn lemma_closed_kept(g: Graph, d1: Seq<Distance>, d2: Seq<Distance>, u: int)
    requires
        g.wf(),
        d1.len() == g.node_count(),
        0 <= u < g.node_count(),
        keeps_assigned(d1, d2),
        closed_at(g, d1, u),
    ensures
        closed_at(g, d2, u),
{
    assert forall|e: int| #[trigger] g.is_out_edge(u, e) && always_followed(g, u, e) implies d2[g.edge_target(e)].0
        != DISTANCE_NONE by {
        assert(g.edge_target(e) < g.node_count());
        assert(d2[g.edge_target(e)] == d1[g.edge_target(e)]);
    }
}

/// After one relaxation step of queue entry `index`, the nodes with a
/// distance other than the root are closed or wait after that entry.
proof fn lemma_relax_closes(
    g: Graph,
    node: int,
    d0: Seq<Distance>,
    d1: Seq<Distance>,
    q0: Seq<u32>,
    q1: Seq<u32>,
    index: int,
    len0: int,
    len1: int,
)
    requires
        g.wf(),
        d0.len() == g.node_count(),
        0 <= node < g.node_count(),
        0 <= index < len0,
        q0[index] as int == node,
        distances_sound(g, d0),
        d0[node].0 != DISTANCE_NONE,
        closed_or_queued(g, d0, q0, index, len0),
        keeps_assigned(d0, d1),
        relaxed(g, node, d0, d1, q0, q1, len0, len1),
    ensures
        closed_or_queued(g, d1, q1, index + 1, len1),
{
    assert(closed_at(g, d1, node)) by {
        reveal(distances_sound);
        lemma_count_assigned_bound(d0);
        assert(d0[node].0 < count_assigned(d0));
        assert forall|e: int| #[trigger] g.is_out_edge(node, e) && always_followed(g, node, e) implies d1[g.edge_target(e)].0
            != DISTANCE_NONE by {
            assert(g.edge_target(e) < g.node_count());
            if d0[g.edge_target(e)].0 != DISTANCE_NONE {
                assert(d1[g.edge_target(e)] == d0[g.edge_target(e)]);
            }
        }
    }
    assert forall|v: int|
        0 <= v < d1.len() && #[trigger] d1[v].0 != DISTANCE_NONE && v != g.root_ordinal implies closed_at(g, d1, v)
            || in_queue(q1, index + 1, len1, v) by {
        if v == node {
        } else if d1[v] != d0[v] {
            let i = choose|i: int| len0 <= i < len1 && q1[i] == v;
            assert(q1[i] as int == v);
        } else {
            if closed_at(g, d0, v) {
                lemma_closed_kept(g, d0, d1, v);
            } else {
                let j = choose|j: int| index <= j < len0 && q0[j] as int == v;
                assert(j != index);
                assert(q1[j] == q0[j]);
            }
        }
    }
}

/// Edge `e` of `u` is one the walk may follow: not weak, and let through
/// by the structural filter.
pub open spec fn walk_edge(g: Graph, u: int, e: int) -> bool {
    g.is_out_edge(u, e) && g.edge_type(e) != g.types.edge_weak && structural_edge(g, u, e)
}

/// Node `v` is one step beyond a node with a distance, over an edge the
/// walk may follow.
pub open spec fn stepped(g: Graph, d: Seq<Distance>, v: int) -> bool {
    exists|u: int, e: int|
        0 <= u < g.node_count() && #[trigger] walk_edge(g, u, e) && g.edge_target(e) == v && d[u].0 != DISTANCE_NONE
            && d[u].0 + 1 == d[v].0
}

/// Every edge of `u` that is always followed leads to a node with a
/// distance; one that the current walk gave a distance (it had none in
/// `prev`) is at most one step beyond `u`.
pub open spec fn walk_settled(g: Graph, prev: Seq<Distance>, d: Seq<Distance>, u: int) -> bool {
    forall|e: int|
        #[trigger] g.is_out_edge(u, e) && always_followed(g, u, e) ==> d[g.edge_target(e)].0 != DISTANCE_NONE && (
        prev[g.edge_target(e)].0 == DISTANCE_NONE ==> d[g.edge_target(e)].0 <= d[u].0 + 1)
}

/// The first `to` queue entries are nodes the current walk gave a distance
/// (none in `prev`), and every such node is among them.
pub open spec fn walk_queued(g: Graph, prev: Seq<Distance>, d: Seq<Distance>, q: Seq<u32>, to: int) -> bool {
    &&& forall|j: int| 0 <= j < to ==> #[trigger] q[j] < g.node_count() && prev[q[j] as int].0 == DISTANCE_NONE
        && d[q[j] as int].0 != DISTANCE_NONE
    &&& forall|v: int|
        0 <= v < g.node_count() && prev[v].0 == DISTANCE_NONE && #[trigger] d[v].0 != DISTANCE_NONE ==> exists|j: int|
            0 <= j < to && q[j] as int == v
}

/// The first `to` queue entries come in nondecreasing distance, the last at
/// most one above entry `front`.
pub open spec fn levels_ok(d: Seq<Distance>, q: Seq<u32>, front: int, to: int) -> bool {
    &&& forall|i: int, j: int| #![trigger q[i], q[j]] 0 <= i <= j < to ==> d[q[i] as int].0 <= d[q[j] as int].0
    &&& front < to ==> d[q[to - 1] as int].0 <= d[q[front] as int].0 + 1
}

proof fn lemma_stepped_kept(g: Graph, d0: Seq<Distance>, d1: Seq<Distance>, v: int)
    requires
        d0.len() == g.node_count(),
        0 <= v < g.node_count(),
        d0[v].0 != DISTANCE_NONE,
        keeps_assigned(d0, d1),
        stepped(g, d0, v),
    ensures
        stepped(g, d1, v),
{
    let (u, e) = choose|u: int, e: int|
        0 <= u < g.node_count() && #[trigger] walk_edge(g, u, e) && g.edge_target(e) == v && d0[u].0 != DISTANCE_NONE
            && d0[u].0 + 1 == d0[v].0;
    assert(d1[u] == d0[u] && d1[v] == d0[v]);
    assert(walk_edge(g, u, e));
}

/// Processing queue entry `index` keeps the queue in levels, settles the
/// entry, and steps every node it gives a distance.
proof fn lemma_walk_step(
    g: Graph,
    prev: Seq<Distance>,
    d0: Seq<Distance>,
    d1: Seq<Distance>,
    q0: Seq<u32>,
    q1: Seq<u32>,
    index: int,
    len0: int,
    len1: int,
    node: int,
)
    requires
        g.wf(),
        d0.len() == g.node_count(),
        prev.len() == g.node_count(),
        q0.len() == g.node_count(),
        0 <= index < len0,
        q0[index] as int == node,
        0 <= node < g.node_count(),
        d0[node].0 + 1 < DISTANCE_NONE,
        keeps_assigned(prev, d0),
        walk_queued(g, prev, d0, q0, len0),
        levels_ok(d0, q0, index, len0),
        forall|i: int| 0 <= i < index ==> walk_settled(g, prev, d0, #[trigger] q0[i] as int),
        keeps_assigned(d0, d1),
        relaxed(g, node, d0, d1, q0, q1, len0, len1),
    ensures
        walk_queued(g, prev, d1, q1, len1),
        levels_ok(d1, q1, index + 1, len1),
        forall|i: int| 0 <= i < index + 1 ==> walk_settled(g, prev, d1, #[trigger] q1[i] as int),
        forall|v: int| 0 <= v < g.node_count() && d0[v].0 == DISTANCE_NONE && #[trigger] d1[v].0 != DISTANCE_NONE ==> stepped(g, d1, v),
{
    let n = g.node_count();
    assert(d0[node].0 != DISTANCE_NONE);
    assert(d1[node] == d0[node]);
    // queue entries: old ones keep their distance, new ones are one step beyond `node`
    assert forall|j: int| 0 <= j < len1 implies #[trigger] q1[j] < n && prev[q1[j] as int].0 == DISTANCE_NONE
        && d1[q1[j] as int].0 != DISTANCE_NONE by {
        if j < len0 {
            assert(q1[j] == q0[j]);
            assert(d1[q0[j] as int] == d0[q0[j] as int]);
        } else {
            let c = q1[j] as int;
            assert(d0[c].0 == DISTANCE_NONE);
            if prev[c].0 != DISTANCE_NONE {
                assert(d0[c] == prev[c]);
            }
        }
    }
    assert forall|v: int|
        0 <= v < n && prev[v].0 == DISTANCE_NONE && #[trigger] d1[v].0 != DISTANCE_NONE implies exists|j: int|
            0 <= j < len1 && q1[j] as int == v by {
        if d1[v] != d0[v] {
            let i = choose|i: int| len0 <= i < len1 && q1[i] == v;
            assert(q1[i] as int == v);
        } else {
            let j = choose|j: int| 0 <= j < len0 && q0[j] as int == v;
            assert(q1[j] == q0[j]);
        }
    }
    // distance of every entry before `len1`
    assert forall|j: int| 0 <= j < len0 implies #[trigger] d1[q1[j] as int] == d0[q0[j] as int] by {
        assert(q1[j] == q0[j]);
        assert(d0[q0[j] as int].0 != DISTANCE_NONE);
    }
    assert forall|i: int, j: int| #![trigger q1[i], q1[j]] 0 <= i <= j < len1 implies d1[q1[i] as int].0 <= d1[q1[j] as int].0 by {
        if j < len0 {
            assert(d1[q1[i] as int] == d0[q0[i] as int]);
            assert(d1[q1[j] as int] == d0[q0[j] as int]);
            assert(d0[q0[i] as int].0 <= d0[q0[j] as int].0);
        } else if i < len0 {
            assert(d1[q1[i] as int] == d0[q0[i] as int]);
            assert(d0[q0[i] as int].0 <= d0[q0[len0 - 1] as int].0);
            assert(d0[q0[len0 - 1] as int].0 <= d0[node].0 + 1);
        } else {
        }
    }
    if index + 1 < len1 {
        let f = q1[index + 1] as int;
        if index + 1 < len0 {
            assert(d1[f] == d0[q0[index + 1] as int]);
            assert(d0[q0[index] as int].0 <= d0[q0[index + 1] as int].0);
        } else {
            assert(d1[f].0 == d0[node].0 + 1);
        }
        if len1 - 1 < len0 {
            assert(d1[q1[len1 - 1] as int] == d0[q0[len1 - 1] as int]);
        }
        assert(d1[q1[len1 - 1] as int].0 <= d0[node].0 + 1);
        assert(d0[node].0 <= d1[f].0);
    }
    assert forall|i: int| 0 <= i < index + 1 implies walk_settled(g, prev, d1, #[trigger] q1[i] as int) by {
        assert(q1[i] == q0[i]);
        let u = q0[i] as int;
        assert(d1[u] == d0[u]);
        assert forall|e: int| #[trigger] g.is_out_edge(u, e) && always_followed(g, u, e) implies d1[g.edge_target(e)].0
            != DISTANCE_NONE && (prev[g.edge_target(e)].0 == DISTANCE_NONE ==> d1[g.edge_target(e)].0 <= d1[u].0 + 1) by {
            let t = g.edge_target(e);
            assert(t < n);
            if i < index {
                assert(walk_settled(g, prev, d0, u));
                assert(d1[t] == d0[t]);
            } else {
                if d0[t].0 == DISTANCE_NONE {
                } else {
                    assert(d1[t] == d0[t]);
                    if prev[t].0 == DISTANCE_NONE {
                        let j = choose|j: int| 0 <= j < len0 && q0[j] as int == t;
                        if j < index {
                            assert(d0[q0[j] as int].0 <= d0[q0[index] as int].0);
                        } else {
                            assert(d0[q0[j] as int].0 <= d0[q0[len0 - 1] as int].0);
                        }
                    }
                }
            }
        }
    }
    assert forall|v: int| 0 <= v < n && d0[v].0 == DISTANCE_NONE && #[trigger] d1[v].0 != DISTANCE_NONE implies stepped(g, d1, v) by {
        assert(d1[v] != d0[v]);
        let e = choose|e: int| #[trigger] g.is_out_edge(node, e) && g.edge_target(e) == v && g.edge_type(e) != g.types.edge_weak
            && structural_edge(g, node, e);
        assert(walk_edge(g, node, e));
    }
}

/// Gives every unvisited child of `node`, through an edge that is not weak
/// and that the filter lets through, the distance `node`'s plus one, and
/// queues it.
fn relax_children(
    g: &Graph,
    node: usize,
    dist: &mut Vec<Distance>,
    queue: &mut Vec<u32>,
    visit_len: &mut usize,
    pending: &mut ByteSet,
)
    requires
        g.wf(),
        node < g.node_count(),
        old(dist)@.len() == g.node_count(),
        old(dist)@[node as int].0 != DISTANCE_NONE,
        distances_sound(*g, old(dist)@),
        queue_ok(*g, old(dist)@, old(queue)@, *old(visit_len) as int),
    ensures
        final(dist)@.len() == g.node_count(),
        distances_sound(*g, final(dist)@),
        keeps_assigned(old(dist)@, final(dist)@),
        queue_ok(*g, final(dist)@, final(queue)@, *final(visit_len) as int),
        *old(visit_len) <= *final(visit_len),
        relaxed(*g, node as int, old(dist)@, final(dist)@, old(queue)@, final(queue)@, *old(visit_len) as int, *final(visit_len) as int),
{
    proof {
        reveal(distances_sound);
        lemma_count_assigned_bound(dist@);
    }
    let d = dist[node].0 + 1;
    let (first_edge, last_edge) = g.node_edge_range(node);
    let mut ei = first_edge;
    while ei < last_edge
        invariant
            g.wf(),
            node < g.node_count(),
            dist@[node as int] == old(dist)@[node as int],
            old(dist)@[node as int].0 != DISTANCE_NONE,
            d == old(dist)@[node as int].0 + 1,
            dist@.len() == g.node_count(),
            old(dist)@.len() == g.node_count(),
            first_edge == g.edge_begin(node as int),
            last_edge == g.edge_end(node as int),
            last_edge <= g.edge_count(),
            first_edge <= ei <= last_edge,
            distances_sound(*g, dist@),
            keeps_assigned(old(dist)@, dist@),
            queue_ok(*g, dist@, queue@, *visit_len as int),
            *old(visit_len) <= *visit_len,
            queue@.len() == old(queue)@.len(),
            forall|i: int| 0 <= i < *old(visit_len) ==> #[trigger] queue@[i] == old(queue)@[i],
            forall|i: int| *old(visit_len) <= i < *visit_len ==> {
                let c = #[trigger] queue@[i] as int;
                &&& 0 <= c < g.node_count()
                &&& old(dist)@[c].0 == DISTANCE_NONE
                &&& dist@[c].0 == d
            },
            forall|v: int| 0 <= v < old(dist)@.len() && #[trigger] dist@[v] != old(dist)@[v] ==> {
                &&& old(dist)@[v].0 == DISTANCE_NONE
                &&& dist@[v].0 == d
                &&& exists|i: int| *old(visit_len) <= i < *visit_len && queue@[i] == v
                &&& exists|e: int| #[trigger] g.is_out_edge(node as int, e) && g.edge_target(e) == v && g.edge_type(e) != g.types.edge_weak
                    && structural_edge(*g, node as int, e)
            },
            forall|e: int| #[trigger] g.is_out_edge(node as int, e) && e < ei && always_followed(*g, node as int, e) && old(dist)@[g.edge_target(e)].0
                == DISTANCE_NONE ==> dist@[g.edge_target(e)].0 == d,
        decreases last_edge - ei,
    {
        if g.edge_type_raw(ei) != g.types.edge_weak {
            let child = g.edge_to_node(ei);
            if dist[child].0 == DISTANCE_NONE {
                if should_traverse_edge(g, node, ei, pending) {
                    proof {
                        assert(g.is_out_edge(node as int, ei as int));
                        lemma_assign_child(*g, dist@, node as int, ei as int, child as int, d);
                    }
                    let ghost old_d = dist@;
                    let ghost old_q = queue@;
                    let ghost old_len = *visit_len;
                    dist.set(child, Distance(d));
                    proof {
                        lemma_queue_push(*g, old_d, dist@, queue@, *visit_len as int, child as int);
                        reveal(queue_ok);
                    }
                    queue.set(*visit_len, child as u32);
                    *visit_len = *visit_len + 1;
                    proof {
                        assert(g.is_out_edge(node as int, ei as int));
                        assert(old_d[child as int] == old(dist)@[child as int]);
                        assert forall|i: int| *old(visit_len) <= i < *visit_len implies {
                            let c = #[trigger] queue@[i] as int;
                            &&& 0 <= c < g.node_count()
                            &&& old(dist)@[c].0 == DISTANCE_NONE
                            &&& dist@[c].0 == d
                        } by {
                            if i < old_len {
                                assert(queue@[i] == old_q[i]);
                                let c = old_q[i] as int;
                                assert(c != child) by {
                                    assert(old_d[c].0 == d);
                                }
                            }
                        }
                        assert forall|v: int| 0 <= v < old(dist)@.len() && #[trigger] dist@[v] != old(dist)@[v] implies {
                            &&& old(dist)@[v].0 == DISTANCE_NONE
                            &&& dist@[v].0 == d
                            &&& exists|i: int| *old(visit_len) <= i < *visit_len && queue@[i] == v
                            &&& exists|e: int| #[trigger] g.is_out_edge(node as int, e) && g.edge_target(e) == v && g.edge_type(e)
                                != g.types.edge_weak && structural_edge(*g, node as int, e)
                        } by {
                            if v == child {
                                assert(queue@[old_len as int] == v);
                            } else {
                                assert(old_d[v] == dist@[v]);
                                let i = choose|i: int| *old(visit_len) <= i < old_len && old_q[i] == v;
                                assert(queue@[i] == v);
                            }
                        }
                        assert forall|i: int| 0 <= i < *old(visit_len) implies #[trigger] queue@[i] == old(queue)@[i] by {
                            assert(queue@[i] == old_q[i]);
                        }
                        assert forall|v: int|
                            0 <= v < old(dist)@.len() && old(dist)@[v].0 != DISTANCE_NONE implies #[trigger] dist@[v]
                                == old(dist)@[v] by {
                            assert(old_d[v] == old(dist)@[v]);
                        }
                    }
                }
            }
        }
        ei += 1;
    }
}

/// Breadth-first search from the nodes already queued.
fn bfs_with_filter(
    g: &Graph,
    dist: &mut Vec<Distance>,
    queue: &mut Vec<u32>,
    visit_len: &mut usize,
    pending: &mut ByteSet,
    Ghost(prev): Ghost<Seq<Distance>>,
)
    requires
        g.wf(),
        old(dist)@.len() == g.node_count(),
        distances_sound(*g, old(dist)@),
        queue_ok(*g, old(dist)@, old(queue)@, *old(visit_len) as int),
        closed_or_queued(*g, old(dist)@, old(queue)@, 0, *old(visit_len) as int),
        prev.len() == g.node_count(),
        keeps_assigned(prev, old(dist)@),
        walk_queued(*g, prev, old(dist)@, old(queue)@, *old(visit_len) as int),
        levels_ok(old(dist)@, old(queue)@, 0, *old(visit_len) as int),
    ensures
        forall|u: int|
            0 <= u < g.node_count() && prev[u].0 == DISTANCE_NONE && #[trigger] final(dist)@[u].0 != DISTANCE_NONE
                ==> walk_settled(*g, prev, final(dist)@, u),
        forall|v: int|
            0 <= v < g.node_count() && old(dist)@[v].0 == DISTANCE_NONE && #[trigger] final(dist)@[v].0 != DISTANCE_NONE
                ==> stepped(*g, final(dist)@, v),
        final(dist)@.len() == g.node_count(),
        final(queue)@.len() == g.node_count(),
        distances_sound(*g, final(dist)@),
        keeps_assigned(old(dist)@, final(dist)@),
        forall|v: int|
            0 <= v < g.node_count() && #[trigger] final(dist)@[v].0 != DISTANCE_NONE && v != g.root_ordinal ==> closed_at(
                *g,
                final(dist)@,
                v,
            ),
{
    let n = g.nodes.len();
    let mut index: usize = 0;
    while index < *visit_len
        invariant
            g.wf(),
            n == g.node_count(),
            dist@.len() == n,
            old(dist)@.len() == n,
            distances_sound(*g, dist@),
            keeps_assigned(old(dist)@, dist@),
            queue_ok(*g, dist@, queue@, *visit_len as int),
            index <= *visit_len,
            closed_or_queued(*g, dist@, queue@, index as int, *visit_len as int),
            prev.len() == n,
            keeps_assigned(prev, dist@),
            walk_queued(*g, prev, dist@, queue@, *visit_len as int),
            levels_ok(dist@, queue@, index as int, *visit_len as int),
            forall|i: int| 0 <= i < index ==> walk_settled(*g, prev, dist@, #[trigger] queue@[i] as int),
            forall|v: int|
                0 <= v < n && old(dist)@[v].0 == DISTANCE_NONE && #[trigger] dist@[v].0 != DISTANCE_NONE ==> stepped(*g, dist@, v),
        decreases n - index,
    {
        proof {
            lemma_count_assigned_bound(dist@);
        }
        proof {
            lemma_queue_entry(*g, dist@, queue@, *visit_len as int, index as int);
        }
        let node = queue[index] as usize;
        let ghost q0 = queue@;
        let ghost len0 = *visit_len as int;
        let ghost i0 = index as int;
        index += 1;
        let ghost before = dist@;
        relax_children(g, node, dist, queue, visit_len, pending);
        proof {
            lemma_relax_closes(*g, node as int, before, dist@, q0, queue@, i0, len0, *visit_len as int);
            reveal(distances_sound);
            lemma_count_assigned_bound(before);
            assert(before[node as int].0 < count_assigned(before));
            lemma_walk_step(*g, prev, before, dist@, q0, queue@, i0, len0, *visit_len as int, node as int);
            assert forall|v: int| 0 <= v < prev.len() && prev[v].0 != DISTANCE_NONE implies #[trigger] dist@[v] == prev[v] by {
                assert(before[v] == prev[v]);
            }
            assert forall|v: int|
                0 <= v < n && old(dist)@[v].0 == DISTANCE_NONE && #[trigger] dist@[v].0 != DISTANCE_NONE implies stepped(*g, dist@, v) by {
                if before[v].0 != DISTANCE_NONE {
                    lemma_stepped_kept(*g, before, dist@, v);
                }
            }
            assert forall|v: int|
                0 <= v < old(dist)@.len() && old(dist)@[v].0 != DISTANCE_NONE implies #[trigger] dist@[v]
                    == old(dist)@[v] by {
                assert(before[v] == old(dist)@[v]);
            }
        }
    }
    proof {
        reveal(queue_ok);
        assert forall|v: int|
            0 <= v < g.node_count() && #[trigger] dist@[v].0 != DISTANCE_NONE && v != g.root_ordinal implies closed_at(
                *g,
                dist@,
                v,
            ) by {
            if !closed_at(*g, dist@, v) {
                let j = choose|j: int| index <= j < *visit_len && queue@[j] as int == v;
            }
        }
        assert forall|u: int|
            0 <= u < g.node_count() && prev[u].0 == DISTANCE_NONE && #[trigger] dist@[u].0 != DISTANCE_NONE implies walk_settled(
                *g,
                prev,
                dist@,
                u,
            ) by {
            let j = choose|j: int| 0 <= j < *visit_len && queue@[j] as int == u;
            assert(walk_settled(*g, prev, dist@, queue@[j] as int));
        }
    }
}

proof fn lemma_set_root_zero(g: Graph, d: Seq<Distance>)
    requires
        g.wf(),
        d.len() == g.node_count(),
        distances_sound(g, d),
    ensures
        distances_sound(g, d.update(g.root_ordinal as int, Distance(0))),
        count_assigned(d) <= count_assigned(d.update(g.root_ordinal as int, Distance(0))),
        forall|v: int|
            0 <= v < d.len() && v != g.root_ordinal ==> #[trigger] d.update(
                g.root_ordinal as int,
                Distance(0),
            )[v] == d[v],
{
    reveal(distances_sound);
    let r = g.root_ordinal as int;
    let nd = d.update(r, Distance(0));
    lemma_count_assigned_update(d, r, Distance(0));
    assert forall|v: int|
        0 <= v < nd.len() && #[trigger] nd[v].0 != DISTANCE_NONE && v != g.gc_roots_ordinal && v
            != g.root_ordinal implies has_closer_retainer(g, nd, v) by {
        assert(d[v].0 != DISTANCE_NONE);
        assert(has_closer_retainer(g, d, v));
        let (u, f) = choose|u: int, f: int|
            0 <= u < g.node_count() && #[trigger] g.is_out_edge(u, f) && g.edge_target(f) == v
                && d[u].0 != DISTANCE_NONE && d[u].0 < d[v].0;
        assert(g.is_out_edge(u, f));
    }
    assert forall|v: int|
        0 <= v < nd.len() && #[trigger] nd[v].0 != DISTANCE_NONE implies nd[v].0 < count_assigned(nd) by {
        if v != r {
            assert(d[v].0 != DISTANCE_NONE);
        }
    }
}

proof fn lemma_initial_distances(g: Graph, d: Seq<Distance>)
    requires
        g.wf(),
        d.len() == g.node_count(),
        forall|v: int| 0 <= v < d.len() && v != g.gc_roots_ordinal ==> #[trigger] d[v].0 == DISTANCE_NONE,
        d[g.gc_roots_ordinal as int].0 == 0,
    ensures
        distances_sound(g, d),
        count_assigned(d) == 1,
{
    reveal(distances_sound);
    lemma_count_one(d, g.gc_roots_ordinal as int);
}

proof fn lemma_count_one(d: Seq<Distance>, k: int)
    requires
        0 <= k < d.len(),
        d[k].0 != DISTANCE_NONE,
        forall|v: int| 0 <= v < d.len() && v != k ==> #[trigger] d[v].0 == DISTANCE_NONE,
    ensures
        count_assigned(d) == 1,
    decreases d.len(),
{
    if k < d.len() - 1 {
        let e = d.drop_last();
        assert forall|v: int| 0 <= v < e.len() && v != k implies #[trigger] e[v].0 == DISTANCE_NONE by {
            assert(e[v] == d[v]);
        }
        lemma_count_one(e, k);
    } else {
        let e = d.drop_last();
        assert forall|v: int| 0 <= v < e.len() implies #[trigger] e[v].0 == DISTANCE_NONE by {
            assert(e[v] == d[v]);
        }
        lemma_count_zero(e);
    }
}

proof fn lemma_count_zero(d: Seq<Distance>)
    requires
        forall|v: int| 0 <= v < d.len() ==> #[trigger] d[v].0 == DISTANCE_NONE,
    ensures
        count_assigned(d) == 0,
    decreases d.len(),
{
    if d.len() > 0 {
        let e = d.drop_last();
        assert forall|v: int| 0 <= v < e.len() implies #[trigger] e[v].0 == DISTANCE_NONE by {
            assert(e[v] == d[v]);
        }
        lemma_count_zero(e);
    }
}

proof fn lemma_queue_empty(g: Graph, d: Seq<Distance>, q: Seq<u32>)
    requires
        q.len() == g.node_count(),
    ensures
        queue_ok(g, d, q, 0),
{
    reveal(queue_ok);
}

proof fn lemma_queue_single(g: Graph, d: Seq<Distance>, q: Seq<u32>)
    requires
        g.wf(),
        q.len() == g.node_count(),
        q[0] == g.gc_roots_ordinal,
        d[g.gc_roots_ordinal as int].0 != DISTANCE_NONE,
        count_assigned(d) >= 1,
    ensures
        queue_ok(g, d, q, 1),
{
    reveal(queue_ok);
}

/// No node has a distance.
pub open spec fn no_distances(n: nat) -> Seq<Distance> {
    Seq::new(n, |i: int| Distance(DISTANCE_NONE))
}

/// Node `v` is a child of the synthetic root that is not a user root.
pub open spec fn root_seeded(g: Graph, root_kinds: Seq<RootKind>, v: int) -> bool {
    exists|e: int| #[trigger] g.is_out_edge(g.root_ordinal as int, e) && g.edge_target(e) == v && root_kinds[v] != RootKind::UserRoot
}

/// The two breadth-first walks that give the distances `d`, where `first`
/// is what the walk from the GC roots gave:
/// - in `first`, the GC roots are at 0, every other node with a distance is
///   one step beyond a node with one, and every edge that is always
///   followed leads from a node with a distance to a node at most one step
///   beyond it;
/// - `d` keeps those distances, puts the synthetic root at 0 and the
///   children of the synthetic root that are not user roots and had none at
///   1; every other node it adds is one step beyond a node with a distance,
///   and every edge that is always followed from a node it added leads to a
///   node with a distance, at most one step beyond if that node was added
///   too.
#[verifier::opaque]
pub open spec fn distance_walks(g: Graph, root_kinds: Seq<RootKind>, first: Seq<Distance>, d: Seq<Distance>) -> bool {
    let n = g.node_count();
    let root = g.root_ordinal as int;
    let second = first.update(root, Distance(0));
    &&& first.len() == n
    &&& first[g.gc_roots_ordinal as int].0 == 0
    &&& forall|v: int| 0 <= v < n && #[trigger] first[v].0 != DISTANCE_NONE && v != g.gc_roots_ordinal ==> stepped(g, first, v)
    &&& forall|u: int| 0 <= u < n && #[trigger] first[u].0 != DISTANCE_NONE ==> walk_settled(g, no_distances(n), first, u)
    &&& d[root].0 == 0
    &&& forall|v: int| 0 <= v < n && v != root && #[trigger] first[v].0 != DISTANCE_NONE ==> d[v] == first[v]
    &&& forall|e: int|
        #[trigger] g.is_out_edge(root, e) && root_kinds[g.edge_target(e)] != RootKind::UserRoot && second[g.edge_target(e)].0
            == DISTANCE_NONE ==> d[g.edge_target(e)].0 == 1
    &&& forall|v: int|
        0 <= v < n && second[v].0 == DISTANCE_NONE && #[trigger] d[v].0 != DISTANCE_NONE ==> stepped(g, d, v) || (d[v].0 == 1
            && root_seeded(g, root_kinds, v))
    &&& forall|u: int| 0 <= u < n && second[u].0 == DISTANCE_NONE && #[trigger] d[u].0 != DISTANCE_NONE ==> walk_settled(g, second, d, u)
}

/// Distances from the GC roots (breadth-first over edges that are not weak
/// and that the reachability filter lets through), then from the synthetic
/// root through its children that are not user roots. Nodes neither
/// reaches keep `DISTANCE_NONE`: every node with a distance but the two
/// roots has a closer retainer, and from every node with a distance but the
/// synthetic root each edge that is always followed leads to a node with
/// one. See `distance_walks` for the two walks.
pub fn calculate_distances(g: &Graph, root_kinds: &Vec<RootKind>) -> (d: Vec<Distance>)
    requires
        g.wf(),
        root_kinds@.len() == g.node_count(),
    ensures
        d@.len() == g.node_count(),
        distances_sound(*g, d@),
        d@[g.root_ordinal as int].0 == 0,
        forall|v: int|
            0 <= v < g.node_count() && #[trigger] d@[v].0 != DISTANCE_NONE && v != g.root_ordinal ==> closed_at(*g, d@, v),
        forall|e: int|
            #[trigger] g.is_out_edge(g.root_ordinal as int, e) && root_kinds@[g.edge_target(e)] != RootKind::UserRoot
                ==> d@[g.edge_target(e)].0 != DISTANCE_NONE,
        exists|first: Seq<Distance>| #[trigger] distance_walks(*g, root_kinds@, first, d@),
{
    let n = g.nodes.len();
    let mut dist: Vec<Distance> = vec![Distance(DISTANCE_NONE); n];
    let mut queue: Vec<u32> = vec![0u32; n];
    let mut pending = byte_set_new();
    let gc = g.gc_roots_ordinal;
    let ghost prev0 = dist@;
    assert(prev0 =~= no_distances(n as nat));
    dist.set(gc, Distance(0));
    queue.set(0, gc as u32);
    let mut visit_len: usize = 1;
    proof {
        lemma_initial_distances(*g, dist@);
        lemma_queue_single(*g, dist@, queue@);
        assert forall|v: int|
            0 <= v < dist@.len() && #[trigger] dist@[v].0 != DISTANCE_NONE && v != g.root_ordinal implies closed_at(
                *g,
                dist@,
                v,
            ) || in_queue(queue@, 0, 1, v) by {
            assert(v == gc);
            assert(queue@[0] as int == v);
        }
        assert((gc as u32) as int == gc as int);
        assert forall|v: int|
            0 <= v < g.node_count() && prev0[v].0 == DISTANCE_NONE && #[trigger] dist@[v].0 != DISTANCE_NONE implies exists|j: int|
                0 <= j < 1 && queue@[j] as int == v by {
            assert(v == gc);
            assert(queue@[0] as int == v);
        }
        assert(walk_queued(*g, prev0, dist@, queue@, 1));
        assert(levels_ok(dist@, queue@, 0, 1));
    }
    let ghost d_start = dist@;
    bfs_with_filter(g, &mut dist, &mut queue, &mut visit_len, &mut pending, Ghost(prev0));
    let root = g.root_ordinal;
    proof {
        lemma_set_root_zero(*g, dist@);
    }
    let ghost first = dist@;
    proof {
        assert forall|v: int| 0 <= v < n && #[trigger] first[v].0 != DISTANCE_NONE && v != g.gc_roots_ordinal implies stepped(*g, first, v) by {
            assert(d_start[v].0 == DISTANCE_NONE);
        }
        assert forall|u: int| 0 <= u < n && #[trigger] first[u].0 != DISTANCE_NONE implies walk_settled(*g, no_distances(n as nat), first, u) by {
            assert(prev0[u].0 == DISTANCE_NONE);
        }
    }
    dist.set(root, Distance(0));
    visit_len = 0;
    let ghost prev1 = dist@;
    proof {
        lemma_queue_empty(*g, dist@, queue@);
        assert forall|v: int|
            0 <= v < dist@.len() && #[trigger] dist@[v].0 != DISTANCE_NONE && v != g.root_ordinal implies closed_at(
                *g,
                dist@,
                v,
            ) || in_queue(queue@, 0, 0, v) by {
            assert(first[v].0 != DISTANCE_NONE);
            assert(closed_at(*g, first, v));
            assert forall|e: int| #[trigger] g.is_out_edge(v, e) && always_followed(*g, v, e) implies dist@[g.edge_target(e)].0
                != DISTANCE_NONE by {
                assert(g.edge_target(e) < g.node_count());
                if g.edge_target(e) != root {
                    assert(dist@[g.edge_target(e)] == first[g.edge_target(e)]);
                }
            }
        }
    }
    let (first_edge, last) = g.node_edge_range(root);
    let mut ei = first_edge;
    while ei < last
        invariant
            g.wf(),
            n == g.node_count(),
            root == g.root_ordinal,
            root_kinds@.len() == n,
            first_edge == g.edge_begin(root as int),
            last == g.edge_end(root as int),
            last <= g.edge_count(),
            first_edge <= ei <= last,
            dist@.len() == n,
            dist@[root as int].0 == 0,
            distances_sound(*g, dist@),
            queue_ok(*g, dist@, queue@, visit_len as int),
            closed_or_queued(*g, dist@, queue@, 0, visit_len as int),
            forall|e: int|
                first_edge <= e < ei && #[trigger] g.is_out_edge(root as int, e) && root_kinds@[g.edge_target(e)]
                    != RootKind::UserRoot ==> dist@[g.edge_target(e)].0 != DISTANCE_NONE,
            prev1.len() == n,
            prev1[root as int].0 == 0,
            keeps_assigned(prev1, dist@),
            walk_queued(*g, prev1, dist@, queue@, visit_len as int),
            forall|j: int| 0 <= j < visit_len ==> dist@[#[trigger] queue@[j] as int].0 == 1,
            forall|v: int|
                0 <= v < n && prev1[v].0 == DISTANCE_NONE && #[trigger] dist@[v].0 != DISTANCE_NONE ==> dist@[v].0 == 1
                    && root_seeded(*g, root_kinds@, v),
            forall|e: int|
                first_edge <= e < ei && #[trigger] g.is_out_edge(root as int, e) && root_kinds@[g.edge_target(e)]
                    != RootKind::UserRoot && prev1[g.edge_target(e)].0 == DISTANCE_NONE ==> dist@[g.edge_target(e)].0 == 1,
        decreases last - ei,
    {
        let child = g.edge_to_node(ei);
        let ghost d0 = dist@;
        let ghost q0 = queue@;
        if dist[child].0 == DISTANCE_NONE && root_kinds[child] != RootKind::UserRoot {
            proof {
                assert(g.is_out_edge(root as int, ei as int));
                lemma_assign_child(*g, dist@, root as int, ei as int, child as int, 1);
            }
            let ghost old_d = dist@;
            dist.set(child, Distance(1));
            proof {
                lemma_queue_push(*g, old_d, dist@, queue@, visit_len as int, child as int);
            }
            queue.set(visit_len, child as u32);
            proof {
                assert((child as u32) as int == child as int);
                assert forall|v: int|
                    0 <= v < dist@.len() && #[trigger] dist@[v].0 != DISTANCE_NONE && v != g.root_ordinal implies closed_at(
                        *g,
                        dist@,
                        v,
                    ) || in_queue(queue@, 0, visit_len + 1, v) by {
                    if v == child {
                        assert(queue@[visit_len as int] as int == v);
                    } else {
                        assert(d0[v].0 != DISTANCE_NONE);
                        if closed_at(*g, d0, v) {
                            lemma_closed_kept(*g, d0, dist@, v);
                        } else {
                            let j = choose|j: int| 0 <= j < visit_len && q0[j] as int == v;
                            assert(queue@[j] == q0[j]);
                        }
                    }
                }
                assert(prev1[child as int].0 == DISTANCE_NONE) by {
                    if prev1[child as int].0 != DISTANCE_NONE {
                        assert(d0[child as int] == prev1[child as int]);
                    }
                }
                assert(root_seeded(*g, root_kinds@, child as int)) by {
                    assert(g.is_out_edge(root as int, ei as int) && g.edge_target(ei as int) == child);
                }
                assert forall|j: int| 0 <= j < visit_len + 1 implies #[trigger] queue@[j] < g.node_count() && prev1[queue@[j] as int].0
                    == DISTANCE_NONE && dist@[queue@[j] as int].0 != DISTANCE_NONE by {
                    if j < visit_len {
                        assert(queue@[j] == q0[j]);
                    }
                }
                assert forall|v: int|
                    0 <= v < g.node_count() && prev1[v].0 == DISTANCE_NONE && #[trigger] dist@[v].0 != DISTANCE_NONE implies exists|j: int|
                        0 <= j < visit_len + 1 && queue@[j] as int == v by {
                    if v == child {
                        assert(queue@[visit_len as int] as int == v);
                    } else {
                        assert(d0[v] == dist@[v]);
                        let j = choose|j: int| 0 <= j < visit_len && q0[j] as int == v;
                        assert(queue@[j] == q0[j]);
                    }
                }
                assert forall|j: int| 0 <= j < visit_len + 1 implies dist@[#[trigger] queue@[j] as int].0 == 1 by {
                    if j < visit_len {
                        assert(queue@[j] == q0[j]);
                        assert(d0[q0[j] as int].0 == 1);
                    }
                }
                assert forall|v: int|
                    0 <= v < n && prev1[v].0 == DISTANCE_NONE && #[trigger] dist@[v].0 != DISTANCE_NONE implies dist@[v].0 == 1
                        && root_seeded(*g, root_kinds@, v) by {
                    if v != child {
                        assert(d0[v] == dist@[v]);
                    }
                }
                assert forall|v: int| 0 <= v < prev1.len() && prev1[v].0 != DISTANCE_NONE implies #[trigger] dist@[v] == prev1[v] by {
                    assert(d0[v] == prev1[v]);
                }
            }
            visit_len = visit_len + 1;
        }
        proof {
            assert forall|e: int|
                first_edge <= e < ei + 1 && #[trigger] g.is_out_edge(root as int, e) && root_kinds@[g.edge_target(e)]
                    != RootKind::UserRoot implies dist@[g.edge_target(e)].0 != DISTANCE_NONE by {
                assert(g.edge_target(e) < n);
                if e < ei {
                    assert(d0[g.edge_target(e)].0 != DISTANCE_NONE);
                }
            }
            assert forall|e: int|
                first_edge <= e < ei + 1 && #[trigger] g.is_out_edge(root as int, e) && root_kinds@[g.edge_target(e)]
                    != RootKind::UserRoot && prev1[g.edge_target(e)].0 == DISTANCE_NONE implies dist@[g.edge_target(e)].0 == 1 by {
                let t = g.edge_target(e);
                assert(t < n);
                if e < ei {
                    assert(d0[t].0 == 1);
                } else {
                    assert(dist@[t].0 != DISTANCE_NONE);
                }
            }
        }
        ei += 1;
    }
    proof {
        assert(levels_ok(dist@, queue@, 0, visit_len as int)) by {
            assert forall|i: int, j: int| #![trigger queue@[i], queue@[j]] 0 <= i <= j < visit_len implies dist@[queue@[i] as int].0
                <= dist@[queue@[j] as int].0 by {
                assert(dist@[queue@[i] as int].0 == 1);
                assert(dist@[queue@[j] as int].0 == 1);
            }
            if 0 < visit_len {
                assert(dist@[queue@[visit_len - 1] as int].0 == 1);
                assert(dist@[queue@[0] as int].0 == 1);
            }
        }
    }
    let ghost d_mid = dist@;
    if visit_len > 0 {
        let ghost before = dist@;
        bfs_with_filter(g, &mut dist, &mut queue, &mut visit_len, &mut pending, Ghost(prev1));
        assert(dist@[root as int] == before[root as int]);
        proof {
            assert forall|e: int|
                #[trigger] g.is_out_edge(g.root_ordinal as int, e) && root_kinds@[g.edge_target(e)] != RootKind::UserRoot
                    implies dist@[g.edge_target(e)].0 != DISTANCE_NONE by {
                assert(g.edge_target(e) < n);
                assert(before[g.edge_target(e)].0 != DISTANCE_NONE);
            }
        }
    } else {
        proof {
            assert forall|v: int|
                0 <= v < g.node_count() && #[trigger] dist@[v].0 != DISTANCE_NONE && v != g.root_ordinal implies closed_at(
                    *g,
                    dist@,
                    v,
                ) by {
                if !closed_at(*g, dist@, v) {
                    let j = choose|j: int| 0 <= j < visit_len && queue@[j] as int == v;
                }
            }
            assert forall|u: int|
                0 <= u < n && prev1[u].0 == DISTANCE_NONE && #[trigger] dist@[u].0 != DISTANCE_NONE implies walk_settled(*g, prev1, dist@, u) by {
                let j = choose|j: int| 0 <= j < visit_len && queue@[j] as int == u;
            }
        }
    }
    proof {
        let d = dist@;
        assert(prev1 == first.update(root as int, Distance(0)));
        assert forall|v: int| 0 <= v < n && v != root && #[trigger] first[v].0 != DISTANCE_NONE implies d[v] == first[v] by {
            assert(prev1[v] == first[v]);
        }
        assert forall|e: int|
            #[trigger] g.is_out_edge(root as int, e) && root_kinds@[g.edge_target(e)] != RootKind::UserRoot && prev1[g.edge_target(e)].0
                == DISTANCE_NONE implies d[g.edge_target(e)].0 == 1 by {
            assert(g.edge_target(e) < n);
            assert(d_mid[g.edge_target(e)].0 == 1);
        }
        assert forall|v: int|
            0 <= v < n && prev1[v].0 == DISTANCE_NONE && #[trigger] d[v].0 != DISTANCE_NONE implies stepped(*g, d, v) || (d[v].0 == 1
                && root_seeded(*g, root_kinds@, v)) by {
            if d_mid[v].0 != DISTANCE_NONE {
                assert(d[v] == d_mid[v]);
            }
        }
        reveal(distance_walks);
        assert(distance_walks(*g, root_kinds@, first, d));
    }
    dist
}

} // verus!
