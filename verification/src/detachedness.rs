use vstd::prelude::*;
use crate::graph::Graph;
use crate::types::Detachedness;
use crate::reach::{should_traverse_edge, structural_edge, maybe_paired_edge};
use crate::fxcoll::byte_set_new;
use crate::reach_size::{count_marked, lemma_count_marked_bound, lemma_count_marked_set, lemma_count_marked_zero, includes, marks_starts};

verus! {

/// The DOM state a node records: 1 attached, 2 detached, anything else
/// unknown.
pub open spec fn decode_detachedness(raw: u32) -> Detachedness {
    if raw == 1 {
        Detachedness::Attached
    } else if raw == 2 {
        Detachedness::Detached
    } else {
        Detachedness::Unknown
    }
}

fn decode(raw: u32) -> (r: Detachedness)
    ensures
        r == decode_detachedness(raw),
{
    if raw == 1 {
        Detachedness::Attached
    } else if raw == 2 {
        Detachedness::Detached
    } else {
        Detachedness::Unknown
    }
}

/// Edges that carry a DOM state: neither weak nor invisible.
pub open spec fn dom_edge(g: Graph, e: int) -> bool {
    g.edge_type(e) != g.types.edge_weak && g.edge_type(e) != g.types.edge_invisible
}

/// Node `u` is one of the entries of `s`.
pub open spec fn listed(s: Seq<usize>, u: int) -> bool {
    exists|i: int| 0 <= i < s.len() && s[i] as int == u
}

/// Node `u` passes a state on: it is a start node, or `marks` marks it and
/// `base` does not.
pub open spec fn passes_on(starts: Seq<usize>, base: Seq<bool>, marks: Seq<bool>, u: int) -> bool {
    listed(starts, u) || (marks[u] && !base[u])
}

/// Every DOM edge of a node that passes a state on leads to a node that
/// `marks` marks.
pub open spec fn closed_for_spread(g: Graph, starts: Seq<usize>, base: Seq<bool>, marks: Seq<bool>) -> bool {
    forall|u: int, e: int|
        0 <= u < g.node_count() && passes_on(starts, base, marks, u) && #[trigger] g.is_out_edge(u, e) && dom_edge(g, e)
            ==> marks[g.edge_target(e)]
}

/// `vis1` and `det1` are what spreading `state` from `starts` over DOM
/// edges makes of `vis0` and `det0`: the nodes newly marked are exactly
/// those that the start nodes reach through nodes not marked in `vis0`,
/// and they, and no others, take `state`.
pub open spec fn spread_ok(
    g: Graph,
    starts: Seq<usize>,
    vis0: Seq<bool>,
    vis1: Seq<bool>,
    det0: Seq<Detachedness>,
    det1: Seq<Detachedness>,
    state: Detachedness,
) -> bool {
    &&& vis1.len() == g.node_count()
    &&& det1.len() == g.node_count()
    &&& includes(vis1, vis0)
    &&& closed_for_spread(g, starts, vis0, vis1)
    &&& forall|m: Seq<bool>|
        m.len() == g.node_count() && includes(m, vis0) && closed_for_spread(g, starts, vis0, m)
            ==> #[trigger] includes(m, vis1)
    &&& forall|v: int| 0 <= v < g.node_count() ==> #[trigger] det1[v] == if vis1[v] && !vis0[v] {
        state
    } else {
        det0[v]
    }
}

/// Spreads `state` from the nodes on `stack` to every node they reach over
/// DOM edges that is not yet visited, depth first.
fn spread_state(
    g: &Graph,
    stack: &mut Vec<usize>,
    visited: &mut Vec<bool>,
    det: &mut Vec<Detachedness>,
    state: Detachedness,
)
    requires
        g.wf(),
        old(visited)@.len() == g.node_count(),
        old(det)@.len() == g.node_count(),
        forall|i: int| 0 <= i < old(stack)@.len() ==> #[trigger] old(stack)@[i] < g.node_count(),
        forall|i: int| 0 <= i < old(stack)@.len() ==> old(visited)@[#[trigger] old(stack)@[i] as int],
    ensures
        spread_ok(*g, old(stack)@, old(visited)@, final(visited)@, old(det)@, final(det)@, state),
{
    let n = g.nodes.len();
    let ghost vis0 = visited@;
    let ghost det0 = det@;
    let ghost starts = stack@;
    proof {
        assert forall|m: Seq<bool>|
            m.len() == g.node_count() && includes(m, vis0) && closed_for_spread(*g, starts, vis0, m)
                implies #[trigger] includes(m, visited@) by {
        }
        assert forall|u: int| 0 <= u < n && passes_on(starts, vis0, visited@, u) implies listed(stack@, u) by {
        }
    }
    while stack.len() > 0
        invariant
            g.wf(),
            n == g.node_count(),
            visited@.len() == n,
            det@.len() == n,
            vis0.len() == n,
            det0.len() == n,
            forall|i: int| 0 <= i < starts.len() ==> #[trigger] starts[i] < n,
            forall|i: int| 0 <= i < starts.len() ==> vis0[#[trigger] starts[i] as int],
            forall|i: int| 0 <= i < stack@.len() ==> #[trigger] stack@[i] < n,
            forall|i: int| 0 <= i < stack@.len() ==> passes_on(starts, vis0, visited@, #[trigger] stack@[i] as int),
            includes(visited@, vis0),
            forall|v: int| 0 <= v < n ==> #[trigger] det@[v] == if visited@[v] && !vis0[v] {
                state
            } else {
                det0[v]
            },
            forall|u: int|
                0 <= u < n && passes_on(starts, vis0, visited@, u) && !listed(stack@, u) ==> forall|e: int|
                    #[trigger] g.is_out_edge(u, e) && dom_edge(*g, e) ==> visited@[g.edge_target(e)],
            forall|m: Seq<bool>|
                m.len() == g.node_count() && includes(m, vis0) && closed_for_spread(*g, starts, vis0, m)
                    ==> #[trigger] includes(m, visited@),
        decreases n - count_marked(visited@), stack@.len(),
    {
        proof {
            crate::reach_size::lemma_count_marked_le(visited@);
        }
        let ghost count_before = count_marked(visited@);
        let ghost stack_before = stack@;
        let u = stack.pop().unwrap();
        proof {
            assert(stack_before[stack_before.len() - 1] == u);
            assert(stack@ =~= stack_before.drop_last());
        }
        let ghost len_after_pop = stack@.len();
        let ghost vis_popped = visited@;
        proof {
            assert forall|w: int|
                0 <= w < n && passes_on(starts, vis0, visited@, w) && !listed(stack@, w) && w != u implies forall|f: int|
                    #[trigger] g.is_out_edge(w, f) && dom_edge(*g, f) ==> visited@[g.edge_target(f)] by {
                if listed(stack_before, w) {
                    let i = choose|i: int| 0 <= i < stack_before.len() && stack_before[i] as int == w;
                    if i < stack_before.len() - 1 {
                        assert(stack@[i] == stack_before[i]);
                    }
                }
            }
            assert forall|i: int| 0 <= i < stack@.len() implies passes_on(starts, vis0, visited@, #[trigger] stack@[i] as int) by {
                assert(stack@[i] == stack_before[i]);
            }
            assert(passes_on(starts, vis0, visited@, stack_before[stack_before.len() - 1] as int));
        }
        let (first, last) = g.node_edge_range(u);
        let mut e = first;
        let mut pushed: bool = false;
        while e < last
            invariant
                g.wf(),
                n == g.node_count(),
                u < n,
                passes_on(starts, vis0, visited@, u as int),
                first == g.edge_begin(u as int),
                last == g.edge_end(u as int),
                first <= e <= last,
                last <= g.edge_count(),
                visited@.len() == n,
                det@.len() == n,
                vis0.len() == n,
                vis_popped.len() == n,
                includes(visited@, vis_popped),
                forall|i: int| 0 <= i < starts.len() ==> #[trigger] starts[i] < n,
                forall|i: int| 0 <= i < starts.len() ==> vis0[#[trigger] starts[i] as int],
                forall|i: int| 0 <= i < stack@.len() ==> #[trigger] stack@[i] < n,
                forall|i: int| 0 <= i < stack@.len() ==> passes_on(starts, vis0, visited@, #[trigger] stack@[i] as int),
                includes(visited@, vis0),
                forall|v: int| 0 <= v < n ==> #[trigger] det@[v] == if visited@[v] && !vis0[v] {
                    state
                } else {
                    det0[v]
                },
                forall|w: int|
                    0 <= w < n && passes_on(starts, vis0, visited@, w) && !listed(stack@, w) && w != u ==> forall|f: int|
                        #[trigger] g.is_out_edge(w, f) && dom_edge(*g, f) ==> visited@[g.edge_target(f)],
                forall|f: int| first <= f < e && dom_edge(*g, f) ==> visited@[#[trigger] g.edge_target(f)],
                forall|m: Seq<bool>|
                    m.len() == g.node_count() && includes(m, vis0) && closed_for_spread(*g, starts, vis0, m)
                        ==> #[trigger] includes(m, visited@),
                count_marked(visited@) <= n,
                pushed ==> count_marked(visited@) > count_before,
                !pushed ==> count_marked(visited@) == count_before,
                !pushed ==> stack@.len() == len_after_pop,
            decreases last - e,
        {
            let t = g.edge_type_raw(e);
            if t != g.types.edge_weak && t != g.types.edge_invisible {
                let c = g.edge_to_node(e);
                if !visited[c] {
                    proof {
                        lemma_count_marked_set(visited@, c as int);
                        lemma_count_marked_bound(visited@, c as int);
                    }
                    let ghost vb = visited@;
                    let ghost db = det@;
                    let ghost sb = stack@;
                    visited.set(c, true);
                    det.set(c, state);
                    stack.push(c);
                    pushed = true;
                    proof {
                        assert(!vis0[c as int]);
                        assert forall|v: int| 0 <= v < vis0.len() && #[trigger] vis0[v] implies visited@[v] by {
                            assert(vb[v]);
                        }
                        assert forall|v: int| 0 <= v < vis_popped.len() && #[trigger] vis_popped[v] implies visited@[v] by {
                            assert(vb[v]);
                        }
                        assert forall|v: int| 0 <= v < n implies #[trigger] det@[v] == if visited@[v] && !vis0[v] {
                            state
                        } else {
                            det0[v]
                        } by {
                            if v != c {
                                assert(db[v] == det@[v]);
                                assert(vb[v] == visited@[v]);
                            }
                        }
                        assert forall|i: int| 0 <= i < stack@.len() implies passes_on(starts, vis0, visited@, #[trigger] stack@[i] as int) by {
                            if i < sb.len() {
                                assert(stack@[i] == sb[i]);
                                assert(passes_on(starts, vis0, vb, sb[i] as int));
                            } else {
                                assert(stack@[i] == c);
                            }
                        }
                        assert forall|w: int|
                            0 <= w < n && passes_on(starts, vis0, visited@, w) && !listed(stack@, w) && w != u implies forall|f: int|
                                #[trigger] g.is_out_edge(w, f) && dom_edge(*g, f) ==> visited@[g.edge_target(f)] by {
                            if w == c {
                                assert(stack@[stack@.len() - 1] == c);
                            } else {
                                assert(passes_on(starts, vis0, vb, w));
                                if listed(sb, w) {
                                    let i = choose|i: int| 0 <= i < sb.len() && sb[i] as int == w;
                                    assert(stack@[i] == sb[i]);
                                }
                                assert forall|f: int| #[trigger] g.is_out_edge(w, f) && dom_edge(*g, f) implies visited@[g.edge_target(f)] by {
                                    assert(vb[g.edge_target(f)]);
                                }
                            }
                        }
                        assert forall|m: Seq<bool>|
                            m.len() == g.node_count() && includes(m, vis0) && closed_for_spread(*g, starts, vis0, m)
                                implies #[trigger] includes(m, visited@) by {
                            assert(includes(m, vb));
                            assert(g.is_out_edge(u as int, e as int));
                            if !listed(starts, u as int) {
                                assert(vb[u as int] && !vis0[u as int]);
                                assert(m[u as int]);
                            }
                            assert(passes_on(starts, vis0, m, u as int));
                        }
                        crate::reach_size::lemma_count_marked_le(visited@);
                    }
                }
            }
            e += 1;
        }
        proof {
            assert forall|w: int|
                0 <= w < n && passes_on(starts, vis0, visited@, w) && !listed(stack@, w) implies forall|f: int|
                    #[trigger] g.is_out_edge(w, f) && dom_edge(*g, f) ==> visited@[g.edge_target(f)] by {
                if w == u as int {
                    assert forall|f: int| #[trigger] g.is_out_edge(w, f) && dom_edge(*g, f) implies visited@[g.edge_target(f)] by {
                        assert(first <= f < last);
                    }
                }
            }
        }
    }
    proof {
        assert forall|u: int, e: int|
            0 <= u < g.node_count() && passes_on(starts, vis0, visited@, u) && #[trigger] g.is_out_edge(u, e) && dom_edge(*g, e)
                implies visited@[g.edge_target(e)] by {
            assert(!listed(stack@, u));
        }
    }
}

/// Node `v` is a native node that records state `s`.
pub open spec fn is_seed(g: Graph, v: int, s: Detachedness) -> bool {
    g.node_type(v) == g.types.node_native && decode_detachedness(g.nodes@[v].detachedness) == s
}

/// The native nodes that record a known state, marked by ordinal.
pub open spec fn seed_marks(g: Graph) -> Seq<bool> {
    Seq::new(g.node_count(), |v: int| is_seed(g, v, Detachedness::Attached) || is_seed(g, v, Detachedness::Detached))
}

/// The state each node records.
pub open spec fn recorded_states(g: Graph) -> Seq<Detachedness> {
    Seq::new(g.node_count(), |v: int| decode_detachedness(g.nodes@[v].detachedness))
}

/// `starts` lists exactly the native nodes that record state `s`.
pub open spec fn seeds_are(g: Graph, starts: Seq<usize>, s: Detachedness) -> bool {
    forall|u: int| 0 <= u < g.node_count() ==> (listed(starts, u) <==> #[trigger] is_seed(g, u, s))
}

/// `det1` is `det0` with every node that the roots reach, but no longer
/// reach when the edges of detached nodes are not walked, made Detached.
pub open spec fn retained_by_detached_ok(g: Graph, roots: Seq<usize>, det0: Seq<Detachedness>, det1: Seq<Detachedness>) -> bool {
    exists|normal: Seq<bool>, without: Seq<bool>| {
        &&& #[trigger] walk_ok(g, roots, det0, false, normal)
        &&& #[trigger] walk_ok(g, roots, det0, true, without)
        &&& det1.len() == g.node_count()
        &&& forall|v: int| 0 <= v < g.node_count() ==> #[trigger] det1[v] == if normal[v] && !without[v] {
            Detachedness::Detached
        } else {
            det0[v]
        }
    }
}

/// The DOM states of all nodes: Unknown for all when the snapshot has no
/// detachedness field; otherwise the recorded states, with Attached spread
/// from the attached native nodes, then Detached from the detached ones,
/// over DOM edges to nodes that no earlier step reached, and then Detached
/// for every node that the roots reach only through a detached node.
pub open spec fn detachedness_ok(g: Graph, roots: Seq<usize>, r: Seq<Detachedness>) -> bool {
    if !g.has_detachedness {
        r.len() == g.node_count() && forall|v: int| 0 <= v < g.node_count() ==> #[trigger] r[v] == Detachedness::Unknown
    } else {
        exists|a: Seq<usize>, d: Seq<usize>, vis1: Seq<bool>, det1: Seq<Detachedness>, vis2: Seq<bool>, det2: Seq<Detachedness>| {
            &&& seeds_are(g, a, Detachedness::Attached)
            &&& seeds_are(g, d, Detachedness::Detached)
            &&& #[trigger] spread_ok(g, a, seed_marks(g), vis1, recorded_states(g), det1, Detachedness::Attached)
            &&& #[trigger] spread_ok(g, d, vis1, vis2, det1, det2, Detachedness::Detached)
            &&& retained_by_detached_ok(g, roots, det2, r)
        }
    }
}

/// The DOM state of every node: Unknown for all when the snapshot has no
/// detachedness field; otherwise the recorded state of native nodes spread
/// (attached first, then detached) over DOM edges to nodes without one,
/// and Detached for every node that the system roots reach only through a
/// detached node.
pub fn compute_detachedness(g: &Graph, system_roots: &Vec<usize>) -> (r: Vec<Detachedness>)
    requires
        g.wf(),
        forall|i: int| 0 <= i < system_roots@.len() ==> #[trigger] system_roots@[i] < g.node_count(),
    ensures
        r@.len() == g.node_count(),
        detachedness_ok(*g, system_roots@, r@),
        g.has_detachedness ==> forall|v: int|
            0 <= v < g.node_count() && is_seed(*g, v, Detachedness::Detached) ==> #[trigger] r@[v] == Detachedness::Detached,
{
    let n = g.nodes.len();
    let mut det: Vec<Detachedness> = vec![Detachedness::Unknown; n];
    if !g.has_detachedness {
        return det;
    }
    let mut visited: Vec<bool> = vec![false; n];
    let mut attached: Vec<usize> = Vec::new();
    let mut detached: Vec<usize> = Vec::new();
    let mut v: usize = 0;
    while v < n
        invariant
            g.wf(),
            n == g.node_count(),
            v <= n,
            det@.len() == n,
            visited@.len() == n,
            forall|i: int| 0 <= i < attached@.len() ==> #[trigger] attached@[i] < v,
            forall|i: int| 0 <= i < detached@.len() ==> #[trigger] detached@[i] < v,
            forall|i: int| 0 <= i < attached@.len() ==> visited@[#[trigger] attached@[i] as int],
            forall|i: int| 0 <= i < detached@.len() ==> visited@[#[trigger] detached@[i] as int],
            forall|u: int| 0 <= u < v ==> #[trigger] det@[u] == decode_detachedness(g.nodes@[u].detachedness),
            forall|u: int| 0 <= u < v ==> #[trigger] visited@[u] == seed_marks(*g)[u],
            forall|u: int| v <= u < n ==> !#[trigger] visited@[u],
            forall|u: int| 0 <= u < v ==> (listed(attached@, u) <==> #[trigger] is_seed(*g, u, Detachedness::Attached)),
            forall|u: int| 0 <= u < v ==> (listed(detached@, u) <==> #[trigger] is_seed(*g, u, Detachedness::Detached)),
        decreases n - v,
    {
        let d = decode(g.nodes[v].detachedness);
        let ghost a0 = attached@;
        let ghost d0 = detached@;
        det.set(v, d);
        if g.node_type_raw(v) == g.types.node_native {
            if d == Detachedness::Attached {
                attached.push(v);
                visited.set(v, true);
            } else if d == Detachedness::Detached {
                detached.push(v);
                visited.set(v, true);
            }
        }
        proof {
            assert forall|u: int| 0 <= u < v + 1 implies (listed(attached@, u) <==> #[trigger] is_seed(*g, u, Detachedness::Attached)) by {
                if listed(attached@, u) {
                    let i = choose|i: int| 0 <= i < attached@.len() && attached@[i] as int == u;
                    if i < a0.len() {
                        assert(listed(a0, u));
                    }
                }
                if u < v && listed(a0, u) {
                    let i = choose|i: int| 0 <= i < a0.len() && a0[i] as int == u;
                    assert(attached@[i] == a0[i]);
                }
                if u == v && is_seed(*g, u, Detachedness::Attached) {
                    assert(attached@[attached@.len() - 1] == v);
                }
                if u == v && listed(a0, u) {
                    let i = choose|i: int| 0 <= i < a0.len() && a0[i] as int == u;
                    assert(a0[i] < v);
                }
            }
            assert forall|u: int| 0 <= u < v + 1 implies (listed(detached@, u) <==> #[trigger] is_seed(*g, u, Detachedness::Detached)) by {
                if listed(detached@, u) {
                    let i = choose|i: int| 0 <= i < detached@.len() && detached@[i] as int == u;
                    if i < d0.len() {
                        assert(listed(d0, u));
                    }
                }
                if u < v && listed(d0, u) {
                    let i = choose|i: int| 0 <= i < d0.len() && d0[i] as int == u;
                    assert(detached@[i] == d0[i]);
                }
                if u == v && is_seed(*g, u, Detachedness::Detached) {
                    assert(detached@[detached@.len() - 1] == v);
                }
                if u == v && listed(d0, u) {
                    let i = choose|i: int| 0 <= i < d0.len() && d0[i] as int == u;
                    assert(d0[i] < v);
                }
            }
        }
        v += 1;
    }
    proof {
        assert(det@ =~= recorded_states(*g));
        assert(visited@ =~= seed_marks(*g));
    }
    let ghost a = attached@;
    let ghost d = detached@;
    let ghost det_seeded = det@;
    let ghost vis_seeded = visited@;
    spread_state(g, &mut attached, &mut visited, &mut det, Detachedness::Attached);
    let ghost det_attached = det@;
    let ghost vis_attached = visited@;
    proof {
        assert forall|i: int| 0 <= i < detached@.len() implies visited@[#[trigger] detached@[i] as int] by {
            assert(vis_seeded[detached@[i] as int]);
        }
    }
    spread_state(g, &mut detached, &mut visited, &mut det, Detachedness::Detached);
    let ghost det_spread = det@;
    let ghost vis_spread = visited@;
    mark_retained_by_detached(g, system_roots, &mut det);
    proof {
        assert(spread_ok(*g, a, seed_marks(*g), vis_attached, recorded_states(*g), det_attached, Detachedness::Attached));
        assert(spread_ok(*g, d, vis_attached, vis_spread, det_attached, det_spread, Detachedness::Detached));
        assert(retained_by_detached_ok(*g, system_roots@, det_spread, det@));
        assert forall|u: int|
            0 <= u < n && is_seed(*g, u, Detachedness::Detached) implies #[trigger] det@[u] == Detachedness::Detached by {
            assert(vis_seeded[u]);
            assert(det_seeded[u] == Detachedness::Detached);
            assert(det_attached[u] == Detachedness::Detached);
            assert(det_spread[u] == Detachedness::Detached);
        }
    }
    det
}

/// Marks Detached every node that the system roots reach over edges that
/// are not weak, but no longer reach when detached nodes are not walked
/// through.
fn mark_retained_by_detached(g: &Graph, system_roots: &Vec<usize>, det: &mut Vec<Detachedness>)
    requires
        g.wf(),
        old(det)@.len() == g.node_count(),
        forall|i: int| 0 <= i < system_roots@.len() ==> #[trigger] system_roots@[i] < g.node_count(),
    ensures
        final(det)@.len() == g.node_count(),
        retained_by_detached_ok(*g, system_roots@, old(det)@, final(det)@),
{
    let normal = reachable_with_detachedness(g, system_roots, det, false);
    let without = reachable_with_detachedness(g, system_roots, det, true);
    let n = g.nodes.len();
    let ghost d0 = det@;
    let mut v: usize = 0;
    while v < n
        invariant
            n == g.node_count(),
            v <= n,
            det@.len() == n,
            d0.len() == n,
            normal@.len() == n,
            without@.len() == n,
            forall|u: int| 0 <= u < v ==> #[trigger] det@[u] == if normal@[u] && !without@[u] {
                Detachedness::Detached
            } else {
                d0[u]
            },
            forall|u: int| v <= u < n ==> #[trigger] det@[u] == d0[u],
        decreases n - v,
    {
        if normal[v] && !without[v] {
            det.set(v, Detachedness::Detached);
        }
        v += 1;
    }
    proof {
        assert(walk_ok(*g, system_roots@, d0, false, normal@));
        assert(walk_ok(*g, system_roots@, d0, true, without@));
    }
}

/// The edges of node `u` are walked: always, or, when stopping at
/// detached nodes, unless `u` is detached.
pub open spec fn walked(det: Seq<Detachedness>, stop: bool, u: int) -> bool {
    !(stop && det[u] == Detachedness::Detached)
}

/// Edge `e` of `u` may carry reachability: it is not weak and the
/// reachability filter does not exclude it.
pub open spec fn live_edge(g: Graph, u: int, e: int) -> bool {
    g.edge_type(e) != g.types.edge_weak && structural_edge(g, u, e)
}

/// Every live edge of a walked node that `m` marks leads to a marked node.
pub open spec fn closed_for_walk(g: Graph, det: Seq<Detachedness>, stop: bool, m: Seq<bool>) -> bool {
    forall|u: int, e: int|
        0 <= u < g.node_count() && m[u] && walked(det, stop, u) && #[trigger] g.is_out_edge(u, e) && live_edge(g, u, e)
            ==> m[g.edge_target(e)]
}

/// `r` marks what the roots reach by walking live edges: the roots are
/// marked, live edges of walked marked nodes that cannot belong to a
/// WeakMap pair lead to marked nodes, and `r` lies inside every marking of
/// the roots closed under the live edges of walked nodes. (Of a WeakMap
/// pair only the second edge met is followed, so which of them count
/// depends on the order of the walk.)
pub open spec fn walk_ok(g: Graph, roots: Seq<usize>, det: Seq<Detachedness>, stop: bool, r: Seq<bool>) -> bool {
    &&& r.len() == g.node_count()
    &&& marks_starts(r, roots)
    &&& forall|u: int, e: int|
        0 <= u < g.node_count() && r[u] && walked(det, stop, u) && #[trigger] g.is_out_edge(u, e) && live_edge(g, u, e)
            && !maybe_paired_edge(g, e) ==> r[g.edge_target(e)]
    &&& forall|m: Seq<bool>|
        m.len() == g.node_count() && marks_starts(m, roots) && closed_for_walk(g, det, stop, m)
            ==> #[trigger] includes(m, r)
}

/// The nodes that the system roots reach over edges that are not weak and
/// that the reachability filter lets through, breadth first; with
/// `stop_at_detached`, the edges of detached nodes are not walked.
fn reachable_with_detachedness(g: &Graph, system_roots: &Vec<usize>, det: &Vec<Detachedness>, stop_at_detached: bool) -> (r: Vec<bool>)
    requires
        g.wf(),
        det@.len() == g.node_count(),
        forall|i: int| 0 <= i < system_roots@.len() ==> #[trigger] system_roots@[i] < g.node_count(),
    ensures
        walk_ok(*g, system_roots@, det@, stop_at_detached, r@),
{
    let n = g.nodes.len();
    let mut reachable: Vec<bool> = vec![false; n];
    let mut queue: Vec<usize> = Vec::new();
    let mut pending = byte_set_new();
    proof {
        lemma_count_marked_zero(reachable@);
    }
    let mut k: usize = 0;
    while k < system_roots.len()
        invariant
            g.wf(),
            n == g.node_count(),
            reachable@.len() == n,
            k <= system_roots@.len(),
            forall|i: int| 0 <= i < system_roots@.len() ==> #[trigger] system_roots@[i] < n,
            forall|i: int| 0 <= i < k ==> reachable@[#[trigger] system_roots@[i] as int],
            forall|i: int| 0 <= i < queue@.len() ==> #[trigger] queue@[i] < n && reachable@[queue@[i] as int],
            forall|v: int| 0 <= v < n && #[trigger] reachable@[v] ==> exists|i: int| 0 <= i < queue@.len() && queue@[i] == v,
            forall|v: int| 0 <= v < n && #[trigger] reachable@[v] ==> exists|i: int|
                0 <= i < system_roots@.len() && system_roots@[i] == v,
            queue@.len() == count_marked(reachable@),
        decreases system_roots@.len() - k,
    {
        let r0 = system_roots[k];
        if !reachable[r0] {
            proof {
                lemma_count_marked_set(reachable@, r0 as int);
            }
            let ghost before = reachable@;
            let ghost qbefore = queue@;
            reachable.set(r0, true);
            queue.push(r0);
            proof {
                assert forall|v: int| 0 <= v < n && #[trigger] reachable@[v] implies exists|i: int|
                    0 <= i < queue@.len() && queue@[i] == v by {
                    if v == r0 {
                        assert(queue@[queue@.len() - 1] == v);
                    } else {
                        assert(before[v]);
                        let i = choose|i: int| 0 <= i < qbefore.len() && qbefore[i] == v;
                        assert(queue@[i] == v);
                    }
                }
                assert forall|v: int| 0 <= v < n && #[trigger] reachable@[v] implies exists|i: int|
                    0 <= i < system_roots@.len() && system_roots@[i] == v by {
                    if v == r0 {
                        assert(system_roots@[k as int] == v);
                    } else {
                        assert(before[v]);
                    }
                }
            }
        }
        proof {
            assert forall|i: int| 0 <= i < k + 1 implies reachable@[#[trigger] system_roots@[i] as int] by {
                if i < k {
                    assert(reachable@[system_roots@[i] as int]);
                }
            }
        }
        k += 1;
    }
    proof {
        assert forall|m: Seq<bool>|
            m.len() == g.node_count() && marks_starts(m, system_roots@) && closed_for_walk(*g, det@, stop_at_detached, m)
                implies #[trigger] includes(m, reachable@) by {
            assert forall|v: int| 0 <= v < reachable@.len() && #[trigger] reachable@[v] implies m[v] by {
                let i = choose|i: int| 0 <= i < system_roots@.len() && system_roots@[i] == v;
                assert(m[system_roots@[i] as int]);
            }
        }
    }
    let mut head: usize = 0;
    while head < queue.len()
        invariant
            g.wf(),
            n == g.node_count(),
            det@.len() == n,
            reachable@.len() == n,
            head <= queue@.len(),
            queue@.len() == count_marked(reachable@),
            forall|i: int| 0 <= i < system_roots@.len() ==> #[trigger] system_roots@[i] < n,
            marks_starts(reachable@, system_roots@),
            forall|i: int| 0 <= i < queue@.len() ==> #[trigger] queue@[i] < n && reachable@[queue@[i] as int],
            forall|v: int| 0 <= v < n && #[trigger] reachable@[v] ==> exists|i: int| 0 <= i < queue@.len() && queue@[i] == v,
            forall|i: int, f: int|
                0 <= i < head && walked(det@, stop_at_detached, queue@[i] as int) && #[trigger] g.is_out_edge(queue@[i] as int, f)
                    && live_edge(*g, queue@[i] as int, f) && !maybe_paired_edge(*g, f) ==> reachable@[g.edge_target(f)],
            forall|m: Seq<bool>|
                m.len() == g.node_count() && marks_starts(m, system_roots@) && closed_for_walk(*g, det@, stop_at_detached, m)
                    ==> #[trigger] includes(m, reachable@),
        decreases n - head, n - queue@.len(),
    {
        proof {
            crate::reach_size::lemma_count_marked_le(reachable@);
        }
        let u = queue[head];
        if !(stop_at_detached && det[u] == Detachedness::Detached) {
            let (first, last) = g.node_edge_range(u);
            let mut e = first;
            while e < last
                invariant
                    g.wf(),
                    n == g.node_count(),
                    head < queue@.len(),
                    u == queue@[head as int],
                    u < n,
                    reachable@[u as int],
                    walked(det@, stop_at_detached, u as int),
                    first == g.edge_begin(u as int),
                    last == g.edge_end(u as int),
                    first <= e <= last,
                    last <= g.edge_count(),
                    det@.len() == n,
                    reachable@.len() == n,
                    queue@.len() == count_marked(reachable@),
                    forall|i: int| 0 <= i < system_roots@.len() ==> #[trigger] system_roots@[i] < n,
                    marks_starts(reachable@, system_roots@),
                    forall|i: int| 0 <= i < queue@.len() ==> #[trigger] queue@[i] < n && reachable@[queue@[i] as int],
                    forall|v: int| 0 <= v < n && #[trigger] reachable@[v] ==> exists|i: int| 0 <= i < queue@.len() && queue@[i] == v,
                    forall|i: int, f: int|
                        0 <= i < head && walked(det@, stop_at_detached, queue@[i] as int) && #[trigger] g.is_out_edge(queue@[i] as int, f)
                            && live_edge(*g, queue@[i] as int, f) && !maybe_paired_edge(*g, f) ==> reachable@[g.edge_target(f)],
                    forall|f: int|
                        first <= f < e && live_edge(*g, u as int, f) && !maybe_paired_edge(*g, f)
                            ==> reachable@[#[trigger] g.edge_target(f)],
                    forall|m: Seq<bool>|
                        m.len() == g.node_count() && marks_starts(m, system_roots@) && closed_for_walk(*g, det@, stop_at_detached, m)
                            ==> #[trigger] includes(m, reachable@),
                decreases last - e,
            {
                if g.edge_type_raw(e) != g.types.edge_weak {
                    let c = g.edge_to_node(e);
                    if !reachable[c] && should_traverse_edge(g, u, e, &mut pending) {
                        proof {
                            lemma_count_marked_bound(reachable@, c as int);
                            lemma_count_marked_set(reachable@, c as int);
                        }
                        let ghost before = reachable@;
                        let ghost qbefore = queue@;
                        reachable.set(c, true);
                        queue.push(c);
                        proof {
                            assert forall|i: int| 0 <= i < system_roots@.len() implies reachable@[#[trigger] system_roots@[i] as int] by {
                                assert(before[system_roots@[i] as int]);
                            }
                            assert forall|v: int| 0 <= v < n && #[trigger] reachable@[v] implies exists|i: int|
                                0 <= i < queue@.len() && queue@[i] == v by {
                                if v == c {
                                    assert(queue@[queue@.len() - 1] == v);
                                } else {
                                    let i = choose|i: int| 0 <= i < qbefore.len() && qbefore[i] == v;
                                    assert(queue@[i] == v);
                                }
                            }
                            assert forall|m: Seq<bool>|
                                m.len() == g.node_count() && marks_starts(m, system_roots@) && closed_for_walk(*g, det@, stop_at_detached, m)
                                    implies #[trigger] includes(m, reachable@) by {
                                assert(includes(m, before));
                                assert(g.is_out_edge(u as int, e as int));
                                assert(m[u as int]);
                            }
                        }
                    }
                }
                e += 1;
            }
            proof {
                assert forall|i: int, f: int|
                    0 <= i < head + 1 && walked(det@, stop_at_detached, queue@[i] as int) && #[trigger] g.is_out_edge(queue@[i] as int, f)
                        && live_edge(*g, queue@[i] as int, f) && !maybe_paired_edge(*g, f) implies reachable@[g.edge_target(f)] by {
                    if i == head {
                        assert(first <= f < last);
                    }
                }
            }
        }
        head += 1;
    }
    proof {
        assert forall|w: int, f: int|
            0 <= w < g.node_count() && reachable@[w] && walked(det@, stop_at_detached, w) && #[trigger] g.is_out_edge(w, f)
                && live_edge(*g, w, f) && !maybe_paired_edge(*g, f) implies reachable@[g.edge_target(f)] by {
            let i = choose|i: int| 0 <= i < queue@.len() && queue@[i] == w;
            assert(g.is_out_edge(queue@[i] as int, f));
        }
    }
    reachable
}

/// The DOM state passes from `p[i]` to `p[i + 1]` over a DOM edge.
pub open spec fn dom_step(g: Graph, p: Seq<int>, i: int) -> bool {
    exists|e: int| #[trigger] g.is_out_edge(p[i], e) && dom_edge(g, e) && g.edge_target(e) == p[i + 1]
}

/// `p` leads from an attached native node over DOM edges through nodes
/// that record no state of their own.
pub open spec fn attached_dom_path(g: Graph, p: Seq<int>) -> bool {
    &&& p.len() > 0
    &&& 0 <= p[0] < g.node_count()
    &&& is_seed(g, p[0], Detachedness::Attached)
    &&& forall|i: int|
        1 <= i < p.len() ==> 0 <= #[trigger] p[i] < g.node_count() && !is_seed(g, p[i], Detachedness::Attached) && !is_seed(
            g,
            p[i],
            Detachedness::Detached,
        )
    &&& forall|i: int| 0 <= i < p.len() - 1 ==> #[trigger] dom_step(g, p, i)
}

/// The walk from the roots passes from `p[i]` to `p[i + 1]` over an edge
/// that is live and cannot belong to a WeakMap pair.
pub open spec fn live_step(g: Graph, p: Seq<int>, i: int) -> bool {
    exists|e: int| #[trigger] g.is_out_edge(p[i], e) && live_edge(g, p[i], e) && !maybe_paired_edge(g, e) && g.edge_target(e) == p[i + 1]
}

/// `p` leads from a system root over such edges, and no node on it before
/// the last is Detached in `det`.
pub open spec fn undetached_root_path(g: Graph, roots: Seq<usize>, det: Seq<Detachedness>, p: Seq<int>) -> bool {
    &&& p.len() > 0
    &&& listed(roots, p[0])
    &&& forall|i: int| 0 <= i < p.len() ==> 0 <= #[trigger] p[i] < g.node_count()
    &&& forall|i: int| 0 <= i < p.len() - 1 ==> det[p[i]] != Detachedness::Detached && #[trigger] live_step(g, p, i)
}

/// Attached states spread first: a node that an attached native node
/// reaches over DOM edges through nodes recording no state, and that the
/// system roots reach without passing a node that ends up Detached, is
/// Attached, even when a detached native node reaches it too.
pub proof fn lemma_attached_spread_first(g: Graph, roots: Seq<usize>, r: Seq<Detachedness>, p: Seq<int>, q: Seq<int>)
    requires
        g.wf(),
        g.has_detachedness,
        detachedness_ok(g, roots, r),
        attached_dom_path(g, p),
        undetached_root_path(g, roots, r, q),
        p.last() == q.last(),
    ensures
        r[p.last()] == Detachedness::Attached,
{
    let (a, d, vis1, det1, vis2, det2) = choose|a: Seq<usize>, d: Seq<usize>, vis1: Seq<bool>, det1: Seq<Detachedness>, vis2: Seq<bool>, det2: Seq<Detachedness>| {
        &&& seeds_are(g, a, Detachedness::Attached)
        &&& seeds_are(g, d, Detachedness::Detached)
        &&& #[trigger] spread_ok(g, a, seed_marks(g), vis1, recorded_states(g), det1, Detachedness::Attached)
        &&& #[trigger] spread_ok(g, d, vis1, vis2, det1, det2, Detachedness::Detached)
        &&& retained_by_detached_ok(g, roots, det2, r)
    };
    let (normal, without) = choose|normal: Seq<bool>, without: Seq<bool>| {
        &&& #[trigger] walk_ok(g, roots, det2, false, normal)
        &&& #[trigger] walk_ok(g, roots, det2, true, without)
        &&& r.len() == g.node_count()
        &&& forall|v: int| 0 <= v < g.node_count() ==> #[trigger] r[v] == if normal[v] && !without[v] {
            Detachedness::Detached
        } else {
            det2[v]
        }
    };
    let base = seed_marks(g);
    lemma_dom_path_marked(g, a, base, vis1, p, p.len() as int);
    let v = p.last();
    assert(0 <= v < g.node_count());
    if p.len() == 1 {
        assert(base[v]);
        assert(det1[v] == recorded_states(g)[v]);
    } else {
        assert(!base[v]) by {
            assert(p[p.len() - 1] == v);
        }
    }
    assert(det1[v] == Detachedness::Attached);
    assert(det2[v] == det1[v]);
    lemma_root_path_walked(g, roots, r, det2, without, q, q.len() as int);
    assert(without[v]);
}

proof fn lemma_dom_path_marked(g: Graph, a: Seq<usize>, base: Seq<bool>, vis1: Seq<bool>, p: Seq<int>, k: int)
    requires
        g.wf(),
        seeds_are(g, a, Detachedness::Attached),
        base == seed_marks(g),
        vis1.len() == g.node_count(),
        includes(vis1, base),
        closed_for_spread(g, a, base, vis1),
        attached_dom_path(g, p),
        1 <= k <= p.len(),
    ensures
        vis1[p[k - 1]],
    decreases k,
{
    if k == 1 {
        assert(base[p[0]]);
    } else {
        lemma_dom_path_marked(g, a, base, vis1, p, k - 1);
        let u = p[k - 2];
        assert(dom_step(g, p, k - 2));
        let e = choose|e: int| #[trigger] g.is_out_edge(u, e) && dom_edge(g, e) && g.edge_target(e) == p[k - 1];
        assert(0 <= u < g.node_count());
        if k - 2 == 0 {
            assert(listed(a, u));
        } else {
            assert(!base[u]);
        }
        assert(passes_on(a, base, vis1, u));
        assert(g.is_out_edge(u, e));
    }
}

proof fn lemma_root_path_walked(g: Graph, roots: Seq<usize>, r: Seq<Detachedness>, det2: Seq<Detachedness>, without: Seq<bool>, q: Seq<int>, k: int)
    requires
        g.wf(),
        walk_ok(g, roots, det2, true, without),
        r.len() == g.node_count(),
        det2.len() == g.node_count(),
        forall|v: int| 0 <= v < g.node_count() && det2[v] == Detachedness::Detached ==> #[trigger] r[v] == Detachedness::Detached,
        undetached_root_path(g, roots, r, q),
        1 <= k <= q.len(),
    ensures
        without[q[k - 1]],
    decreases k,
{
    if k == 1 {
        let i = choose|i: int| 0 <= i < roots.len() && roots[i] as int == q[0];
        assert(without[roots[i] as int]);
    } else {
        lemma_root_path_walked(g, roots, r, det2, without, q, k - 1);
        let u = q[k - 2];
        assert(live_step(g, q, k - 2));
        assert(r[u] != Detachedness::Detached);
        assert(0 <= u < g.node_count());
        assert(det2[u] != Detachedness::Detached);
        let e = choose|e: int| #[trigger] g.is_out_edge(u, e) && live_edge(g, u, e) && !maybe_paired_edge(g, e) && g.edge_target(e) == q[k - 1];
        assert(walked(det2, true, u));
    }
}

} // verus!
