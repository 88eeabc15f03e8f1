use vstd::prelude::*;
use crate::graph::Graph;

verus! {

/// Edge `e` is followed when measuring what a set of nodes keeps alive.
pub open spec fn strong_edge(g: Graph, e: int) -> bool {
    g.edge_type(e) != g.types.edge_weak
}

/// The marked nodes are closed under strong edges: every strong edge of a
/// marked node leads to a marked node.
pub open spec fn closed_under_strong_edges(g: Graph, marked: Seq<bool>) -> bool {
    forall|u: int, e: int|
        0 <= u < g.node_count() && marked[u] && #[trigger] g.is_out_edge(u, e) && strong_edge(g, e)
            ==> marked[g.edge_target(e)]
}

/// Every node marked in `marked` is marked in `m`.
pub open spec fn includes(m: Seq<bool>, marked: Seq<bool>) -> bool {
    forall|v: int| 0 <= v < marked.len() && #[trigger] marked[v] ==> m[v]
}

/// `m` marks every start node.
pub open spec fn marks_starts(m: Seq<bool>, starts: Seq<usize>) -> bool {
    forall|i: int| 0 <= i < starts.len() ==> m[#[trigger] starts[i] as int]
}

/// `marked` lies inside every marking that marks the start nodes and is
/// closed under strong edges: it holds no node that the start nodes do
/// not reach.
pub open spec fn least_marking(g: Graph, marked: Seq<bool>, starts: Seq<usize>) -> bool {
    forall|m: Seq<bool>|
        m.len() == g.node_count() && marks_starts(m, starts) && closed_under_strong_edges(g, m)
            ==> #[trigger] includes(m, marked)
}

/// Marks every node that the start nodes reach over edges that are not
/// weak, breadth first.
pub fn mark_strongly_reachable(g: &Graph, starts: &Vec<usize>) -> (r: Vec<bool>)
    requires
        g.wf(),
        forall|i: int| 0 <= i < starts@.len() ==> #[trigger] starts@[i] < g.node_count(),
    ensures
        r@.len() == g.node_count(),
        forall|i: int| 0 <= i < starts@.len() ==> r@[#[trigger] starts@[i] as int],
        closed_under_strong_edges(*g, r@),
        least_marking(*g, r@, starts@),
{
    let n = g.nodes.len();
    let mut visited: Vec<bool> = vec![false; n];
    let mut queue: Vec<usize> = Vec::new();
    proof {
        lemma_count_marked_zero(visited@);
    }
    let mut k: usize = 0;
    while k < starts.len()
        invariant
            g.wf(),
            n == g.node_count(),
            forall|i: int| 0 <= i < starts@.len() ==> #[trigger] starts@[i] < n,
            k <= starts@.len(),
            visited@.len() == n,
            queue@.len() <= n,
            forall|i: int| 0 <= i < k ==> visited@[#[trigger] starts@[i] as int],
            forall|i: int| 0 <= i < queue@.len() ==> #[trigger] queue@[i] < n && visited@[queue@[i] as int],
            forall|v: int| 0 <= v < n && #[trigger] visited@[v] ==> exists|i: int| 0 <= i < queue@.len() && queue@[i] == v,
            forall|v: int| 0 <= v < n && #[trigger] visited@[v] ==> exists|i: int| 0 <= i < starts@.len() && starts@[i] == v,
            queue@.len() == count_marked(visited@),
        decreases starts@.len() - k,
    {
        let s = starts[k];
        if !visited[s] {
            proof {
                lemma_count_marked_bound(visited@, s as int);
                lemma_count_marked_set(visited@, s as int);
            }
            let ghost before = visited@;
            let ghost qbefore = queue@;
            visited.set(s, true);
            queue.push(s);
            proof {
                assert forall|v: int| 0 <= v < n && #[trigger] visited@[v] implies exists|i: int|
                    0 <= i < queue@.len() && queue@[i] == v by {
                    if v == s {
                        assert(queue@[queue@.len() - 1] == v);
                    } else {
                        assert(before[v]);
                        let i = choose|i: int| 0 <= i < qbefore.len() && qbefore[i] == v;
                        assert(queue@[i] == v);
                    }
                }
                assert forall|i: int| 0 <= i < k + 1 implies visited@[#[trigger] starts@[i] as int] by {
                    if i < k {
                        assert(before[starts@[i] as int]);
                    }
                }
                assert forall|v: int| 0 <= v < n && #[trigger] visited@[v] implies exists|i: int|
                    0 <= i < starts@.len() && starts@[i] == v by {
                    if v == s {
                        assert(starts@[k as int] == v);
                    }
                }
            }
        }
        k += 1;
    }
    proof {
        assert forall|m: Seq<bool>|
            m.len() == g.node_count() && marks_starts(m, starts@) && closed_under_strong_edges(*g, m)
                implies #[trigger] includes(m, visited@) by {
            assert forall|v: int| 0 <= v < visited@.len() && #[trigger] visited@[v] implies m[v] by {
                let i = choose|i: int| 0 <= i < starts@.len() && starts@[i] == v;
                assert(m[starts@[i] as int]);
            }
        }
    }
    let mut head: usize = 0;
    while head < queue.len()
        invariant
            g.wf(),
            n == g.node_count(),
            head <= queue@.len(),
            visited@.len() == n,
            queue@.len() <= n,
            queue@.len() == count_marked(visited@),
            forall|i: int| 0 <= i < starts@.len() ==> #[trigger] starts@[i] < n,
            forall|i: int| 0 <= i < starts@.len() ==> visited@[#[trigger] starts@[i] as int],
            forall|i: int| 0 <= i < queue@.len() ==> #[trigger] queue@[i] < n && visited@[queue@[i] as int],
            forall|v: int| 0 <= v < n && #[trigger] visited@[v] ==> exists|i: int| 0 <= i < queue@.len() && queue@[i] == v,
            forall|i: int, e: int|
                0 <= i < head && #[trigger] g.is_out_edge(queue@[i] as int, e) && strong_edge(*g, e) ==> visited@[g.edge_target(e)],
            least_marking(*g, visited@, starts@),
        decreases n - head, n - queue@.len(),
    {
        let u = queue[head];
        let (first, last) = g.node_edge_range(u);
        let mut e = first;
        while e < last
            invariant
                g.wf(),
                n == g.node_count(),
                head < queue@.len(),
                u == queue@[head as int],
                u < n,
                visited@[u as int],
                first == g.edge_begin(u as int),
                last == g.edge_end(u as int),
                last <= g.edge_count(),
                first <= e <= last,
                visited@.len() == n,
                queue@.len() <= n,
                queue@.len() == count_marked(visited@),
                forall|i: int| 0 <= i < starts@.len() ==> #[trigger] starts@[i] < n,
                forall|i: int| 0 <= i < starts@.len() ==> visited@[#[trigger] starts@[i] as int],
                forall|i: int| 0 <= i < queue@.len() ==> #[trigger] queue@[i] < n && visited@[queue@[i] as int],
                forall|v: int| 0 <= v < n && #[trigger] visited@[v] ==> exists|i: int| 0 <= i < queue@.len() && queue@[i] == v,
                forall|i: int, f: int|
                    0 <= i < head && #[trigger] g.is_out_edge(queue@[i] as int, f) && strong_edge(*g, f) ==> visited@[g.edge_target(f)],
                forall|f: int| first <= f < e && strong_edge(*g, f) ==> visited@[#[trigger] g.edge_target(f)],
                least_marking(*g, visited@, starts@),
            decreases last - e,
        {
            if g.edge_type_raw(e) != g.types.edge_weak {
                let t = g.edge_to_node(e);
                if !visited[t] {
                    proof {
                        lemma_count_marked_bound(visited@, t as int);
                        lemma_count_marked_set(visited@, t as int);
                    }
                    let ghost before = visited@;
                    let ghost qbefore = queue@;
                    visited.set(t, true);
                    queue.push(t);
                    proof {
                        assert forall|i: int| 0 <= i < starts@.len() implies visited@[#[trigger] starts@[i] as int] by {
                            assert(before[starts@[i] as int]);
                        }
                        assert forall|v: int| 0 <= v < n && #[trigger] visited@[v] implies exists|i: int|
                            0 <= i < queue@.len() && queue@[i] == v by {
                            if v == t {
                                assert(queue@[queue@.len() - 1] == v);
                            } else {
                                let i = choose|i: int| 0 <= i < qbefore.len() && qbefore[i] == v;
                                assert(queue@[i] == v);
                            }
                        }
                        assert forall|m: Seq<bool>|
                            m.len() == g.node_count() && marks_starts(m, starts@) && closed_under_strong_edges(*g, m)
                                implies #[trigger] includes(m, visited@) by {
                            assert(includes(m, before));
                            assert(g.is_out_edge(u as int, e as int));
                            assert(m[u as int]);
                        }
                    }
                }
            }
            e += 1;
        }
        proof {
            assert forall|i: int, f: int|
                0 <= i < head + 1 && #[trigger] g.is_out_edge(queue@[i] as int, f) && strong_edge(*g, f) implies visited@[g.edge_target(f)] by {
                if i == head {
                    assert(first <= f < last);
                }
            }
        }
        head += 1;
    }
    proof {
        assert forall|w: int, f: int|
            0 <= w < g.node_count() && visited@[w] && #[trigger] g.is_out_edge(w, f) && strong_edge(*g, f) implies visited@[g.edge_target(f)] by {
            let i = choose|i: int| 0 <= i < queue@.len() && queue@[i] == w;
            assert(g.is_out_edge(queue@[i] as int, f));
        }
    }
    visited
}

/// Number of marked entries.
pub open spec fn count_marked(s: Seq<bool>) -> nat
    decreases s.len(),
{
    if s.len() == 0 {
        0
    } else {
        count_marked(s.drop_last()) + if s.last() {
            1nat
        } else {
            0nat
        }
    }
}

pub proof fn lemma_count_marked_zero(s: Seq<bool>)
    requires
        forall|i: int| 0 <= i < s.len() ==> !#[trigger] s[i],
    ensures
        count_marked(s) == 0,
    decreases s.len(),
{
    if s.len() > 0 {
        let t = s.drop_last();
        assert forall|i: int| 0 <= i < t.len() implies !#[trigger] t[i] by {
            assert(t[i] == s[i]);
        }
        lemma_count_marked_zero(t);
    }
}

pub proof fn lemma_count_marked_bound(s: Seq<bool>, i: int)
    requires
        0 <= i < s.len(),
        !s[i],
    ensures
        count_marked(s) < s.len(),
    decreases s.len(),
{
    if i < s.len() - 1 {
        lemma_count_marked_bound(s.drop_last(), i);
    } else {
        lemma_count_marked_le(s.drop_last());
    }
}

pub proof fn lemma_count_marked_le(s: Seq<bool>)
    ensures
        count_marked(s) <= s.len(),
    decreases s.len(),
{
    if s.len() > 0 {
        lemma_count_marked_le(s.drop_last());
    }
}

pub proof fn lemma_count_marked_set(s: Seq<bool>, i: int)
    requires
        0 <= i < s.len(),
        !s[i],
    ensures
        count_marked(s.update(i, true)) == count_marked(s) + 1,
    decreases s.len(),
{
    if i == s.len() - 1 {
        assert(s.update(i, true).drop_last() =~= s.drop_last());
    } else {
        lemma_count_marked_set(s.drop_last(), i);
        assert(s.update(i, true).drop_last() =~= s.drop_last().update(i, true));
    }
}

/// Sum of the self sizes of the marked nodes among the first `k`.
pub open spec fn marked_size(g: Graph, marked: Seq<bool>, k: int) -> int
    decreases k,
{
    if k <= 0 {
        0
    } else {
        marked_size(g, marked, k - 1) + if marked[k - 1] {
            g.self_size(k - 1) as int
        } else {
            0
        }
    }
}

/// The total self size of the marked nodes.
pub fn sum_marked_sizes(g: &Graph, marked: &Vec<bool>) -> (r: u64)
    requires
        g.wf(),
        marked@.len() == g.node_count(),
    ensures
        r == marked_size(*g, marked@, g.node_count() as int),
{
    let n = g.nodes.len();
    let mut total: u64 = 0;
    let mut v: usize = 0;
    while v < n
        invariant
            g.wf(),
            n == g.node_count(),
            marked@.len() == n,
            v <= n,
            total == marked_size(*g, marked@, v as int),
            total <= v * 0xffff_ffff,
        decreases n - v,
    {
        if marked[v] {
            total = total + g.nodes[v].self_size as u64;
        }
        v += 1;
    }
    total
}

} // verus!
