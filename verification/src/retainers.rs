use vstd::prelude::*;
use crate::graph::Graph;

verus! {

/// Incoming edges of every node, grouped by target: the retainers of node
/// `t` sit at `first_retainer_index[t]..first_retainer_index[t + 1]`.
pub struct RetainerIndex {
    /// Source node of each incoming-edge entry.
    pub retaining_nodes: Vec<u32>,
    /// Edge of each entry, parallel to `retaining_nodes`.
    pub retaining_edges: Vec<u32>,
    pub first_retainer_index: Vec<u32>,
}

/// Number of edges among the first `k` that point at `t`.
pub open spec fn count_to(g: Graph, k: int, t: int) -> nat
    decreases k,
{
    if k <= 0 {
        0
    } else {
        count_to(g, k - 1, t) + if g.edge_target(k - 1) == t {
            1nat
        } else {
            0nat
        }
    }
}

/// Number of edges among the first `k` that point below node `t`.
pub open spec fn count_below(g: Graph, k: int, t: int) -> nat
    decreases k,
{
    if k <= 0 {
        0
    } else {
        count_below(g, k - 1, t) + if g.edge_target(k - 1) < t {
            1nat
        } else {
            0nat
        }
    }
}

/// The entry after `t`.
pub open spec fn next_at(v: Seq<u32>, t: int) -> int {
    v[t + 1] as int
}

impl RetainerIndex {
    /// The retainer entries of node `t`.
    pub open spec fn range_begin(&self, t: int) -> int {
        self.first_retainer_index@[t] as int
    }

    pub open spec fn range_end(&self, t: int) -> int {
        self.first_retainer_index@[t + 1] as int
    }

    /// The index lists exactly the incoming edges of every node: each entry
    /// in a node's range is an edge into that node together with its
    /// source, each node's range holds as many entries as the node has
    /// incoming edges, and every edge has an entry in its target's range.
    pub open spec fn wf_for(&self, g: Graph) -> bool {
        let n = g.node_count() as int;
        let m = g.edge_count() as int;
        &&& self.first_retainer_index@.len() == n + 1
        &&& self.retaining_nodes@.len() == m
        &&& self.retaining_edges@.len() == m
        &&& self.first_retainer_index@[0] == 0
        &&& self.first_retainer_index@[n] == m
        &&& forall|t: int|
            0 <= t < n ==> #[trigger] self.range_end(t) == self.range_begin(t) + count_to(g, m, t)
        &&& forall|t: int| 0 <= t <= n ==> #[trigger] self.first_retainer_index@[t] <= m
        &&& forall|t: int, s: int|
            #![trigger self.range_end(t), self.retaining_edges@[s]]
            0 <= t < n && self.range_begin(t) <= s < self.range_end(t) ==> {
                &&& self.retaining_edges@[s] < m
                &&& g.edge_target(self.retaining_edges@[s] as int) == t
                &&& self.retaining_nodes@[s] < n
                &&& g.is_out_edge(
                    self.retaining_nodes@[s] as int,
                    self.retaining_edges@[s] as int,
                )
            }
        &&& forall|e: int|
            #![trigger g.edge_target(e)]
            0 <= e < m ==> exists|s: int|
                self.range_begin(g.edge_target(e)) <= s < self.range_end(g.edge_target(e))
                    && #[trigger] self.retaining_edges@[s] == e
    }
}

impl RetainerIndex {
    /// Within each node's range the entries come in decreasing edge order.
    pub open spec fn descending(&self, g: Graph) -> bool {
        forall|t: int, s1: int, s2: int|
            #![trigger self.range_end(t), self.retaining_edges@[s1], self.retaining_edges@[s2]]
            0 <= t < g.node_count() && self.range_begin(t) <= s1 < s2 < self.range_end(t) ==> self.retaining_edges@[s1]
                > self.retaining_edges@[s2]
    }
}

/// Within the filled part of each node's range, the entries come in
/// decreasing edge order.
pub open spec fn filled_descending(n: int, next: Seq<u32>, first: Seq<u32>, edges: Seq<u32>) -> bool {
    forall|t: int, s1: int, s2: int|
        #![trigger next_at(next, t), edges[s1], edges[s2]]
        0 <= t < n && next_at(next, t) <= s1 < s2 < next_at(first, t) ==> edges[s1] > edges[s2]
}

/// What the index says of one of node `t`'s entries.
pub proof fn lemma_retainer_entry(g: Graph, r: RetainerIndex, t: int, s: int)
    requires
        r.wf_for(g),
        0 <= t < g.node_count(),
        r.range_begin(t) <= s < r.range_end(t),
    ensures
        r.retaining_edges@[s] < g.edge_count(),
        g.edge_target(r.retaining_edges@[s] as int) == t,
        r.retaining_nodes@[s] < g.node_count(),
        g.is_out_edge(r.retaining_nodes@[s] as int, r.retaining_edges@[s] as int),
        r.range_end(t) <= g.edge_count(),
{
    assert(r.range_end(t) == r.range_end(t));
    assert(r.retaining_edges@[s] == r.retaining_edges@[s]);
    assert(r.first_retainer_index@[t + 1] <= g.edge_count());
}

/// Node `t`'s range lies inside the entry arrays.
pub proof fn lemma_retainer_range(g: Graph, r: RetainerIndex, t: int)
    requires
        r.wf_for(g),
        0 <= t < g.node_count(),
    ensures
        r.range_begin(t) <= r.range_end(t) <= g.edge_count(),
{
    assert(r.first_retainer_index@[t + 1] <= g.edge_count());
    assert(r.range_end(t) == r.range_begin(t) + count_to(g, g.edge_count() as int, t));
}

proof fn lemma_count_below_step(g: Graph, k: int, t: int)
    ensures
        count_below(g, k, t + 1) == count_below(g, k, t) + count_to(g, k, t),
    decreases k,
{
    if k > 0 {
        lemma_count_below_step(g, k - 1, t);
    }
}

proof fn lemma_count_bounds(g: Graph, k: int, t: int)
    requires
        0 <= k,
    ensures
        count_to(g, k, t) <= k,
        count_below(g, k, t) <= k,
    decreases k,
{
    if k > 0 {
        lemma_count_bounds(g, k - 1, t);
    }
}

proof fn lemma_count_below_all(g: Graph, k: int)
    requires
        g.wf(),
        0 <= k <= g.edge_count(),
    ensures
        count_below(g, k, g.node_count() as int) == k,
    decreases k,
{
    if k > 0 {
        lemma_count_below_all(g, k - 1);
        assert(g.edge_target(k - 1) < g.node_count());
    }
}

proof fn lemma_count_to_mono(g: Graph, k1: int, k2: int, t: int)
    requires
        0 <= k1 <= k2,
    ensures
        count_to(g, k1, t) <= count_to(g, k2, t),
    decreases k2,
{
    if k2 > k1 {
        lemma_count_to_mono(g, k1, k2 - 1, t);
    }
}

proof fn lemma_count_below_mono(g: Graph, k: int, t1: int, t2: int)
    requires
        t1 <= t2,
    ensures
        count_below(g, k, t1) <= count_below(g, k, t2),
    decreases k,
{
    if k > 0 {
        lemma_count_below_mono(g, k - 1, t1, t2);
    }
}

proof fn lemma_count_below_zero(g: Graph, k: int)
    ensures
        count_below(g, k, 0) == 0,
    decreases k,
{
    if k > 0 {
        lemma_count_below_zero(g, k - 1);
    }
}

proof fn lemma_count_to_step(g: Graph, k: int, t: int)
    requires
        0 <= k,
    ensures
        count_to(g, k + 1, t) == count_to(g, k, t) + if g.edge_target(k) == t {
            1nat
        } else {
            0nat
        },
{
}

/// Some entry of `t`'s filled range holds edge `f`.
pub open spec fn slot_holds(next: Seq<u32>, first: Seq<u32>, edges: Seq<u32>, f: int, t: int) -> bool {
    exists|s: int| next_at(next, t) <= s < next_at(first, t) && #[trigger] edges[s] == f
}

/// Offsets given by `count_below` never overlap for different nodes.
proof fn lemma_ranges_disjoint(g: Graph, m: int, t: int, u: int, s: int)
    requires
        t != u,
        count_below(g, m, t) <= s < count_below(g, m, t + 1),
    ensures
        !(count_below(g, m, u) <= s < count_below(g, m, u + 1)),
{
    if t < u {
        lemma_count_below_mono(g, m, t + 1, u);
    } else {
        lemma_count_below_mono(g, m, u + 1, t);
    }
}

/// Groups the incoming edges of every node.
pub fn build_retainers(g: &Graph) -> (r: RetainerIndex)
    requires
        g.wf(),
    ensures
        r.wf_for(*g),
        r.descending(*g),
{
    let n = g.nodes.len();
    let m = g.edges.len();
    // Phase 1: count incoming edges per node.
    let mut first: Vec<u32> = vec![0u32; n + 1];
    let mut e: usize = 0;
    while e < m
        invariant
            g.wf(),
            n == g.node_count(),
            m == g.edge_count(),
            e <= m,
            first@.len() == n + 1,
            forall|t: int| 0 <= t < n ==> #[trigger] first@[t] == count_to(*g, e as int, t),
            first@[n as int] == 0,
        decreases m - e,
    {
        let t = g.edge_to_node(e);
        proof {
            lemma_count_bounds(*g, e as int, t as int);
        }
        let c = first[t];
        first.set(t, c + 1);
        proof {
            assert forall|u: int| 0 <= u < n implies #[trigger] first@[u] == count_to(
                *g,
                e as int + 1,
                u,
            ) by {
                lemma_count_to_step(*g, e as int, u);
            }
        }
        e += 1;
    }
    // Phase 2: turn counts into start offsets.
    proof {
        lemma_count_below_zero(*g, m as int);
        lemma_count_below_all(*g, m as int);
    }
    let mut first_unused: u32 = 0;
    let mut i: usize = 0;
    while i < n
        invariant
            g.wf(),
            n == g.node_count(),
            m == g.edge_count(),
            i <= n,
            first@.len() == n + 1,
            first@[n as int] == 0,
            count_below(*g, m as int, n as int) == m,
            first_unused == count_below(*g, m as int, i as int),
            forall|t: int| 0 <= t < i ==> #[trigger] first@[t] == count_below(*g, m as int, t),
            forall|t: int| i <= t < n ==> #[trigger] first@[t] == count_to(*g, m as int, t),
        decreases n - i,
    {
        let count = first[i];
        proof {
            lemma_count_below_step(*g, m as int, i as int);
            lemma_count_below_mono(*g, m as int, i as int + 1, n as int);
        }
        first.set(i, first_unused);
        first_unused = first_unused + count;
        i += 1;
    }
    first.set(n, m as u32);
    proof {
        lemma_count_below_zero(*g, m as int);
        assert forall|t: int| 0 <= t <= n implies #[trigger] first@[t] == count_below(*g, m as int, t) by {
        }
        assert forall|t: int| 0 <= t < n implies #[trigger] next_at(first@, t) == first@[t]
            + count_to(*g, m as int, t) by {
            lemma_count_below_step(*g, m as int, t);
        }
        assert forall|t: int| 0 <= t <= n implies #[trigger] first@[t] <= m by {
            if t < n {
                lemma_count_below_mono(*g, m as int, t, n as int);
            }
        }
    }
    // Phase 3: fill each node's range from its end, edge by edge.
    let mut next: Vec<u32> = first.clone();
    assert(next@ =~= first@);
    let mut retaining_nodes: Vec<u32> = vec![0u32; m];
    let mut retaining_edges: Vec<u32> = vec![0u32; m];
    let ghost mut k: int = 0;
    let mut src: usize = 0;
    while src < n
        invariant
            g.wf(),
            n == g.node_count(),
            m == g.edge_count(),
            src <= n,
            k == if src < n { g.edge_begin(src as int) } else { m as int },
            0 <= k <= m,
            first@.len() == n + 1,
            next@.len() == n + 1,
            retaining_nodes@.len() == m,
            retaining_edges@.len() == m,
            first@[0] == 0,
            first@[n as int] == m,
            forall|t: int| 0 <= t <= n ==> #[trigger] first@[t] == count_below(*g, m as int, t),
            forall|t: int|
                0 <= t < n ==> #[trigger] next_at(first@, t) == first@[t] + count_to(*g, m as int, t),
            forall|t: int| 0 <= t <= n ==> #[trigger] first@[t] <= m,
            forall|t: int|
                0 <= t < n ==> #[trigger] next_at(next@, t) == next_at(first@, t) - count_to(*g, k, t),
            forall|t: int, s: int|
                #![trigger next_at(next@, t), retaining_edges@[s]]
                0 <= t < n && next_at(next@, t) <= s < next_at(first@, t) ==> {
                    &&& retaining_edges@[s] < k
                    &&& g.edge_target(retaining_edges@[s] as int) == t
                    &&& retaining_nodes@[s] < n
                    &&& g.is_out_edge(retaining_nodes@[s] as int, retaining_edges@[s] as int)
                },
            forall|f: int|
                0 <= f < k ==> #[trigger] slot_holds(next@, first@, retaining_edges@, f, g.edge_target(f)),
            filled_descending(n as int, next@, first@, retaining_edges@),
        decreases n - src,
    {
        let (first_edge, next_first) = g.node_edge_range(src);
        assert(k == first_edge as int);
        let mut ei = first_edge;
        while ei < next_first
            invariant
                g.wf(),
                n == g.node_count(),
                m == g.edge_count(),
                src < n,
                first_edge == g.edge_begin(src as int),
                next_first == g.edge_end(src as int),
                next_first <= m,
                first_edge <= ei <= next_first,
                first@.len() == n + 1,
                next@.len() == n + 1,
                retaining_nodes@.len() == m,
                retaining_edges@.len() == m,
                first@[0] == 0,
                first@[n as int] == m,
                forall|t: int| 0 <= t <= n ==> #[trigger] first@[t] == count_below(*g, m as int, t),
                forall|t: int|
                    0 <= t < n ==> #[trigger] next_at(first@, t) == first@[t] + count_to(*g, m as int, t),
                forall|t: int| 0 <= t <= n ==> #[trigger] first@[t] <= m,
                forall|t: int|
                    0 <= t < n ==> #[trigger] next_at(next@, t) == next_at(first@, t) - count_to(
                        *g,
                        ei as int,
                        t,
                    ),
                forall|t: int, s: int|
                    #![trigger next_at(next@, t), retaining_edges@[s]]
                    0 <= t < n && next_at(next@, t) <= s < next_at(first@, t) ==> {
                        &&& retaining_edges@[s] < ei
                        &&& g.edge_target(retaining_edges@[s] as int) == t
                        &&& retaining_nodes@[s] < n
                        &&& g.is_out_edge(retaining_nodes@[s] as int, retaining_edges@[s] as int)
                    },
                forall|f: int|
                    0 <= f < ei ==> #[trigger] slot_holds(next@, first@, retaining_edges@, f, g.edge_target(f)),
                filled_descending(n as int, next@, first@, retaining_edges@),
            decreases next_first - ei,
        {
            let to = g.edge_to_node(ei);
            let ghost old_next = next@;
            let ghost old_edges = retaining_edges@;
            let ghost old_nodes = retaining_nodes@;
            proof {
                lemma_count_to_mono(*g, ei as int + 1, m as int, to as int);
                lemma_count_to_step(*g, ei as int, to as int);
                assert(next_at(first@, to as int) == first@[to as int] + count_to(*g, m as int, to as int));
                assert(next_at(next@, to as int) == next_at(first@, to as int) - count_to(*g, ei as int, to as int));
                assert(first@[to + 1] <= m);
                assert(first@[to as int] == count_below(*g, m as int, to as int));
                assert(first@[to + 1] == count_below(*g, m as int, to + 1));
            }
            let slot_val = next[to + 1] - 1;
            next.set(to + 1, slot_val);
            let slot = slot_val as usize;
            retaining_nodes.set(slot, src as u32);
            retaining_edges.set(slot, ei as u32);
            proof {
                assert(g.is_out_edge(src as int, ei as int));
                assert forall|t: int|
                    0 <= t < n implies #[trigger] next_at(next@, t) == next_at(first@, t) - count_to(
                    *g,
                    ei as int + 1,
                    t,
                ) by {
                    lemma_count_to_step(*g, ei as int, t);
                    assert(next_at(old_next, t) == next_at(first@, t) - count_to(*g, ei as int, t));
                }
                assert forall|t: int, s: int|
                    #![trigger next_at(next@, t), retaining_edges@[s]]
                    0 <= t < n && next_at(next@, t) <= s < next_at(first@, t) implies {
                    &&& retaining_edges@[s] < ei + 1
                    &&& g.edge_target(retaining_edges@[s] as int) == t
                    &&& retaining_nodes@[s] < n
                    &&& g.is_out_edge(retaining_nodes@[s] as int, retaining_edges@[s] as int)
                } by {
                    lemma_count_to_step(*g, ei as int, t);
                    assert(next_at(old_next, t) == next_at(first@, t) - count_to(*g, ei as int, t));
                    assert(first@[t] == count_below(*g, m as int, t));
                    assert(first@[t + 1] == count_below(*g, m as int, t + 1));
                    if s == slot && t != to {
                        lemma_count_to_mono(*g, ei as int, m as int, t);
                        lemma_ranges_disjoint(*g, m as int, t, to as int, s);
                    }
                    if s != slot {
                        if t == to {
                            assert(next_at(old_next, t) <= s);
                        } else {
                            assert(next_at(old_next, t) == next_at(next@, t));
                        }
                        assert(old_edges[s] == retaining_edges@[s]);
                        assert(old_nodes[s] == retaining_nodes@[s]);
                        assert(next_at(old_next, t) <= s < next_at(first@, t));
                    }
                }
                assert forall|t: int, s1: int, s2: int|
                    #![trigger next_at(next@, t), retaining_edges@[s1], retaining_edges@[s2]]
                    0 <= t < n && next_at(next@, t) <= s1 < s2 < next_at(first@, t) implies retaining_edges@[s1]
                        > retaining_edges@[s2] by {
                    lemma_count_to_step(*g, ei as int, t);
                    assert(next_at(old_next, t) == next_at(first@, t) - count_to(*g, ei as int, t));
                    assert(first@[t] == count_below(*g, m as int, t));
                    assert(first@[t + 1] == count_below(*g, m as int, t + 1));
                    lemma_count_to_mono(*g, ei as int, m as int, t);
                    if t == to {
                        assert(old_edges[s2] == retaining_edges@[s2]);
                        assert(next_at(old_next, t) <= s2 < next_at(first@, t));
                        if s1 == slot {
                            assert(old_edges[s2] < ei);
                        } else {
                            assert(old_edges[s1] == retaining_edges@[s1]);
                            assert(next_at(old_next, t) <= s1);
                        }
                    } else {
                        if s1 == slot {
                            lemma_ranges_disjoint(*g, m as int, t, to as int, s1);
                        }
                        if s2 == slot {
                            lemma_ranges_disjoint(*g, m as int, t, to as int, s2);
                        }
                        assert(next_at(old_next, t) == next_at(next@, t));
                        assert(old_edges[s1] == retaining_edges@[s1]);
                        assert(old_edges[s2] == retaining_edges@[s2]);
                    }
                }
                assert forall|f: int|
                    0 <= f < ei + 1 implies #[trigger] slot_holds(next@, first@, retaining_edges@, f, g.edge_target(f)) by {
                    if f == ei {
                        assert(retaining_edges@[slot as int] == f);
                        assert(next_at(next@, to as int) == slot);
                    } else {
                        let tf = g.edge_target(f);
                        assert(0 <= tf < n);
                        assert(slot_holds(old_next, first@, old_edges, f, tf));
                        let s0 = choose|s: int|
                            next_at(old_next, tf) <= s < next_at(first@, tf) && old_edges[s] == f;
                        assert(next_at(old_next, tf) == next_at(first@, tf) - count_to(*g, ei as int, tf));
                        lemma_count_to_step(*g, ei as int, tf);
                        assert(next_at(old_next, tf) <= next_at(next@, tf) + 1);
                        assert(first@[tf] == count_below(*g, m as int, tf));
                        assert(first@[tf + 1] == count_below(*g, m as int, tf + 1));
                        lemma_count_to_mono(*g, ei as int, m as int, tf);
                        if s0 == slot {
                            if tf != to {
                                lemma_ranges_disjoint(*g, m as int, tf, to as int, s0);
                            }
                        }
                        assert(retaining_edges@[s0] == f);
                        assert(next_at(next@, tf) <= s0);
                    }
                }
            }
            ei += 1;
        }
        proof {
            k = ei as int;
            if src + 1 < n {
                assert(g.edge_end(src as int) == g.edge_begin(src + 1));
            }
        }
        src += 1;
    }
    let r = RetainerIndex {
        retaining_nodes,
        retaining_edges,
        first_retainer_index: first,
    };
    proof {
        assert forall|t: int| 0 <= t < n implies #[trigger] next_at(next@, t) == first@[t] by {
        }
        assert forall|t: int| 0 <= t < n implies #[trigger] r.range_end(t) == r.range_begin(t)
            + count_to(*g, m as int, t) by {
            assert(next_at(first@, t) == first@[t] + count_to(*g, m as int, t));
        }
        assert forall|t: int, s: int|
            #![trigger r.range_end(t), r.retaining_edges@[s]]
            0 <= t < n && r.range_begin(t) <= s < r.range_end(t) implies {
            &&& r.retaining_edges@[s] < m
            &&& g.edge_target(r.retaining_edges@[s] as int) == t
            &&& r.retaining_nodes@[s] < n
            &&& g.is_out_edge(r.retaining_nodes@[s] as int, r.retaining_edges@[s] as int)
        } by {
            assert(next_at(next@, t) == first@[t]);
            assert(next_at(next@, t) <= s < next_at(first@, t));
        }
        assert forall|t: int, s1: int, s2: int|
            #![trigger r.range_end(t), r.retaining_edges@[s1], r.retaining_edges@[s2]]
            0 <= t < n && r.range_begin(t) <= s1 < s2 < r.range_end(t) implies r.retaining_edges@[s1]
                > r.retaining_edges@[s2] by {
            assert(next_at(next@, t) == first@[t]);
            assert(next_at(next@, t) <= s1 < s2 < next_at(first@, t));
        }
        assert forall|e: int|
            #![trigger g.edge_target(e)]
            0 <= e < m implies exists|s: int|
            r.range_begin(g.edge_target(e)) <= s < r.range_end(g.edge_target(e))
                && #[trigger] r.retaining_edges@[s] == e by {
            let te = g.edge_target(e);
            assert(slot_holds(next@, first@, retaining_edges@, e, te));
            let s0 = choose|s: int|
                next_at(next@, te) <= s < next_at(first@, te) && retaining_edges@[s] == e;
            assert(next_at(next@, te) == first@[te]);
            assert(r.range_begin(te) <= s0 < r.range_end(te));
            assert(r.retaining_edges@[s0] == e);
        }
    }
    r
}

} // verus!
