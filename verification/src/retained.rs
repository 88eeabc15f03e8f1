use vstd::prelude::*;
use crate::graph::Graph;
use crate::lengauer_tarjan::{tree_ordered, in_order};
use crate::statistics::saturated;

verus! {

/// The retained sizes of the nodes among the first `m` of `order` whose
/// immediate dominator is `v`, summed.
pub open spec fn dominated_sum(idom: Seq<u32>, order: Seq<u32>, sizes: Seq<u64>, v: int, m: int) -> int
    decreases m,
{
    if m <= 0 {
        0
    } else {
        dominated_sum(idom, order, sizes, v, m - 1) + if idom[order[m - 1] as int] == v {
            sizes[order[m - 1] as int] as int
        } else {
            0
        }
    }
}

/// The same sum, with the size of each position's node as it was taken.
spec fn taken_sum(idom: Seq<u32>, order: Seq<u32>, taken: Seq<u64>, v: int, m: int) -> int
    decreases m,
{
    if m <= 0 {
        0
    } else {
        taken_sum(idom, order, taken, v, m - 1) + if idom[order[m - 1] as int] == v { taken[m - 1] as int } else { 0 }
    }
}

proof fn lemma_taken_sum(idom: Seq<u32>, order: Seq<u32>, taken: Seq<u64>, sizes: Seq<u64>, v: int, m: int)
    requires
        0 <= m <= taken.len(),
        m <= order.len(),
        forall|k: int| 0 <= k < m ==> #[trigger] taken[k] == sizes[order[k] as int],
    ensures
        taken_sum(idom, order, taken, v, m) == dominated_sum(idom, order, sizes, v, m),
    decreases m,
{
    if m > 0 {
        lemma_taken_sum(idom, order, taken, sizes, v, m - 1);
        assert(taken[m - 1] == sizes[order[m - 1] as int]);
    }
}

/// The retained sizes of the nodes below `m`, other than `gc`, whose
/// immediate dominator is `v`, summed.
pub open spec fn dominated_nodes_sum(idom: Seq<u32>, sizes: Seq<u64>, gc: int, v: int, m: int) -> int
    decreases m,
{
    if m <= 0 {
        0
    } else {
        dominated_nodes_sum(idom, sizes, gc, v, m - 1) + if m - 1 != gc && idom[m - 1] == v { sizes[m - 1] as int } else { 0 }
    }
}

/// Node `c` is among the first `l` of `order`.
pub open spec fn in_prefix(order: Seq<u32>, l: int, c: int) -> bool {
    exists|k: int| 0 <= k < l && order[k] == c
}

/// The sizes of the nodes below `m` that are among the first `l` of
/// `order` and dominated by `v`, summed.
spec fn prefix_nodes_sum(idom: Seq<u32>, order: Seq<u32>, sizes: Seq<u64>, v: int, l: int, m: int) -> int
    decreases m,
{
    if m <= 0 {
        0
    } else {
        prefix_nodes_sum(idom, order, sizes, v, l, m - 1) + if in_prefix(order, l, m - 1) && idom[m - 1] == v {
            sizes[m - 1] as int
        } else {
            0
        }
    }
}

proof fn lemma_prefix_step(idom: Seq<u32>, order: Seq<u32>, sizes: Seq<u64>, v: int, l: int, m: int)
    requires
        0 <= l < order.len(),
        !in_prefix(order, l, order[l] as int),
        m >= 0,
    ensures
        prefix_nodes_sum(idom, order, sizes, v, l + 1, m) == prefix_nodes_sum(idom, order, sizes, v, l, m) + if order[l] < m
            && idom[order[l] as int] == v {
            sizes[order[l] as int] as int
        } else {
            0
        },
    decreases m,
{
    if m > 0 {
        lemma_prefix_step(idom, order, sizes, v, l, m - 1);
        let c = m - 1;
        if c == order[l] {
            assert(in_prefix(order, l + 1, c));
        } else {
            if in_prefix(order, l + 1, c) {
                let k = choose|k: int| 0 <= k < l + 1 && order[k] == c;
                assert(in_prefix(order, l, c));
            }
            if in_prefix(order, l, c) {
                let k = choose|k: int| 0 <= k < l && order[k] == c;
                assert(in_prefix(order, l + 1, c));
            }
        }
    }
}

proof fn lemma_prefix_empty(idom: Seq<u32>, order: Seq<u32>, sizes: Seq<u64>, v: int, m: int)
    requires
        m >= 0,
    ensures
        prefix_nodes_sum(idom, order, sizes, v, 0, m) == 0,
    decreases m,
{
    if m > 0 {
        lemma_prefix_empty(idom, order, sizes, v, m - 1);
    }
}

proof fn lemma_dominated_prefix(idom: Seq<u32>, order: Seq<u32>, sizes: Seq<u64>, v: int, l: int, n: int)
    requires
        0 <= l <= order.len(),
        n >= 0,
        forall|k: int| 0 <= k < order.len() ==> #[trigger] order[k] < n,
        forall|k: int, k2: int| 0 <= k < k2 < order.len() ==> #[trigger] order[k] != #[trigger] order[k2],
    ensures
        dominated_sum(idom, order, sizes, v, l) == prefix_nodes_sum(idom, order, sizes, v, l, n),
    decreases l,
{
    if l == 0 {
        lemma_prefix_empty(idom, order, sizes, v, n);
    } else {
        lemma_dominated_prefix(idom, order, sizes, v, l - 1, n);
        if in_prefix(order, l - 1, order[l - 1] as int) {
            let k = choose|k: int| 0 <= k < l - 1 && #[trigger] order[k] == order[l - 1];
            assert(order[k] != order[l - 1]);
        }
        lemma_prefix_step(idom, order, sizes, v, l - 1, n);
    }
}

proof fn lemma_prefix_all(idom: Seq<u32>, order: Seq<u32>, sizes: Seq<u64>, gc: int, v: int, m: int)
    requires
        m >= 0,
        forall|c: int| 0 <= c < m ==> (in_prefix(order, order.len() as int, c) <==> c != gc),
    ensures
        prefix_nodes_sum(idom, order, sizes, v, order.len() as int, m) == dominated_nodes_sum(idom, sizes, gc, v, m),
    decreases m,
{
    if m > 0 {
        lemma_prefix_all(idom, order, sizes, gc, v, m - 1);
        assert(in_prefix(order, order.len() as int, m - 1) <==> m - 1 != gc);
    }
}

/// Summing over `order`, which holds every node but `gc` once, is summing
/// over the nodes other than `gc`.
pub proof fn lemma_dominated_sum_by_node(idom: Seq<u32>, order: Seq<u32>, sizes: Seq<u64>, gc: int, v: int, n: int)
    requires
        n >= 0,
        forall|k: int| 0 <= k < order.len() ==> #[trigger] order[k] < n && order[k] != gc,
        forall|k: int, k2: int| 0 <= k < k2 < order.len() ==> #[trigger] order[k] != #[trigger] order[k2],
        forall|c: int| 0 <= c < n && c != gc ==> #[trigger] in_order(order, c),
    ensures
        dominated_sum(idom, order, sizes, v, order.len() as int) == dominated_nodes_sum(idom, sizes, gc, v, n),
{
    lemma_dominated_prefix(idom, order, sizes, v, order.len() as int, n);
    assert forall|c: int| 0 <= c < n implies (in_prefix(order, order.len() as int, c) <==> c != gc) by {
        if c != gc {
            assert(in_order(order, c));
            let k = choose|k: int| 0 <= k < order.len() && order[k] == c;
            assert(in_prefix(order, order.len() as int, c));
        } else if in_prefix(order, order.len() as int, c) {
            let k = choose|k: int| 0 <= k < order.len() && order[k] == c;
            assert(order[k] != gc);
        }
    }
    lemma_prefix_all(idom, order, sizes, gc, v, n);
}

/// The self sizes of the nodes below `m`, summed.
pub open spec fn self_size_total(g: Graph, m: int) -> int
    decreases m,
{
    if m <= 0 {
        0
    } else {
        self_size_total(g, m - 1) + g.self_size(m - 1)
    }
}

/// The sizes of the nodes below `m` that are not among the first `l` of
/// `order`, summed.
pub open spec fn open_weight(sizes: Seq<u64>, order: Seq<u32>, l: int, m: int) -> int
    decreases m,
{
    if m <= 0 {
        0
    } else {
        open_weight(sizes, order, l, m - 1) + if in_prefix(order, l, m - 1) { 0 } else { sizes[m - 1] as int }
    }
}

proof fn lemma_self_total_bound(g: Graph, m: int)
    requires
        0 <= m <= g.node_count(),
    ensures
        0 <= self_size_total(g, m) <= m * 0xffff_ffff,
    decreases m,
{
    if m > 0 {
        lemma_self_total_bound(g, m - 1);
    }
}

proof fn lemma_open_weight_start(g: Graph, sizes: Seq<u64>, order: Seq<u32>, m: int)
    requires
        0 <= m <= sizes.len(),
        m <= g.node_count(),
        forall|u: int| 0 <= u < m ==> #[trigger] sizes[u] == g.self_size(u),
    ensures
        open_weight(sizes, order, 0, m) == self_size_total(g, m),
    decreases m,
{
    if m > 0 {
        lemma_open_weight_start(g, sizes, order, m - 1);
    }
}

/// Two different nodes that are not yet among the first `l` of `order`
/// have sizes summing to at most the open weight.
proof fn lemma_open_pair(sizes: Seq<u64>, order: Seq<u32>, l: int, m: int, a: int, b: int)
    requires
        0 <= a < m,
        0 <= b < m,
        a != b,
        !in_prefix(order, l, a),
        !in_prefix(order, l, b),
    ensures
        sizes[a] + sizes[b] <= open_weight(sizes, order, l, m),
    decreases m,
{
    lemma_open_nonneg(sizes, order, l, m - 1);
    if a < m - 1 && b < m - 1 {
        lemma_open_pair(sizes, order, l, m - 1, a, b);
    } else if a < m - 1 {
        lemma_open_single(sizes, order, l, m - 1, a);
    } else {
        lemma_open_single(sizes, order, l, m - 1, b);
    }
}

proof fn lemma_open_nonneg(sizes: Seq<u64>, order: Seq<u32>, l: int, m: int)
    ensures
        open_weight(sizes, order, l, m) >= 0,
    decreases m,
{
    if m > 0 {
        lemma_open_nonneg(sizes, order, l, m - 1);
    }
}

proof fn lemma_open_single(sizes: Seq<u64>, order: Seq<u32>, l: int, m: int, a: int)
    requires
        0 <= a < m,
        !in_prefix(order, l, a),
    ensures
        sizes[a] <= open_weight(sizes, order, l, m),
    decreases m,
{
    lemma_open_nonneg(sizes, order, l, m - 1);
    if a < m - 1 {
        lemma_open_single(sizes, order, l, m - 1, a);
    }
}

/// Taking node `o` (the next of `order`) out and adding its size to node
/// `d`, which stays in, keeps the open weight.
proof fn lemma_open_step(sizes: Seq<u64>, sizes2: Seq<u64>, order: Seq<u32>, l: int, o: int, d: int, m: int)
    requires
        0 <= l < order.len(),
        o == order[l],
        !in_prefix(order, l, o),
        !in_prefix(order, l + 1, d),
        d != o,
        0 <= d < sizes.len(),
        sizes2.len() == sizes.len(),
        0 <= o < sizes.len(),
        sizes2[d] == sizes[d] + sizes[o],
        forall|u: int| 0 <= u < sizes.len() && u != d ==> sizes2[u] == sizes[u],
        0 <= m <= sizes.len(),
    ensures
        open_weight(sizes2, order, l + 1, m) == open_weight(sizes, order, l, m) - (if o < m { sizes[o] as int } else { 0 }) + (if d
            < m {
            sizes[o] as int
        } else {
            0
        }),
    decreases m,
{
    if m > 0 {
        lemma_open_step(sizes, sizes2, order, l, o, d, m - 1);
        let c = m - 1;
        if c == o {
            assert(in_prefix(order, l + 1, c));
        } else {
            if in_prefix(order, l + 1, c) {
                let k = choose|k: int| 0 <= k < l + 1 && order[k] == c;
                assert(in_prefix(order, l, c));
            }
            if in_prefix(order, l, c) {
                let k = choose|k: int| 0 <= k < l && order[k] == c;
                assert(in_prefix(order, l + 1, c));
            }
        }
    }
}

/// When `order` holds every node but `gc`, the open weight after all of
/// it is `gc`'s size.
pub proof fn lemma_open_weight_end(sizes: Seq<u64>, order: Seq<u32>, gc: int, m: int)
    requires
        0 <= m <= sizes.len(),
        0 <= gc,
        forall|j: int| 0 <= j < order.len() ==> #[trigger] order[j] != gc,
        forall|c: int| 0 <= c < m && c != gc ==> #[trigger] in_order(order, c),
    ensures
        open_weight(sizes, order, order.len() as int, m) == if gc < m { sizes[gc] as int } else { 0 },
    decreases m,
{
    if m > 0 {
        lemma_open_weight_end(sizes, order, gc, m - 1);
        let c = m - 1;
        if c != gc {
            assert(in_order(order, c));
            let k = choose|k: int| 0 <= k < order.len() && order[k] == c;
            assert(in_prefix(order, order.len() as int, c));
        } else if in_prefix(order, order.len() as int, c) {
            let k = choose|k: int| 0 <= k < order.len() && order[k] == c;
            assert(order[k] != gc);
        }
    }
}

/// The weight of the nodes outside `order`: the sizes of the nodes not in
/// `order`, summed.
pub open spec fn outside_weight(sizes: Seq<u64>, order: Seq<u32>) -> int {
    open_weight(sizes, order, order.len() as int, sizes.len() as int)
}

/// Retained sizes over the dominator tree: each node starts with its own
/// size, and the nodes in `order` add their retained size to their
/// immediate dominator's. Sums saturate at `u64::MAX`. Where each node of
/// `order` comes before its dominator, a node's retained size is its self
/// size plus the retained sizes of the nodes of `order` it immediately
/// dominates.
pub fn calculate_retained_sizes(g: &Graph, idom: &Vec<u32>, order: &Vec<u32>) -> (r: Vec<u64>)
    requires
        g.wf(),
        idom@.len() == g.node_count(),
        forall|v: int| 0 <= v < g.node_count() ==> #[trigger] idom@[v] < g.node_count(),
        forall|k: int| 0 <= k < order@.len() ==> #[trigger] order@[k] < g.node_count(),
    ensures
        r@.len() == g.node_count(),
        forall|v: int| 0 <= v < g.node_count() ==> #[trigger] r@[v] >= g.self_size(v),
        tree_ordered(idom@, order@) ==> forall|v: int| 0 <= v < g.node_count() ==> #[trigger] r@[v] == saturated(
            g.self_size(v) + dominated_sum(idom@, order@, r@, v, order@.len() as int),
        ),
        tree_ordered(idom@, order@) ==> outside_weight(r@, order@) == self_size_total(*g, g.node_count() as int),
{
    let n = g.nodes.len();
    let mut sizes: Vec<u64> = Vec::with_capacity(n);
    let mut v: usize = 0;
    while v < n
        invariant
            g.wf(),
            n == g.node_count(),
            v <= n,
            sizes@.len() == v,
            forall|u: int| 0 <= u < v ==> #[trigger] sizes@[u] == g.self_size(u),
        decreases n - v,
    {
        sizes.push(g.nodes[v].self_size as u64);
        v += 1;
    }
    let ghost mut taken: Seq<u64> = Seq::empty();
    proof {
        lemma_open_weight_start(*g, sizes@, order@, n as int);
        lemma_self_total_bound(*g, n as int);
        assert(n * 0xffff_ffff < 0x8000_0000_0000_0000) by (nonlinear_arith)
            requires
                n < 0x7fff_0000,
        ;
    }
    let mut k: usize = 0;
    while k < order.len()
        invariant
            g.wf(),
            n == g.node_count(),
            idom@.len() == n,
            forall|u: int| 0 <= u < n ==> #[trigger] idom@[u] < n,
            forall|j: int| 0 <= j < order@.len() ==> #[trigger] order@[j] < n,
            sizes@.len() == n,
            k <= order@.len(),
            taken.len() == k,
            forall|u: int| 0 <= u < n ==> #[trigger] sizes@[u] >= g.self_size(u),
            tree_ordered(idom@, order@) ==> forall|u: int| 0 <= u < n ==> #[trigger] sizes@[u] == saturated(
                g.self_size(u) + taken_sum(idom@, order@, taken, u, k as int),
            ),
            tree_ordered(idom@, order@) ==> forall|j: int| 0 <= j < k ==> #[trigger] taken[j] == sizes@[order@[j] as int],
            tree_ordered(idom@, order@) ==> open_weight(sizes@, order@, k as int, n as int) == self_size_total(*g, n as int),
            self_size_total(*g, n as int) < 0x8000_0000_0000_0000,
        decreases order@.len() - k,
    {
        let o = order[k] as usize;
        let d = idom[o] as usize;
        let add = sizes[o];
        let cur = sizes[d];
        let ghost before = sizes@;
        proof {
            if tree_ordered(idom@, order@) {
                assert(idom@[order@[k as int] as int] != order@[k as int]);
                if in_prefix(order@, k as int, o as int) {
                    let j = choose|j: int| 0 <= j < k && order@[j] == o;
                    assert(order@[j] != order@[k as int]);
                }
                if in_prefix(order@, k + 1, d as int) {
                    let j = choose|j: int| 0 <= j < k + 1 && order@[j] == d;
                    assert(idom@[order@[k as int] as int] != order@[j]);
                }
                lemma_open_pair(before, order@, k as int, n as int, d as int, o as int);
            }
        }
        sizes.set(d, cur.saturating_add(add));
        proof {
            let t2 = taken.push(add);
            if tree_ordered(idom@, order@) {
                lemma_open_step(before, sizes@, order@, k as int, o as int, d as int, n as int);
                assert(idom@[order@[k as int] as int] != order@[k as int]);
                assert forall|u: int| 0 <= u < n implies #[trigger] sizes@[u] == saturated(
                    g.self_size(u) + taken_sum(idom@, order@, t2, u, k + 1),
                ) by {
                    assert(taken_sum(idom@, order@, t2, u, k as int) == taken_sum(idom@, order@, taken, u, k as int)) by {
                        lemma_taken_prefix(idom@, order@, taken, t2, u, k as int);
                    }
                    assert(before[u] == saturated(g.self_size(u) + taken_sum(idom@, order@, taken, u, k as int)));
                }
                assert forall|j: int| 0 <= j < k + 1 implies #[trigger] t2[j] == sizes@[order@[j] as int] by {
                    if j < k {
                        assert(order@[j] != idom@[order@[k as int] as int]);
                        assert(t2[j] == taken[j]);
                    }
                }
            }
            taken = t2;
        }
        k += 1;
    }
    proof {
        if tree_ordered(idom@, order@) {
            assert(outside_weight(sizes@, order@) == open_weight(sizes@, order@, order@.len() as int, n as int));
            assert forall|u: int| 0 <= u < n implies #[trigger] sizes@[u] == saturated(
                g.self_size(u) + dominated_sum(idom@, order@, sizes@, u, order@.len() as int),
            ) by {
                lemma_taken_sum(idom@, order@, taken, sizes@, u, order@.len() as int);
            }
        }
    }
    sizes
}

/// Sums over a recorded prefix do not see what is recorded after it.
proof fn lemma_taken_prefix(idom: Seq<u32>, order: Seq<u32>, a: Seq<u64>, b: Seq<u64>, v: int, m: int)
    requires
        0 <= m <= a.len(),
        m <= b.len(),
        forall|j: int| 0 <= j < m ==> #[trigger] a[j] == b[j],
    ensures
        taken_sum(idom, order, a, v, m) == taken_sum(idom, order, b, v, m),
    decreases m,
{
    if m > 0 {
        lemma_taken_prefix(idom, order, a, b, v, m - 1);
    }
}

/// The node reached from `v` by following immediate dominators `k` times.
pub open spec fn dominator_after(idom: Seq<u32>, v: int, k: nat) -> int
    decreases k,
{
    if k == 0 {
        v
    } else {
        dominator_after(idom, idom[v] as int, (k - 1) as nat)
    }
}

/// Following immediate dominators from any node reaches `gc` within as
/// many steps as there are nodes: the dominators form a tree under `gc`.
pub open spec fn dominator_chains_end(idom: Seq<u32>, gc: int) -> bool {
    forall|v: int| 0 <= v < idom.len() ==> #[trigger] dominator_after(idom, v, idom.len()) == gc
}

proof fn lemma_root_fixed(idom: Seq<u32>, gc: int, m: nat)
    requires
        0 <= gc < idom.len(),
        idom[gc] == gc,
    ensures
        dominator_after(idom, gc, m) == gc,
    decreases m,
{
    if m > 0 {
        lemma_root_fixed(idom, gc, (m - 1) as nat);
    }
}

proof fn lemma_chain_from(idom: Seq<u32>, order: Seq<u32>, gc: int, n: int, k: int, m: nat)
    requires
        idom.len() == n,
        0 <= gc < n,
        idom[gc] == gc,
        forall|v: int| 0 <= v < n ==> #[trigger] idom[v] < n,
        forall|j: int| 0 <= j < order.len() ==> #[trigger] order[j] < n && order[j] != gc,
        forall|c: int| 0 <= c < n && c != gc ==> #[trigger] in_order(order, c),
        tree_ordered(idom, order),
        0 <= k < order.len(),
        m >= order.len() - k,
    ensures
        dominator_after(idom, order[k] as int, m) == gc,
    decreases order.len() - k,
{
    let v = order[k] as int;
    let d = idom[v] as int;
    assert(dominator_after(idom, v, m) == dominator_after(idom, d, (m - 1) as nat));
    if d == gc {
        lemma_root_fixed(idom, gc, (m - 1) as nat);
    } else {
        assert(in_order(order, d));
        let k2 = choose|k2: int| 0 <= k2 < order.len() && order[k2] == d;
        if k2 <= k {
            assert(idom[order[k] as int] != order[k2]);
        }
        lemma_chain_from(idom, order, gc, n, k2, (m - 1) as nat);
    }
}

/// Where every node but `gc` is in `order`, each before its dominator,
/// following immediate dominators from any node reaches `gc`.
pub proof fn lemma_chains_end(idom: Seq<u32>, order: Seq<u32>, gc: int, n: int)
    requires
        idom.len() == n,
        0 <= gc < n,
        idom[gc] == gc,
        order.len() == n - 1,
        forall|v: int| 0 <= v < n ==> #[trigger] idom[v] < n,
        forall|j: int| 0 <= j < order.len() ==> #[trigger] order[j] < n && order[j] != gc,
        forall|c: int| 0 <= c < n && c != gc ==> #[trigger] in_order(order, c),
        tree_ordered(idom, order),
    ensures
        dominator_chains_end(idom, gc),
{
    assert forall|v: int| 0 <= v < idom.len() implies #[trigger] dominator_after(idom, v, idom.len()) == gc by {
        if v == gc {
            lemma_root_fixed(idom, gc, idom.len());
        } else {
            assert(in_order(order, v));
            let k = choose|k: int| 0 <= k < order.len() && order[k] == v;
            lemma_chain_from(idom, order, gc, n, k, idom.len());
        }
    }
}

} // verus!
