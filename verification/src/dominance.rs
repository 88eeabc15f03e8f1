use vstd::prelude::*;
use crate::graph::Graph;
use crate::lengauer_tarjan::{ancestor_at, in_order, tree_ordered};
use crate::dominators::{essential_path, essential_step, essential_edge, key_side_ephemeron};

verus! {

/// Some edge of node `u` that `ess` marks leads to node `w`.
pub open spec fn marked_step(g: Graph, ess: Seq<bool>, u: int, w: int) -> bool {
    exists|e: int| #[trigger] g.is_out_edge(u, e) && ess[e] && g.edge_target(e) == w
}

/// `p` is a walk over marked edges that starts at the GC roots.
pub open spec fn marked_path(g: Graph, ess: Seq<bool>, p: Seq<int>) -> bool {
    &&& p.len() > 0
    &&& p[0] == g.gc_roots_ordinal as int
    &&& forall|i: int| 0 <= i < p.len() ==> 0 <= #[trigger] p[i] < g.node_count()
    &&& forall|i: int| 1 <= i < p.len() ==> #[trigger] marked_step(g, ess, p[i - 1], p[i])
}

/// Node `a` is `v` or one of its ancestors in the tree `idom`.
pub open spec fn tree_above(idom: Seq<u32>, a: int, v: int) -> bool {
    exists|k: nat| #[trigger] ancestor_at(idom, v, k) == a
}

/// A tree over the nodes, rooted at the GC roots.
pub open spec fn tree_valid(g: Graph, idom: Seq<u32>) -> bool {
    &&& idom.len() == g.node_count()
    &&& forall|v: int| 0 <= v < g.node_count() ==> #[trigger] idom[v] < g.node_count()
    &&& idom[g.gc_roots_ordinal as int] == g.gc_roots_ordinal
}

/// `reach` marks the GC roots and every node that a marked edge leads to
/// from a marked node.
pub open spec fn reach_closed(g: Graph, ess: Seq<bool>, reach: Seq<bool>) -> bool {
    &&& reach.len() == g.node_count()
    &&& reach[g.gc_roots_ordinal as int]
    &&& forall|u: int, e: int|
        0 <= u < g.node_count() && reach[u] && #[trigger] g.is_out_edge(u, e) && ess[e] ==> reach[g.edge_target(e)]
}

/// Every marked edge from a node of `reach` to a node `w` other than the
/// GC roots leaves a node that `idom[w]` is above.
pub open spec fn parent_property(g: Graph, ess: Seq<bool>, reach: Seq<bool>, idom: Seq<u32>) -> bool {
    forall|u: int, e: int|
        0 <= u < g.node_count() && reach[u] && #[trigger] g.is_out_edge(u, e) && ess[e] && g.edge_target(e)
            != g.gc_roots_ordinal ==> tree_above(idom, idom[g.edge_target(e)] as int, u)
}

/// Every walk over marked edges from the GC roots to another node passes
/// through that node's immediate dominator.
pub open spec fn idom_on_every_path(g: Graph, ess: Seq<bool>, idom: Seq<u32>) -> bool {
    forall|p: Seq<int>|
        #[trigger] marked_path(g, ess, p) && p.last() != g.gc_roots_ordinal ==> p.contains(idom[p.last()] as int)
}

/// Going up `k + 1` steps from `v` is going up `k` steps from its parent.
pub proof fn lemma_ancestor_shift(anc: Seq<u32>, v: int, k: nat)
    ensures
        ancestor_at(anc, v, k + 1) == ancestor_at(anc, anc[v] as int, k),
    decreases k,
{
    assert(ancestor_at(anc, v, 0) == v);
    if k > 0 {
        lemma_ancestor_shift(anc, v, (k - 1) as nat);
        assert(ancestor_at(anc, v, k + 1) == anc[ancestor_at(anc, v, k)] as int);
        assert(ancestor_at(anc, anc[v] as int, k) == anc[ancestor_at(anc, anc[v] as int, (k - 1) as nat)] as int);
    } else {
        assert(ancestor_at(anc, anc[v] as int, 0) == anc[v] as int);
        assert(ancestor_at(anc, v, 1) == anc[ancestor_at(anc, v, 0)] as int);
    }
}

/// Going up `m` steps and then `k` steps is going up `m + k` steps.
pub proof fn lemma_ancestor_compose(anc: Seq<u32>, v: int, m: nat, k: nat)
    ensures
        ancestor_at(anc, ancestor_at(anc, v, m), k) == ancestor_at(anc, v, m + k),
    decreases k,
{
    if k > 0 {
        lemma_ancestor_compose(anc, v, m, (k - 1) as nat);
        assert(ancestor_at(anc, v, m + k) == anc[ancestor_at(anc, v, (m + k - 1) as nat)] as int);
    }
}

/// The root is its own parent, so going up from it stays there.
pub proof fn lemma_ancestor_root(anc: Seq<u32>, r: int, k: nat)
    requires
        0 <= r < anc.len(),
        anc[r] == r,
    ensures
        ancestor_at(anc, r, k) == r,
    decreases k,
{
    if k > 0 {
        lemma_ancestor_root(anc, r, (k - 1) as nat);
    }
}

/// Along a walk from the GC roots, every node is in `reach` and every node
/// above the `j`-th one occurs at or before position `j`.
proof fn lemma_path_prefix(g: Graph, ess: Seq<bool>, reach: Seq<bool>, idom: Seq<u32>, p: Seq<int>, j: int)
    requires
        g.wf(),
        tree_valid(g, idom),
        reach_closed(g, ess, reach),
        parent_property(g, ess, reach, idom),
        marked_path(g, ess, p),
        0 <= j < p.len(),
    ensures
        reach[p[j]],
        forall|k: nat| #![trigger ancestor_at(idom, p[j], k)]
            exists|i: int| 0 <= i <= j && p[i] == ancestor_at(idom, p[j], k),
    decreases j,
{
    let gc = g.gc_roots_ordinal as int;
    if j == 0 || p[j] == gc {
        if j > 0 {
            lemma_path_prefix(g, ess, reach, idom, p, j - 1);
            let e = choose|e: int| #[trigger] g.is_out_edge(p[j - 1], e) && ess[e] && g.edge_target(e) == p[j];
            assert(marked_step(g, ess, p[j - 1], p[j]));
            assert(0 <= p[j - 1] < g.node_count());
        }
        assert forall|k: nat| #![trigger ancestor_at(idom, p[j], k)]
            exists|i: int| 0 <= i <= j && p[i] == ancestor_at(idom, p[j], k) by {
            lemma_ancestor_root(idom, gc, k);
            assert(p[0] == ancestor_at(idom, p[j], k));
        }
    } else {
        lemma_path_prefix(g, ess, reach, idom, p, j - 1);
        let u = p[j - 1];
        let w = p[j];
        assert(marked_step(g, ess, u, w));
        let e = choose|e: int| #[trigger] g.is_out_edge(u, e) && ess[e] && g.edge_target(e) == w;
        assert(0 <= u < g.node_count());
        assert(reach[w]);
        assert(tree_above(idom, idom[w] as int, u));
        let m = choose|m: nat| #[trigger] ancestor_at(idom, u, m) == idom[w] as int;
        assert forall|k: nat| #![trigger ancestor_at(idom, p[j], k)]
            exists|i: int| 0 <= i <= j && p[i] == ancestor_at(idom, p[j], k) by {
            if k == 0 {
                assert(p[j] == ancestor_at(idom, p[j], k));
            } else {
                let k1 = (k - 1) as nat;
                lemma_ancestor_shift(idom, w, k1);
                lemma_ancestor_compose(idom, u, m, k1);
                assert(ancestor_at(idom, w, k) == ancestor_at(idom, u, m + k1));
                let kk = m + k1;
                assert(ancestor_at(idom, p[j - 1], kk) == ancestor_at(idom, u, kk));
                let i = choose|i: int| #![trigger p[i]] 0 <= i <= j - 1 && p[i] == ancestor_at(idom, p[j - 1], kk);
                assert(p[i] == ancestor_at(idom, p[j], k));
            }
        }
    }
}

/// The tree has the parent property over a set closed under marked edges
/// from the GC roots: then every walk over marked edges from the GC roots
/// to another node passes through that node's parent in the tree.
pub proof fn lemma_parent_property_dominates(g: Graph, ess: Seq<bool>, reach: Seq<bool>, idom: Seq<u32>)
    requires
        g.wf(),
        tree_valid(g, idom),
        reach_closed(g, ess, reach),
        parent_property(g, ess, reach, idom),
    ensures
        idom_on_every_path(g, ess, idom),
{
    assert forall|p: Seq<int>| #[trigger] marked_path(g, ess, p) && p.last() != g.gc_roots_ordinal implies p.contains(
        idom[p.last()] as int,
    ) by {
        let j = p.len() - 1;
        lemma_path_prefix(g, ess, reach, idom, p, j);
        assert(ancestor_at(idom, p[j], 0) == p[j]);
        assert(ancestor_at(idom, p[j], 1) == idom[p[j]] as int);
        let i = choose|i: int| #![trigger p[i]] 0 <= i <= j && p[i] == ancestor_at(idom, p[j], 1);
        assert(p[i] == idom[p.last()] as int);
    }
}

/// With `ess` marking exactly the essential edges, every walk over
/// essential edges from the GC roots is one over marked edges, so it passes
/// through the immediate dominator of the node it ends at.
pub proof fn lemma_essential_walks(g: Graph, ess: Seq<bool>, idom: Seq<u32>)
    requires
        g.wf(),
        ess.len() == g.edge_count(),
        forall|v: int, e: int|
            0 <= v < g.node_count() && #[trigger] g.is_out_edge(v, e) ==> (ess[e] <==> essential_edge(
                g,
                v,
                e,
                key_side_ephemeron(g, v, e),
            )),
        idom_on_every_path(g, ess, idom),
    ensures
        forall|p: Seq<int>|
            #[trigger] essential_path(g, p) && p.last() != g.gc_roots_ordinal ==> p.contains(idom[p.last()] as int),
{
    assert forall|p: Seq<int>| #[trigger] essential_path(g, p) && p.last() != g.gc_roots_ordinal implies p.contains(
        idom[p.last()] as int,
    ) by {
        assert forall|i: int| 1 <= i < p.len() implies #[trigger] marked_step(g, ess, p[i - 1], p[i]) by {
            assert(essential_step(g, p[i - 1], p[i]));
            let e = choose|e: int|
                #[trigger] g.is_out_edge(p[i - 1], e) && essential_edge(g, p[i - 1], e, key_side_ephemeron(g, p[i - 1], e))
                    && g.edge_target(e) == p[i];
            assert(0 <= p[i - 1] < g.node_count());
            assert(ess[e]);
        }
        assert(marked_path(g, ess, p));
    }
}

/// Number of marked entries.
pub open spec fn count_true(s: Seq<bool>) -> nat
    decreases s.len(),
{
    if s.len() == 0 {
        0
    } else {
        count_true(s.drop_last()) + if s.last() {
            1nat
        } else {
            0nat
        }
    }
}

proof fn lemma_count_true_bound(s: Seq<bool>)
    ensures
        count_true(s) <= s.len(),
    decreases s.len(),
{
    if s.len() > 0 {
        lemma_count_true_bound(s.drop_last());
    }
}

proof fn lemma_count_true_none(s: Seq<bool>)
    requires
        forall|i: int| 0 <= i < s.len() ==> !(#[trigger] s[i]),
    ensures
        count_true(s) == 0,
    decreases s.len(),
{
    if s.len() > 0 {
        lemma_count_true_none(s.drop_last());
    }
}

proof fn lemma_count_true_set(s: Seq<bool>, i: int)
    requires
        0 <= i < s.len(),
        !s[i],
    ensures
        count_true(s.update(i, true)) == count_true(s) + 1,
    decreases s.len(),
{
    let t = s.update(i, true);
    if i == s.len() - 1 {
        assert(t.drop_last() =~= s.drop_last());
    } else {
        assert(t.drop_last() =~= s.drop_last().update(i, true));
        lemma_count_true_set(s.drop_last(), i);
    }
}

/// The nodes that marked edges lead to from the GC roots.
fn reach_from_gc(g: &Graph, ess: &Vec<bool>) -> (reach: Vec<bool>)
    requires
        g.wf(),
        ess@.len() == g.edge_count(),
    ensures
        reach_closed(*g, ess@, reach@),
{
    let n = g.nodes.len();
    let gc = g.gc_roots_ordinal;
    let mut reach: Vec<bool> = Vec::new();
    let mut i: usize = 0;
    while i < n
        invariant
            i <= n,
            reach@.len() == i,
            forall|j: int| 0 <= j < i ==> !(#[trigger] reach@[j]),
        decreases n - i,
    {
        reach.push(false);
        i += 1;
    }
    proof {
        lemma_count_true_none(reach@);
        lemma_count_true_set(reach@, gc as int);
    }
    reach.set(gc, true);
    let ghost mut cnt: nat = 1;
    let mut stack: Vec<u32> = Vec::new();
    stack.push(gc as u32);
    proof {
        assert forall|u: int, e: int|
            0 <= u < n && reach@[u] && !stack@.contains(u as u32) && #[trigger] g.is_out_edge(u, e) && ess@[e]
                implies reach@[g.edge_target(e)] by {
            if u == gc as int {
                assert(stack@[0] == gc as u32);
            }
        }
    }
    while stack.len() > 0
        invariant
            g.wf(),
            ess@.len() == g.edge_count(),
            n == g.node_count(),
            gc == g.gc_roots_ordinal,
            reach@.len() == n,
            reach@[gc as int],
            cnt == count_true(reach@),
            forall|k: int| 0 <= k < stack@.len() ==> (#[trigger] stack@[k]) < n && reach@[stack@[k] as int],
            forall|k1: int, k2: int| 0 <= k1 < k2 < stack@.len() ==> stack@[k1] != stack@[k2],
            forall|u: int, e: int|
                0 <= u < n && reach@[u] && !stack@.contains(u as u32) && #[trigger] g.is_out_edge(u, e) && ess@[e]
                    ==> reach@[g.edge_target(e)],
        decreases n - cnt, stack@.len(),
    {
        proof {
            lemma_count_true_bound(reach@);
        }
        let ghost st0 = stack@;
        let u = match stack.pop() {
            Some(x) => x,
            None => 0,
        };
        let ghost s0 = stack@;
        let ghost r0 = reach@;
        let ghost c0 = cnt;
        assert(u == st0[st0.len() - 1]);
        assert(u < n);
        let (b, end) = g.node_edge_range(u as usize);
        let mut e = b;
        while e < end
            invariant
                g.wf(),
                ess@.len() == g.edge_count(),
                n == g.node_count(),
                gc == g.gc_roots_ordinal,
                u < n,
                b == g.edge_begin(u as int),
                end == g.edge_end(u as int),
                b <= e <= end,
                end <= g.edge_count(),
                reach@.len() == n,
                reach@[gc as int],
                cnt == count_true(reach@),
                r0.len() == n,
                forall|x: int| 0 <= x < n && r0[x] ==> #[trigger] reach@[x],
                stack@.len() >= s0.len(),
                forall|k: int| 0 <= k < s0.len() ==> #[trigger] stack@[k] == s0[k],
                forall|k: int| 0 <= k < stack@.len() ==> (#[trigger] stack@[k]) < n && reach@[stack@[k] as int],
                forall|k1: int, k2: int| 0 <= k1 < k2 < stack@.len() ==> stack@[k1] != stack@[k2],
                forall|x: int| 0 <= x < n && #[trigger] reach@[x] && !r0[x] ==> stack@.contains(x as u32),
                forall|e2: int| b <= e2 < e && ess@[e2] ==> #[trigger] reach@[g.edge_target(e2)],
                c0 <= cnt,
                cnt == c0 ==> stack@.len() == s0.len(),
            decreases end - e,
        {
            if ess[e] {
                let w = g.edge_to_node(e);
                if !reach[w] {
                    proof {
                        lemma_count_true_set(reach@, w as int);
                        cnt = cnt + 1;
                    }
                    reach.set(w, true);
                    let ghost sb = stack@;
                    stack.push(w as u32);
                    proof {
                        assert(stack@[stack@.len() - 1] == w as u32);
                        assert forall|x: int| 0 <= x < n && #[trigger] reach@[x] && !r0[x] implies stack@.contains(
                            x as u32,
                        ) by {
                            if x != w as int {
                                assert(sb.contains(x as u32));
                                let k = choose|k: int| 0 <= k < sb.len() && sb[k] == x as u32;
                                assert(stack@[k] == x as u32);
                            } else {
                                assert(stack@[stack@.len() - 1] == x as u32);
                            }
                        }
                    }
                }
            }
            e += 1;
        }
        proof {
            lemma_count_true_bound(reach@);
            assert forall|x: int, e2: int|
                0 <= x < n && reach@[x] && !stack@.contains(x as u32) && #[trigger] g.is_out_edge(x, e2) && ess@[e2]
                    implies reach@[g.edge_target(e2)] by {
                if !r0[x] {
                } else if x == u as int {
                } else {
                    if st0.contains(x as u32) {
                        let k = choose|k: int| 0 <= k < st0.len() && st0[k] == x as u32;
                        assert(k != st0.len() - 1);
                        assert(s0[k] == x as u32);
                        assert(stack@[k] == x as u32);
                    }
                    assert(r0[g.edge_target(e2)]);
                }
            }
        }
    }
    reach
}

/// What is kept of node `v` once its depth and jump pointer are set: the
/// jump pointer leads `jl[v]` steps up the tree, its depth is that many
/// less, and the depth is one more than the parent's.
pub open spec fn jump_ok(idom: Seq<u32>, gc: int, depth: Seq<u32>, jump: Seq<u32>, jl: Seq<nat>, v: int) -> bool {
    &&& jump[v] < idom.len()
    &&& jump[v] as int == ancestor_at(idom, v, jl[v])
    &&& depth[jump[v] as int] + jl[v] == depth[v]
    &&& (v == gc ==> depth[v] == 0)
    &&& (v != gc ==> depth[v] == depth[idom[v] as int] + 1 && jl[v] >= 1)
}

/// Every node marked in `done` has its depth and jump pointer set, with
/// depth at most `bound`, and the nodes its jump pointer and parent lead to
/// are marked too.
#[verifier::opaque]
pub open spec fn done_ok(idom: Seq<u32>, gc: int, depth: Seq<u32>, jump: Seq<u32>, jl: Seq<nat>, done: Seq<bool>, bound: int) -> bool {
    forall|x: int|
        0 <= x < idom.len() && #[trigger] done[x] ==> jump_ok(idom, gc, depth, jump, jl, x) && done[jump[x] as int] && (x
            != gc ==> done[idom[x] as int]) && depth[x] <= bound
}

/// What `done_ok` says of one done node.
proof fn lemma_done_facts(idom: Seq<u32>, gc: int, depth: Seq<u32>, jump: Seq<u32>, jl: Seq<nat>, done: Seq<bool>, bound: int, x: int)
    requires
        done_ok(idom, gc, depth, jump, jl, done, bound),
        0 <= x < idom.len(),
        done[x],
    ensures
        jump_ok(idom, gc, depth, jump, jl, x),
        done[jump[x] as int],
        x != gc ==> done[idom[x] as int],
        depth[x] <= bound,
{
    reveal(done_ok);
}

/// Setting the depth and jump pointer of a node whose parent is done keeps
/// the done nodes as they were.
proof fn lemma_jump_step(
    idom: Seq<u32>,
    gc: int,
    depth: Seq<u32>,
    jump: Seq<u32>,
    jl: Seq<nat>,
    done: Seq<bool>,
    bound: int,
    v: int,
    nj: u32,
    nl: nat,
)
    requires
        depth.len() == idom.len(),
        jump.len() == idom.len(),
        jl.len() == idom.len(),
        done.len() == idom.len(),
        done_ok(idom, gc, depth, jump, jl, done, bound),
        0 <= v < idom.len(),
        !done[v],
        v != gc,
        forall|x: int| 0 <= x < idom.len() ==> #[trigger] idom[x] < idom.len(),
        done[idom[v] as int],
        depth[idom[v] as int] + 1 < 0x1_0000_0000,
        nj < idom.len(),
        done[nj as int],
        nj as int == ancestor_at(idom, v, nl),
        depth[nj as int] + nl == depth[idom[v] as int] + 1,
        nl >= 1,
    ensures
        done_ok(
            idom,
            gc,
            depth.update(v, (depth[idom[v] as int] + 1) as u32),
            jump.update(v, nj),
            jl.update(v, nl),
            done.update(v, true),
            bound + 1,
        ),
{
    reveal(done_ok);
    let nd = depth.update(v, (depth[idom[v] as int] + 1) as u32);
    let nju = jump.update(v, nj);
    let nlu = jl.update(v, nl);
    let ndone = done.update(v, true);
    assert forall|x: int| 0 <= x < idom.len() && #[trigger] ndone[x] implies jump_ok(idom, gc, nd, nju, nlu, x)
        && ndone[nju[x] as int] && (x != gc ==> ndone[idom[x] as int]) && nd[x] <= bound + 1 by {
        if x != v {
            assert(done[x]);
            assert(jump_ok(idom, gc, depth, jump, jl, x));
            assert(done[jump[x] as int]);
            assert(jump[x] as int != v);
            if x != gc {
                assert(done[idom[x] as int]);
                assert(idom[x] as int != v);
            }
        } else {
            assert(idom[v] < idom.len());
            assert(idom[v] as int != v);
            assert(nd[nj as int] == depth[nj as int]);
            assert(jump_ok(idom, gc, depth, jump, jl, idom[v] as int));
        }
    }
}

/// Depths and skew-binary jump pointers of the tree `idom`, filled from
/// the GC roots down along `order` read backwards.
#[verifier::spinoff_prover]
#[verifier::rlimit(60)]
fn build_jumps(idom: &Vec<u32>, order: &Vec<u32>, gc: usize) -> (res: (Vec<u32>, Vec<u32>, Ghost<Seq<nat>>))
    requires
        0 < idom@.len() < 0x7fff_0000,
        gc < idom@.len(),
        idom@[gc as int] == gc,
        forall|v: int| 0 <= v < idom@.len() ==> #[trigger] idom@[v] < idom@.len(),
        order@.len() == idom@.len() - 1,
        forall|k: int| 0 <= k < order@.len() ==> #[trigger] order@[k] < idom@.len() && order@[k] != gc,
        forall|v: int| 0 <= v < idom@.len() && v != gc ==> #[trigger] in_order(order@, v),
        tree_ordered(idom@, order@),
    ensures
        res.0@.len() == idom@.len(),
        res.1@.len() == idom@.len(),
        res.2@.len() == idom@.len(),
        forall|v: int| 0 <= v < idom@.len() ==> #[trigger] jump_ok(idom@, gc as int, res.0@, res.1@, res.2@, v),
{
    let n = idom.len();
    let mut depth: Vec<u32> = Vec::new();
    let mut jump: Vec<u32> = Vec::new();
    let mut i: usize = 0;
    while i < n
        invariant
            i <= n,
            n == idom@.len(),
            gc < n < 0x7fff_0000,
            depth@.len() == i,
            jump@.len() == i,
            forall|j: int| 0 <= j < i ==> #[trigger] depth@[j] == 0 && jump@[j] == gc,
        decreases n - i,
    {
        depth.push(0);
        jump.push(gc as u32);
        i += 1;
    }
    let ghost mut jl: Seq<nat> = Seq::new(n as nat, |x: int| 0nat);
    let ghost mut done: Seq<bool> = Seq::new(n as nat, |x: int| x == gc as int);
    let len = order.len();
    let mut k = len;
    proof {
        assert(depth@[gc as int] == 0);
        assert(jump@[gc as int] == gc);
        assert(jl[gc as int] == 0);
        assert(ancestor_at(idom@, gc as int, 0) == gc as int);
        assert(jump_ok(idom@, gc as int, depth@, jump@, jl, gc as int));
        reveal(done_ok);
        assert forall|x: int| 0 <= x < n && #[trigger] done[x] implies jump_ok(idom@, gc as int, depth@, jump@, jl, x)
            && done[jump@[x] as int] && (x != gc ==> done[idom@[x] as int]) && depth@[x] <= 0 by {
            assert(x == gc as int);
        }
    }
    while k > 0
        invariant
            n == idom@.len(),
            0 < n < 0x7fff_0000,
            gc < n,
            idom@[gc as int] == gc,
            forall|v: int| 0 <= v < n ==> #[trigger] idom@[v] < n,
            len == order@.len(),
            len == n - 1,
            forall|j: int| 0 <= j < len ==> #[trigger] order@[j] < n && order@[j] != gc,
            forall|v: int| 0 <= v < n && v != gc ==> #[trigger] in_order(order@, v),
            tree_ordered(idom@, order@),
            k <= len,
            depth@.len() == n,
            jump@.len() == n,
            jl.len() == n,
            done.len() == n,
            done[gc as int],
            forall|j: int| k <= j < len ==> done[#[trigger] order@[j] as int],
            forall|j: int| 0 <= j < k ==> !done[#[trigger] order@[j] as int],
            done_ok(idom@, gc as int, depth@, jump@, jl, done, len - k),
        decreases k,
    {
        let v = order[k - 1] as usize;
        let p = idom[v] as usize;
        proof {
            assert(!done[v as int]);
            if p != gc {
                assert(in_order(order@, p as int));
                let j = choose|j: int| 0 <= j < order@.len() && order@[j] == p;
                if j < k {
                    assert(idom@[order@[k - 1] as int] != order@[j]);
                }
                assert(done[order@[j] as int]);
            }
            assert(done[p as int]);
            lemma_done_facts(idom@, gc as int, depth@, jump@, jl, done, len - k, p as int);
        }
        let jp = jump[p] as usize;
        proof {
            lemma_done_facts(idom@, gc as int, depth@, jump@, jl, done, len - k, jp as int);
        }
        let jjp = jump[jp];
        let dv = depth[p] + 1;
        let ghost old_depth = depth@;
        let ghost old_jump = jump@;
        let ghost old_jl = jl;
        let ghost old_done = done;
        let ghost mut nl: nat = 1;
        let nj: u32;
        if depth[p] - depth[jp] == depth[jp] - depth[jjp as usize] {
            nj = jjp;
            proof {
                nl = 1 + jl[p as int] + jl[jp as int];
                lemma_ancestor_shift(idom@, v as int, (jl[p as int] + jl[jp as int]) as nat);
                lemma_ancestor_compose(idom@, p as int, jl[p as int], jl[jp as int]);
                assert(done[jjp as int]);
            }
        } else {
            nj = p as u32;
            proof {
                assert(ancestor_at(idom@, v as int, 0) == v as int);
                assert(ancestor_at(idom@, v as int, 1) == idom@[v as int] as int);
            }
        }
        proof {
            lemma_jump_step(idom@, gc as int, depth@, jump@, jl, done, len - k, v as int, nj, nl);
            jl = jl.update(v as int, nl);
            done = done.update(v as int, true);
        }
        jump.set(v, nj);
        depth.set(v, dv);
        proof {
            assert(jl == old_jl.update(v as int, nl));
            assert(depth@ == old_depth.update(v as int, (old_depth[p as int] + 1) as u32));
            assert forall|j: int| k - 1 <= j < len implies done[#[trigger] order@[j] as int] by {
                if j >= k {
                    assert(old_done[order@[j] as int]);
                }
            }
            assert forall|j: int| 0 <= j < k - 1 implies !done[#[trigger] order@[j] as int] by {
                assert(order@[j] != order@[k - 1]);
                assert(!old_done[order@[j] as int]);
            }
        }
        k -= 1;
    }
    proof {
        assert forall|v: int| 0 <= v < n implies #[trigger] jump_ok(idom@, gc as int, depth@, jump@, jl, v) by {
            if v != gc {
                assert(in_order(order@, v));
                let j = choose|j: int| 0 <= j < order@.len() && order@[j] == v;
                assert(done[order@[j] as int]);
            }
            lemma_done_facts(idom@, gc as int, depth@, jump@, jl, done, len - k, v);
        }
    }
    (depth, jump, Ghost(jl))
}

/// Whether `a` is `u` or above it in the tree, found by climbing from `u`
/// with the jump pointers while they stay at or below `a`'s depth.
fn is_above(
    idom: &Vec<u32>,
    depth: &Vec<u32>,
    jump: &Vec<u32>,
    Ghost(jl): Ghost<Seq<nat>>,
    gc: usize,
    a: usize,
    u: usize,
) -> (r: bool)
    requires
        gc < idom@.len(),
        a < idom@.len(),
        u < idom@.len(),
        depth@.len() == idom@.len(),
        jump@.len() == idom@.len(),
        jl.len() == idom@.len(),
        forall|v: int| 0 <= v < idom@.len() ==> #[trigger] idom@[v] < idom@.len(),
        forall|v: int| 0 <= v < idom@.len() ==> #[trigger] jump_ok(idom@, gc as int, depth@, jump@, jl, v),
    ensures
        r ==> tree_above(idom@, a as int, u as int),
{
    let mut x = u;
    let ghost mut m: nat = 0;
    proof {
        assert(ancestor_at(idom@, u as int, 0) == u as int);
    }
    while depth[x] > depth[a]
        invariant
            gc < idom@.len(),
            a < idom@.len(),
            x < idom@.len(),
            depth@.len() == idom@.len(),
            jump@.len() == idom@.len(),
            jl.len() == idom@.len(),
            forall|v: int| 0 <= v < idom@.len() ==> #[trigger] idom@[v] < idom@.len(),
            forall|v: int| 0 <= v < idom@.len() ==> #[trigger] jump_ok(idom@, gc as int, depth@, jump@, jl, v),
            x as int == ancestor_at(idom@, u as int, m),
        decreases depth@[x as int],
    {
        proof {
            assert(jump_ok(idom@, gc as int, depth@, jump@, jl, x as int));
            assert(jump_ok(idom@, gc as int, depth@, jump@, jl, a as int));
        }
        let j = jump[x] as usize;
        if depth[j] >= depth[a] {
            proof {
                lemma_ancestor_compose(idom@, u as int, m, jl[x as int]);
                m = m + jl[x as int];
            }
            x = j;
        } else {
            proof {
                assert(ancestor_at(idom@, u as int, m + 1) == idom@[ancestor_at(idom@, u as int, m)] as int);
                m = m + 1;
                assert(jump_ok(idom@, gc as int, depth@, jump@, jl, idom@[x as int] as int));
            }
            x = idom[x] as usize;
        }
    }
    x == a
}

/// Whether every marked edge from a node of `reach` to a node `w` other
/// than the GC roots leaves a node that `idom[w]` is above.
fn parents_hold(
    g: &Graph,
    ess: &Vec<bool>,
    reach: &Vec<bool>,
    idom: &Vec<u32>,
    depth: &Vec<u32>,
    jump: &Vec<u32>,
    Ghost(jl): Ghost<Seq<nat>>,
) -> (ok: bool)
    requires
        g.wf(),
        ess@.len() == g.edge_count(),
        reach@.len() == g.node_count(),
        tree_valid(*g, idom@),
        depth@.len() == idom@.len(),
        jump@.len() == idom@.len(),
        jl.len() == idom@.len(),
        forall|v: int| 0 <= v < idom@.len() ==> #[trigger] jump_ok(idom@, g.gc_roots_ordinal as int, depth@, jump@, jl, v),
    ensures
        ok ==> parent_property(*g, ess@, reach@, idom@),
{
    let n = g.nodes.len();
    let gc = g.gc_roots_ordinal;
    let mut u: usize = 0;
    while u < n
        invariant
            g.wf(),
            ess@.len() == g.edge_count(),
            reach@.len() == g.node_count(),
            tree_valid(*g, idom@),
            depth@.len() == idom@.len(),
            jump@.len() == idom@.len(),
            jl.len() == idom@.len(),
            forall|v: int| 0 <= v < idom@.len() ==> #[trigger] jump_ok(idom@, gc as int, depth@, jump@, jl, v),
            n == g.node_count(),
            gc == g.gc_roots_ordinal,
            u <= n,
            forall|x: int, e: int|
                0 <= x < u && reach@[x] && #[trigger] g.is_out_edge(x, e) && ess@[e] && g.edge_target(e) != gc
                    ==> tree_above(idom@, idom@[g.edge_target(e)] as int, x),
        decreases n - u,
    {
        if reach[u] {
            let (b, end) = g.node_edge_range(u);
            let mut e = b;
            while e < end
                invariant
                    g.wf(),
                    ess@.len() == g.edge_count(),
                    tree_valid(*g, idom@),
                    depth@.len() == idom@.len(),
                    jump@.len() == idom@.len(),
                    jl.len() == idom@.len(),
                    forall|v: int| 0 <= v < idom@.len() ==> #[trigger] jump_ok(idom@, gc as int, depth@, jump@, jl, v),
                    n == g.node_count(),
                    gc == g.gc_roots_ordinal,
                    u < n,
                    b == g.edge_begin(u as int),
                    end == g.edge_end(u as int),
                    b <= e <= end,
                    end <= g.edge_count(),
                    forall|e2: int|
                        b <= e2 < e && ess@[e2] && #[trigger] g.edge_target(e2) != gc ==> tree_above(
                            idom@,
                            idom@[g.edge_target(e2)] as int,
                            u as int,
                        ),
                decreases end - e,
            {
                if ess[e] {
                    let w = g.edge_to_node(e);
                    if w != gc {
                        let a = idom[w] as usize;
                        if !is_above(idom, depth, jump, Ghost(jl), gc, a, u) {
                            return false;
                        }
                    }
                }
                e += 1;
            }
        }
        u += 1;
    }
    true
}

/// The tree `idom` where it passes the check that every marked edge from
/// a node reached from the GC roots leads to a node whose parent is above
/// the edge's source; otherwise every node hung directly under the GC
/// roots. Either way every walk over marked edges from the GC roots to a
/// node passes through its parent in the returned tree.
pub fn settle_dominators(g: &Graph, ess: &Vec<bool>, idom: Vec<u32>, order: &Vec<u32>) -> (r: Vec<u32>)
    requires
        g.wf(),
        ess@.len() == g.edge_count(),
        tree_valid(*g, idom@),
        order@.len() == g.node_count() - 1,
        forall|k: int| 0 <= k < order@.len() ==> #[trigger] order@[k] < g.node_count() && order@[k] != g.gc_roots_ordinal,
        forall|v: int| 0 <= v < g.node_count() && v != g.gc_roots_ordinal ==> #[trigger] in_order(order@, v),
        tree_ordered(idom@, order@),
    ensures
        tree_valid(*g, r@),
        tree_ordered(r@, order@),
        idom_on_every_path(*g, ess@, r@),
        r@ == idom@ || forall|v: int| 0 <= v < g.node_count() ==> #[trigger] r@[v] == g.gc_roots_ordinal,
{
    let gc = g.gc_roots_ordinal;
    let n = g.nodes.len();
    let reach = reach_from_gc(g, ess);
    let (depth, jump, jl) = build_jumps(&idom, order, gc);
    if parents_hold(g, ess, &reach, &idom, &depth, &jump, jl) {
        proof {
            lemma_parent_property_dominates(*g, ess@, reach@, idom@);
        }
        idom
    } else {
        let mut flat: Vec<u32> = Vec::new();
        let mut i: usize = 0;
        while i < n
            invariant
                g.wf(),
                n == g.node_count(),
                gc == g.gc_roots_ordinal,
                i <= n,
                flat@.len() == i,
                forall|j: int| 0 <= j < i ==> #[trigger] flat@[j] == gc,
            decreases n - i,
        {
            flat.push(gc as u32);
            i += 1;
        }
        proof {
            assert forall|u: int, e: int|
                0 <= u < g.node_count() && reach@[u] && #[trigger] g.is_out_edge(u, e) && ess@[e] && g.edge_target(e)
                    != g.gc_roots_ordinal implies tree_above(flat@, flat@[g.edge_target(e)] as int, u) by {
                assert(ancestor_at(flat@, u, 0) == u);
                assert(ancestor_at(flat@, u, 1) == flat@[u] as int);
                if u == gc as int {
                    assert(ancestor_at(flat@, u, 0) == flat@[g.edge_target(e)] as int);
                } else {
                    assert(ancestor_at(flat@, u, 1) == flat@[g.edge_target(e)] as int);
                }
            }
            lemma_parent_property_dominates(*g, ess@, reach@, flat@);
            assert forall|k: int, k2: int| #![trigger order@[k], order@[k2]]
                0 <= k <= k2 < order@.len() implies flat@[order@[k2] as int] != order@[k] && (k < k2 ==> order@[k]
                    != order@[k2]) by {
                assert(idom@[order@[k2] as int] != order@[k] && (k < k2 ==> order@[k] != order@[k2]));
            }
        }
        flat
    }
}

} // verus!
