use vstd::prelude::*;
use crate::graph::Graph;
use crate::retainers::{RetainerIndex, lemma_retainer_entry, lemma_retainer_range};
use crate::dominance::{settle_dominators, idom_on_every_path};

verus! {

/// One node of the depth-first search whose outgoing edges are being walked.
#[derive(Clone, Copy)]
pub struct DfsFrame {
    pub node: u32,
    pub next_edge: u32,
    pub edge_end: u32,
}

/// Vertices are node ordinals plus one; 0 stands for "none".
pub open spec fn all_le(s: Seq<u32>, bound: int) -> bool {
    forall|i: int| 0 <= i < s.len() ==> #[trigger] s[i] <= bound
}

/// Number of vertices (entries other than 0) that have a DFS number.
pub open spec fn numbered(semi: Seq<u32>) -> nat
    decreases semi.len(),
{
    if semi.len() <= 1 {
        0
    } else {
        numbered(semi.drop_last()) + if semi.last() != 0 {
            1nat
        } else {
            0nat
        }
    }
}

proof fn lemma_numbered_update(s: Seq<u32>, i: int, x: u32)
    requires
        1 <= i < s.len(),
    ensures
        numbered(s.update(i, x)) == numbered(s) - (if s[i] != 0 { 1int } else { 0int }) + (if x != 0 {
            1int
        } else {
            0int
        }),
    decreases s.len(),
{
    if i == s.len() - 1 {
        assert(s.update(i, x).drop_last() =~= s.drop_last());
    } else {
        lemma_numbered_update(s.drop_last(), i, x);
        assert(s.update(i, x).drop_last() =~= s.drop_last().update(i, x));
    }
}

proof fn lemma_numbered_bound(s: Seq<u32>)
    ensures
        s.len() >= 1 ==> numbered(s) <= s.len() - 1,
        (exists|i: int| 1 <= i < s.len() && s[i] == 0) ==> numbered(s) < s.len() - 1,
    decreases s.len(),
{
    if s.len() > 1 {
        lemma_numbered_bound(s.drop_last());
        if exists|i: int| 1 <= i < s.len() && s[i] == 0 {
            let i = choose|i: int| 1 <= i < s.len() && s[i] == 0;
            if i < s.len() - 1 {
                assert(s.drop_last()[i] == 0);
            }
        }
    }
}

proof fn lemma_numbered_all(s: Seq<u32>)
    requires
        s.len() >= 1,
        forall|i: int| 1 <= i < s.len() ==> #[trigger] s[i] != 0,
    ensures
        numbered(s) == s.len() - 1,
    decreases s.len(),
{
    if s.len() > 1 {
        let t = s.drop_last();
        assert forall|i: int| 1 <= i < t.len() implies #[trigger] t[i] != 0 by {
            assert(t[i] == s[i]);
        }
        lemma_numbered_all(t);
    }
}

proof fn lemma_numbered_zero(s: Seq<u32>)
    requires
        forall|i: int| 0 <= i < s.len() ==> #[trigger] s[i] == 0,
    ensures
        numbered(s) == 0,
    decreases s.len(),
{
    if s.len() > 1 {
        let t = s.drop_last();
        assert forall|i: int| 0 <= i < t.len() implies #[trigger] t[i] == 0 by {
            assert(t[i] == s[i]);
        }
        lemma_numbered_zero(t);
    }
}

/// Edges still to walk in the frames of a DFS stack, plus one per frame.
pub open spec fn stack_work(st: Seq<DfsFrame>) -> int
    decreases st.len(),
{
    if st.len() == 0 {
        0
    } else {
        stack_work(st.drop_last()) + (st.last().edge_end - st.last().next_edge) + 1
    }
}

proof fn lemma_stack_work_nonneg(st: Seq<DfsFrame>)
    requires
        forall|i: int| 0 <= i < st.len() ==> (#[trigger] st[i]).next_edge <= st[i].edge_end,
    ensures
        stack_work(st) >= 0,
    decreases st.len(),
{
    if st.len() > 0 {
        lemma_stack_work_nonneg(st.drop_last());
    }
}

/// The DFS bookkeeping arrays: all of length `N + 1`, all entries at most
/// `N`; `n` vertices are numbered, the `k`-th being `vertex[k]`, each its
/// own label; a vertex numbered after the first has a DFS parent with a
/// smaller number.
pub open spec fn dfs_state_ok(
    nn: int,
    semi: Seq<u32>,
    vertex: Seq<u32>,
    label: Seq<u32>,
    parent: Seq<u32>,
    n: u32,
) -> bool {
    &&& semi.len() == nn + 1
    &&& vertex.len() == nn + 1
    &&& label.len() == nn + 1
    &&& parent.len() == nn + 1
    &&& all_le(semi, n as int)
    &&& all_le(vertex, nn)
    &&& all_le(label, nn)
    &&& all_le(parent, nn)
    &&& semi[0] == 0
    &&& numbered(semi) == n
    &&& n <= nn
    &&& forall|k: int| 1 <= k <= n ==> 1 <= #[trigger] vertex[k] <= nn
    &&& forall|k: int| 1 <= k <= n ==> semi[#[trigger] vertex[k] as int] == k
    &&& forall|x: int| 1 <= x <= nn && #[trigger] semi[x] != 0 ==> vertex[semi[x] as int] == x && label[x] == x
    &&& forall|x: int| 1 <= x <= nn && semi[x] >= 2 ==> 1 <= #[trigger] parent[x] <= nn && 1 <= semi[parent[x] as int] < semi[x]
}

/// A frame on the DFS stack is a vertex with part of its edge range left.
pub open spec fn frame_ok(g: Graph, f: DfsFrame) -> bool {
    &&& 1 <= f.node <= g.node_count()
    &&& f.edge_end == g.edge_end(f.node - 1)
    &&& g.edge_begin(f.node - 1) <= f.next_edge <= f.edge_end
    &&& f.edge_end <= g.edge_count()
}

proof fn lemma_state_number(
    nn: int,
    semi: Seq<u32>,
    vertex: Seq<u32>,
    label: Seq<u32>,
    parent: Seq<u32>,
    n: u32,
    v: int,
)
    requires
        dfs_state_ok(nn, semi, vertex, label, parent, n),
        nn < 0x7fff_0000,
        1 <= v <= nn,
        semi[v] == 0,
        n >= 1 ==> 1 <= parent[v] <= nn && semi[parent[v] as int] != 0,
    ensures
        n < nn,
        dfs_state_ok(
            nn,
            semi.update(v, (n + 1) as u32),
            vertex.update(n + 1, v as u32),
            label.update(v, v as u32),
            parent,
            (n + 1) as u32,
        ),
{
    lemma_numbered_bound(semi);
    lemma_numbered_update(semi, v, (n + 1) as u32);
    let s2 = semi.update(v, (n + 1) as u32);
    let v2 = vertex.update(n + 1, v as u32);
    let l2 = label.update(v, v as u32);
    assert forall|i: int| 0 <= i < s2.len() implies #[trigger] s2[i] <= n + 1 by {}
    assert forall|i: int| 0 <= i < v2.len() implies #[trigger] v2[i] <= nn by {}
    assert forall|i: int| 0 <= i < l2.len() implies #[trigger] l2[i] <= nn by {}
    assert forall|k: int| 1 <= k <= n + 1 implies 1 <= #[trigger] v2[k] <= nn by {
        if k <= n {
            assert(v2[k] == vertex[k]);
        }
    }
    assert forall|k: int| 1 <= k <= n + 1 implies s2[#[trigger] v2[k] as int] == k by {
        if k <= n {
            assert(v2[k] == vertex[k]);
            assert(semi[vertex[k] as int] == k);
            assert(vertex[k] != v);
        }
    }
    assert forall|x: int| 1 <= x <= nn && #[trigger] s2[x] != 0 implies v2[s2[x] as int] == x && l2[x] == x by {
        if x != v {
            assert(semi[x] != 0);
            assert(vertex[semi[x] as int] == x);
        }
    }
    assert forall|x: int| 1 <= x <= nn && s2[x] >= 2 implies 1 <= #[trigger] parent[x] <= nn && 1 <= s2[parent[x] as int] < s2[x] by {
        if x != v {
            assert(semi[x] >= 2);
            assert(parent[x] as int != v);
        } else {
            assert(parent[x] as int != v);
        }
    }
}

/// Setting the parent of an unnumbered vertex keeps the DFS state.
proof fn lemma_set_parent(
    nn: int,
    semi: Seq<u32>,
    vertex: Seq<u32>,
    label: Seq<u32>,
    parent: Seq<u32>,
    n: u32,
    v: int,
    p: u32,
)
    requires
        dfs_state_ok(nn, semi, vertex, label, parent, n),
        1 <= v <= nn,
        semi[v] == 0,
        p <= nn,
    ensures
        dfs_state_ok(nn, semi, vertex, label, parent.update(v, p), n),
{
    let p2 = parent.update(v, p);
    assert forall|i: int| 0 <= i < p2.len() implies #[trigger] p2[i] <= nn by {}
    assert forall|x: int| 1 <= x <= nn && semi[x] >= 2 implies 1 <= #[trigger] p2[x] <= nn && 1 <= semi[p2[x] as int] < semi[x] by {
        assert(x != v);
    }
}

/// Depth-first numbering from `root` (a vertex, ordinal plus one) over the
/// essential edges, recording each newly reached vertex's DFS parent.
fn dfs_number(
    g: &Graph,
    ess: &Vec<bool>,
    root: u32,
    semi: &mut Vec<u32>,
    n: &mut u32,
    vertex: &mut Vec<u32>,
    label: &mut Vec<u32>,
    parent: &mut Vec<u32>,
)
    requires
        g.wf(),
        ess@.len() == g.edge_count(),
        1 <= root <= g.node_count(),
        dfs_state_ok(g.node_count() as int, old(semi)@, old(vertex)@, old(label)@, old(parent)@, *old(n)),
        old(semi)@[root as int] == 0 && *old(n) >= 1 ==> 1 <= old(parent)@[root as int] <= g.node_count()
            && old(semi)@[old(parent)@[root as int] as int] != 0,
    ensures
        dfs_state_ok(g.node_count() as int, final(semi)@, final(vertex)@, final(label)@, final(parent)@, *final(n)),
        *old(n) <= *final(n),
        final(semi)@[root as int] != 0,
        old(semi)@[root as int] == 0 ==> final(semi)@[root as int] == *old(n) + 1,
        forall|v: int| 0 <= v < old(semi)@.len() && old(semi)@[v] != 0 ==> #[trigger] final(semi)@[v] == old(semi)@[v],
        forall|k: int| 1 <= k <= *old(n) ==> #[trigger] final(vertex)@[k] == old(vertex)@[k],
{
    let nn = g.nodes.len();
    let ghost nni = nn as int;
    if semi[root as usize] == 0 {
        proof {
            lemma_state_number(nni, semi@, vertex@, label@, parent@, *n, root as int);
        }
        *n = *n + 1;
        semi.set(root as usize, *n);
        vertex.set(*n as usize, root);
        label.set(root as usize, root);
    }
    let root_ord = (root - 1) as usize;
    let (b, e) = g.node_edge_range(root_ord);
    let mut stack: Vec<DfsFrame> = Vec::new();
    stack.push(DfsFrame { node: root, next_edge: b as u32, edge_end: e as u32 });
    while stack.len() > 0
        invariant
            g.wf(),
            nn == g.node_count(),
            nni == nn,
            1 <= root <= nn,
            old(semi)@.len() == nni + 1,
            old(vertex)@.len() == nni + 1,
            ess@.len() == g.edge_count(),
            dfs_state_ok(nni, semi@, vertex@, label@, parent@, *n),
            *old(n) <= *n,
            semi@[root as int] != 0,
            old(semi)@[root as int] == 0 ==> semi@[root as int] == *old(n) + 1,
            forall|i: int| 0 <= i < stack@.len() ==> frame_ok(*g, #[trigger] stack@[i]),
            forall|i: int| 0 <= i < stack@.len() ==> semi@[(#[trigger] stack@[i]).node as int] != 0,
            forall|v: int| 0 <= v < old(semi)@.len() && old(semi)@[v] != 0 ==> #[trigger] semi@[v] == old(semi)@[v],
            forall|k: int| 1 <= k <= *old(n) ==> #[trigger] vertex@[k] == old(vertex)@[k],
        decreases nn - *n, stack_work(stack@),
    {
        let top = stack.len() - 1;
        let frame = stack[top];
        let v = frame.node;
        let mut next_edge = frame.next_edge;
        let edge_end = frame.edge_end;
        let mut child: u32 = 0;
        while next_edge < edge_end
            invariant
                g.wf(),
                nn == g.node_count(),
                frame_ok(*g, frame),
                frame.edge_end == edge_end,
                frame.next_edge <= next_edge <= edge_end,
                edge_end <= g.edge_count(),
                ess@.len() == g.edge_count(),
                semi@.len() == nn + 1,
                child == 0 || (1 <= child <= nn && semi@[child as int] == 0),
            decreases edge_end - next_edge,
        {
            let edge_ordinal = next_edge as usize;
            next_edge += 1;
            if ess[edge_ordinal] {
                let w = (g.edge_to_node(edge_ordinal) + 1) as u32;
                if semi[w as usize] == 0 {
                    child = w;
                    break;
                }
            }
        }
        let ghost old_stack = stack@;
        stack.set(top, DfsFrame { node: v, next_edge, edge_end });
        proof {
            lemma_work_update(old_stack, top as int, DfsFrame { node: v, next_edge, edge_end });
        }
        if child == 0 {
            let ghost before = stack@;
            stack.pop();
            proof {
                assert(stack@ =~= before.drop_last());
                lemma_stack_work_nonneg(stack@);
            }
        } else {
            let ghost parent_before = parent@;
            parent.set(child as usize, v);
            let ghost semi_before = semi@;
            let ghost vertex_before = vertex@;
            let ghost label_before = label@;
            let ghost n_before = *n;
            proof {
                assert(semi@[stack@[top as int].node as int] != 0);
                lemma_set_parent(nni, semi@, vertex@, label@, parent_before, *n, child as int, v);
                lemma_child_step(nni, old(semi)@, old(vertex)@, *old(n), semi@, vertex@, label@, parent@, *n, child as int);
            }
            *n = *n + 1;
            semi.set(child as usize, *n);
            vertex.set(*n as usize, child);
            label.set(child as usize, child);
            proof {
                assert(semi@ == semi_before.update(child as int, *n));
                assert(vertex@ == vertex_before.update(*n as int, child));
                assert(label@ == label_before.update(child as int, child));
                assert(semi_before[root as int] != 0);
            }
            let (cb, ce) = g.node_edge_range((child - 1) as usize);
            stack.push(DfsFrame { node: child, next_edge: cb as u32, edge_end: ce as u32 });
            proof {
                assert forall|i: int| 0 <= i < parent@.len() implies #[trigger] parent@[i] <= nni by {}
                assert forall|i: int| 0 <= i < stack@.len() implies semi@[(#[trigger] stack@[i]).node as int] != 0 by {
                    if i < stack@.len() - 1 {
                        assert(semi_before[stack@[i].node as int] != 0);
                    }
                }
            }
        }
    }
}

/// Numbering a new child keeps the DFS state and what was numbered before.
proof fn lemma_child_step(
    nn: int,
    semi0: Seq<u32>,
    vertex0: Seq<u32>,
    n0: u32,
    semi: Seq<u32>,
    vertex: Seq<u32>,
    label: Seq<u32>,
    parent: Seq<u32>,
    n: u32,
    child: int,
)
    requires
        dfs_state_ok(nn, semi, vertex, label, parent, n),
        nn < 0x7fff_0000,
        1 <= child <= nn,
        semi[child] == 0,
        n >= 1 ==> 1 <= parent[child] <= nn && semi[parent[child] as int] != 0,
        semi0.len() == nn + 1,
        vertex0.len() == nn + 1,
        n0 <= n,
        forall|v: int| 0 <= v < semi0.len() && semi0[v] != 0 ==> #[trigger] semi[v] == semi0[v],
        forall|k: int| 1 <= k <= n0 ==> #[trigger] vertex[k] == vertex0[k],
    ensures
        n < nn,
        dfs_state_ok(
            nn,
            semi.update(child, (n + 1) as u32),
            vertex.update(n + 1, child as u32),
            label.update(child, child as u32),
            parent,
            (n + 1) as u32,
        ),
        forall|v: int| 0 <= v < semi0.len() && semi0[v] != 0 ==> #[trigger] semi.update(child, (n + 1) as u32)[v] == semi0[v],
        forall|k: int| 1 <= k <= n0 ==> #[trigger] vertex.update(n + 1, child as u32)[k] == vertex0[k],
        forall|x: int| 0 <= x < semi.len() && semi[x] != 0 ==> #[trigger] semi.update(child, (n + 1) as u32)[x] == semi[x],
{
    lemma_state_number(nn, semi, vertex, label, parent, n, child);
    let s2 = semi.update(child, (n + 1) as u32);
    assert forall|v: int| 0 <= v < semi0.len() && semi0[v] != 0 implies #[trigger] s2[v] == semi0[v] by {
        assert(semi[v] == semi0[v]);
    }
    assert forall|k: int| 1 <= k <= n0 implies #[trigger] vertex.update(n + 1, child as u32)[k] == vertex0[k] by {
        assert(vertex[k] == vertex0[k]);
    }
}

proof fn lemma_work_update(st: Seq<DfsFrame>, i: int, f: DfsFrame)
    requires
        0 <= i < st.len(),
        st[i].edge_end == f.edge_end,
        st[i].next_edge <= f.next_edge <= f.edge_end,
    ensures
        stack_work(st.update(i, f)) == stack_work(st) - (f.next_edge - st[i].next_edge),
    decreases st.len(),
{
    if i == st.len() - 1 {
        assert(st.update(i, f).drop_last() =~= st.drop_last());
    } else {
        lemma_work_update(st.drop_last(), i, f);
        assert(st.update(i, f).drop_last() =~= st.drop_last().update(i, f));
    }
}


/// An array of the computation: `N + 1` entries, each a vertex or 0.
pub open spec fn arr_ok(s: Seq<u32>, nn: int) -> bool {
    s.len() == nn + 1 && all_le(s, nn)
}

/// Node `v` has no essential incoming edge.
pub open spec fn only_weak_retainers(g: Graph, ess: Seq<bool>, ri: RetainerIndex, v: int) -> bool {
    forall|s: int| ri.range_begin(v) <= s < ri.range_end(v) ==> !ess[#[trigger] ri.retaining_edges@[s] as int]
}

/// Whether every retaining edge of node `v` is left out of the dominator
/// computation.
pub fn has_only_weak_retainers(g: &Graph, ess: &Vec<bool>, ri: &RetainerIndex, v: usize) -> (r: bool)
    requires
        g.wf(),
        ri.wf_for(*g),
        ess@.len() == g.edge_count(),
        v < g.node_count(),
    ensures
        r == only_weak_retainers(*g, ess@, *ri, v as int),
{
    proof {
        lemma_retainer_range(*g, *ri, v as int);
    }
    let begin = ri.first_retainer_index[v] as usize;
    let end = ri.first_retainer_index[v + 1] as usize;
    let mut s = begin;
    while s < end
        invariant
            g.wf(),
            ri.wf_for(*g),
            ess@.len() == g.edge_count(),
            v < g.node_count(),
            begin == ri.range_begin(v as int),
            end == ri.range_end(v as int),
            begin <= s <= end,
            forall|k: int| begin <= k < s ==> !ess@[#[trigger] ri.retaining_edges@[k] as int],
        decreases end - s,
    {
        proof {
            lemma_retainer_entry(*g, *ri, v as int, s as int);
        }
        let e = ri.retaining_edges[s] as usize;
        if ess[e] {
            return false;
        }
        s += 1;
    }
    true
}

/// DFS numbers: `num[x]` is vertex `x`'s number and `vertex[k]` the vertex
/// numbered `k`; all `N` vertices are numbered, `r` first, and every other
/// vertex's DFS parent has a smaller number.
pub open spec fn numbering_ok(nn: int, num: Seq<u32>, vertex: Seq<u32>, parent: Seq<u32>, r: int) -> bool {
    &&& num.len() == nn + 1
    &&& vertex.len() == nn + 1
    &&& parent.len() == nn + 1
    &&& 1 <= r <= nn
    &&& num[r] == 1
    &&& num[0] == 0
    &&& forall|x: int| 1 <= x <= nn ==> 1 <= #[trigger] num[x] <= nn && vertex[num[x] as int] == x
    &&& forall|k: int| 1 <= k <= nn ==> 1 <= #[trigger] vertex[k] <= nn && num[vertex[k] as int] == k
    &&& forall|x: int| 1 <= x <= nn && num[x] >= 2 ==> 1 <= #[trigger] parent[x] <= nn && num[parent[x] as int] < num[x]
}

/// The ancestor forest goes to smaller numbers, with nothing above the
/// non-vertex 0, and a vertex's label has a number no greater than its own.
pub open spec fn forest_ok(nn: int, num: Seq<u32>, ancestor: Seq<u32>, label: Seq<u32>) -> bool {
    &&& arr_ok(ancestor, nn)
    &&& arr_ok(label, nn)
    &&& num.len() == nn + 1
    &&& ancestor[0] == 0
    &&& forall|x: int| 1 <= x <= nn ==> num[(#[trigger] ancestor[x]) as int] < num[x]
    &&& forall|x: int| 1 <= x <= nn ==> 1 <= #[trigger] label[x] && num[label[x] as int] <= num[x]
}

/// Semidominator numbers are at least 1 and at most the vertex's own
/// number, which they equal for vertices numbered `t` or less.
pub open spec fn semi_ok(nn: int, num: Seq<u32>, semi: Seq<u32>, t: int) -> bool {
    &&& arr_ok(semi, nn)
    &&& forall|x: int| 1 <= x <= nn ==> 1 <= #[trigger] semi[x] <= num[x] && (num[x] <= t ==> semi[x] == num[x])
}

/// The buckets hold only vertices numbered above `t`, each in the bucket of
/// its semidominator; vertices numbered `t` or less link to nothing.
pub open spec fn buckets_ok(nn: int, num: Seq<u32>, vertex: Seq<u32>, semi: Seq<u32>, head: Seq<u32>, next: Seq<u32>, t: int) -> bool {
    &&& arr_ok(head, nn)
    &&& arr_ok(next, nn)
    &&& forall|b: int| 0 <= b <= nn && (#[trigger] head[b]) != 0 ==> num[head[b] as int] > t && vertex[semi[head[b] as int] as int] == b
    &&& forall|x: int| 1 <= x <= nn && (#[trigger] next[x]) != 0 ==> num[next[x] as int] > t && vertex[semi[next[x] as int] as int]
        == vertex[semi[x] as int]
    &&& forall|x: int| 1 <= x <= nn && num[x] <= t ==> #[trigger] next[x] == 0
}

/// Every vertex but `r` has a dominator with a smaller number, or none yet.
pub open spec fn dom_ok(nn: int, num: Seq<u32>, dom: Seq<u32>, r: int) -> bool {
    &&& arr_ok(dom, nn)
    &&& forall|x: int| 1 <= x <= nn && x != r ==> num[(#[trigger] dom[x]) as int] < num[x]
}

/// The vertex reached from `v` by following the ancestor forest `k`
/// times.
pub open spec fn ancestor_at(anc: Seq<u32>, v: int, k: nat) -> int
    decreases k,
{
    if k == 0 {
        v
    } else {
        anc[ancestor_at(anc, v, (k - 1) as nat)] as int
    }
}

/// Past a root (a vertex whose ancestor is 0), following the forest stays
/// at roots.
proof fn lemma_past_root(anc: Seq<u32>, v: int, k0: nat, k: nat)
    requires
        anc.len() > 0,
        anc[0] == 0,
        0 <= ancestor_at(anc, v, k0) < anc.len(),
        anc[ancestor_at(anc, v, k0)] == 0,
        k >= k0,
    ensures
        anc[ancestor_at(anc, v, k)] == 0,
    decreases k - k0,
{
    if k > k0 {
        lemma_past_root(anc, v, k0, (k - 1) as nat);
        assert(ancestor_at(anc, v, k) == anc[ancestor_at(anc, v, (k - 1) as nat)] as int);
    }
}

/// Path compression of the ancestor forest, as in Lengauer and Tarjan's
/// `EVAL`: every vertex on `v`'s path below the root of its tree is hung
/// directly under that root, taking the label of least semidominator
/// number among its own and those above it on the path. Afterwards `v`'s
/// ancestor is a root (or `v` is one), and no label got a larger
/// semidominator number.
#[verifier::spinoff_prover]
#[verifier::rlimit(40)]
fn compress(
    v: u32,
    ancestor: &mut Vec<u32>,
    label: &mut Vec<u32>,
    semi: &Vec<u32>,
    stack: &mut Vec<u32>,
    Ghost(nn): Ghost<int>,
    Ghost(num): Ghost<Seq<u32>>,
)
    requires
        forest_ok(nn, num, old(ancestor)@, old(label)@),
        arr_ok(semi@, nn),
        arr_ok(old(stack)@, nn),
        1 <= v <= nn,
        num[0] == 0,
        forall|x: int| 1 <= x <= nn ==> 1 <= #[trigger] num[x] <= nn,
    ensures
        forest_ok(nn, num, final(ancestor)@, final(label)@),
        arr_ok(final(stack)@, nn),
        final(ancestor)@[final(ancestor)@[v as int] as int] == 0,
        forall|x: int| 0 <= x <= nn ==> semi@[(#[trigger] final(label)@[x]) as int] <= semi@[old(label)@[x] as int],
        forall|k: nat| old(ancestor)@[#[trigger] ancestor_at(old(ancestor)@, v as int, k)] != 0 ==> semi@[final(label)@[v as int] as int]
            <= semi@[old(label)@[ancestor_at(old(ancestor)@, v as int, k)] as int],
{
    let ghost anc0 = ancestor@;
    let ghost lab0 = label@;
    let mut sp: usize = 0;
    let mut w = v;
    while sp < stack.len() - 1 && ancestor[ancestor[w as usize] as usize] != 0
        invariant
            forest_ok(nn, num, ancestor@, label@),
            ancestor@ == old(ancestor)@,
            label@ == old(label)@,
            num[0] == 0,
            forall|x: int| 1 <= x <= nn ==> 1 <= #[trigger] num[x] <= nn,
            stack@.len() == nn + 1,
            all_le(stack@, nn),
            sp <= nn,
            1 <= w <= nn,
            num[w as int] + sp <= nn,
            sp == 0 ==> w == v,
            sp >= 1 ==> stack@[1] == v && ancestor@[stack@[sp as int] as int] == w,
            forall|i: int| 1 <= i < sp ==> ancestor@[#[trigger] stack@[i] as int] == stack@[i + 1],
            forall|i: int| 1 <= i <= sp ==> 1 <= #[trigger] stack@[i] <= nn && ancestor@[ancestor@[stack@[i] as int] as int] != 0,
            forall|i: int, j: int| #![trigger stack@[i], stack@[j]] 1 <= i < j <= sp ==> num[stack@[i] as int] > num[stack@[j] as int],
            forall|i: int| 1 <= i <= sp ==> num[#[trigger] stack@[i] as int] > num[w as int],
            anc0 == old(ancestor)@,
            forall|i: int| 0 <= i < sp ==> ancestor_at(anc0, v as int, i as nat) == #[trigger] stack@[i + 1],
            ancestor_at(anc0, v as int, sp as nat) == w,
        decreases nn - sp,
    {
        proof {
            let a = ancestor@[w as int];
            assert(a != 0);
            assert(num[a as int] < num[w as int]);
        }
        sp += 1;
        stack.set(sp, w);
        w = ancestor[w as usize];
    }
    proof {
        let a = ancestor@[w as int];
        if ancestor@[a as int] != 0 {
            assert(a != 0);
            assert(num[ancestor@[a as int] as int] < num[a as int]);
            assert(num[a as int] < num[w as int]);
        }
    }
    let ghost top = sp as int;
    let ghost w_end = w as int;
    let ghost root = ancestor@[w as int] as int;
    let ghost st = stack@;
    proof {
        assert(anc0[root] == 0);
        assert forall|k: nat| k > top implies anc0[ancestor_at(anc0, v as int, k)] == 0 by {
            assert(ancestor_at(anc0, v as int, (top + 1) as nat) == root);
            lemma_past_root(anc0, v as int, (top + 1) as nat, k);
        }
        if top >= 1 {
            assert(ancestor@[ancestor@[st[top] as int] as int] != 0);
            assert(root != 0);
            assert(num[root] < num[w_end]);
        }
    }
    while sp > 0
        invariant
            forest_ok(nn, num, ancestor@, label@),
            arr_ok(semi@, nn),
            num[0] == 0,
            forall|x: int| 1 <= x <= nn ==> 1 <= #[trigger] num[x] <= nn,
            stack@ == st,
            st.len() == nn + 1,
            all_le(st, nn),
            0 <= sp <= top,
            top <= nn,
            top == 0 ==> ancestor@ == old(ancestor)@ && w_end == v,
            top >= 1 ==> st[1] == v,
            top >= 1 ==> 1 <= w_end <= nn && 1 <= root <= nn && ancestor@[w_end] == root && ancestor@[root] == 0,
            top >= 1 ==> num[root] < num[w_end],
            sp == top && top >= 1 ==> ancestor@[st[top] as int] == w_end,
            forall|i: int| 1 <= i <= sp && i < top ==> ancestor@[#[trigger] st[i] as int] == st[i + 1],
            forall|i: int| sp < i <= top ==> ancestor@[#[trigger] st[i] as int] == root,
            forall|i: int| 1 <= i <= top ==> 1 <= #[trigger] st[i] <= nn,
            forall|i: int, j: int| #![trigger st[i], st[j]] 1 <= i < j <= top ==> num[st[i] as int] > num[st[j] as int],
            forall|i: int| 1 <= i <= top ==> num[#[trigger] st[i] as int] > num[w_end],
            forall|x: int| 0 <= x <= nn ==> semi@[(#[trigger] label@[x]) as int] <= semi@[old(label)@[x] as int],
            lab0 == old(label)@,
            label@[w_end] == lab0[w_end],
            forall|j: int| 1 <= j <= sp ==> label@[#[trigger] st[j] as int] == lab0[st[j] as int],
            forall|j: int, i: int| #![trigger st[j], st[i]] sp < j <= i <= top ==> semi@[label@[st[j] as int] as int] <= semi@[lab0[st[i] as int] as int],
            forall|j: int| sp < j <= top ==> semi@[label@[#[trigger] st[j] as int] as int] <= semi@[lab0[w_end] as int],
        decreases sp,
    {
        let w2 = stack[sp] as usize;
        let ghost k = sp as int;
        sp -= 1;
        let aw = ancestor[w2] as usize;
        proof {
            if k < top {
                assert(aw == st[k + 1]);
                assert(num[st[k] as int] > num[st[k + 1] as int]);
            }
        }
        if w2 != 0 && aw != 0 {
            let ghost lb = label@;
            if semi[label[aw] as usize] < semi[label[w2] as usize] {
                let l = label[aw];
                label.set(w2, l);
            }
            proof {
                assert(w2 as int != w_end);
                assert forall|j: int| 1 <= j <= sp implies label@[#[trigger] st[j] as int] == lab0[st[j] as int] by {
                    assert(num[st[j] as int] > num[st[k] as int]);
                }
                assert forall|j: int, i: int| #![trigger st[j], st[i]] sp < j <= i <= top implies semi@[label@[st[j] as int] as int]
                    <= semi@[lab0[st[i] as int] as int] by {
                    if j > k {
                        assert(num[st[k] as int] > num[st[j] as int]);
                        assert(label@[st[j] as int] == lb[st[j] as int]);
                    } else if i > k {
                        assert(lb[aw as int] == label@[aw as int] || true);
                        assert(semi@[lb[st[k + 1] as int] as int] <= semi@[lab0[st[i] as int] as int]);
                    }
                }
                assert forall|j: int| sp < j <= top implies semi@[label@[#[trigger] st[j] as int] as int] <= semi@[lab0[w_end] as int] by {
                    if j > k {
                        assert(num[st[k] as int] > num[st[j] as int]);
                        assert(label@[st[j] as int] == lb[st[j] as int]);
                    } else if k < top {
                        assert(semi@[lb[st[k + 1] as int] as int] <= semi@[lab0[w_end] as int]);
                    }
                }
            }
            let a = ancestor[aw];
            let ghost before = ancestor@;
            ancestor.set(w2, a);
            proof {
                assert(a as int == root);
                assert(w2 as int != w_end);
                assert(w2 as int != root);
                assert forall|i: int| 1 <= i <= sp && i < top implies ancestor@[#[trigger] st[i] as int] == st[i + 1] by {
                    assert(num[st[i] as int] > num[st[k] as int]);
                    assert(before[st[i] as int] == st[i + 1]);
                }
                assert forall|i: int| sp < i <= top implies ancestor@[#[trigger] st[i] as int] == root by {
                    if i > k {
                        assert(num[st[k] as int] > num[st[i] as int]);
                    }
                }
            }
        }
    }    proof {
        assert forall|k: nat| old(ancestor)@[#[trigger] ancestor_at(old(ancestor)@, v as int, k)] != 0 implies semi@[label@[v as int] as int]
            <= semi@[old(label)@[ancestor_at(old(ancestor)@, v as int, k)] as int] by {
            if k > top {
            } else if top == 0 {
                assert(ancestor_at(anc0, v as int, 0) == v);
            } else if k < top {
                assert(ancestor_at(anc0, v as int, k) == st[k as int + 1]);
                assert(st[1] == v);
            } else {
                assert(st[1] == v);
            }
        }
    }
}

/// Lengauer and Tarjan's `EVAL`: `v` itself when it is the root of its
/// tree in the ancestor forest; otherwise, after compressing `v`'s path,
/// `v`'s label, which has a number no greater than `v`'s and a
/// semidominator number no greater than that of the label, before, of any
/// vertex on `v`'s path below the root.
fn evaluate(
    v: u32,
    ancestor: &mut Vec<u32>,
    label: &mut Vec<u32>,
    semi: &Vec<u32>,
    stack: &mut Vec<u32>,
    Ghost(nn): Ghost<int>,
    Ghost(num): Ghost<Seq<u32>>,
) -> (r: u32)
    requires
        forest_ok(nn, num, old(ancestor)@, old(label)@),
        arr_ok(semi@, nn),
        arr_ok(old(stack)@, nn),
        1 <= v <= nn,
        num[0] == 0,
        forall|x: int| 1 <= x <= nn ==> 1 <= #[trigger] num[x] <= nn,
    ensures
        forest_ok(nn, num, final(ancestor)@, final(label)@),
        arr_ok(final(stack)@, nn),
        1 <= r <= nn,
        num[r as int] <= num[v as int],
        r == if old(ancestor)@[v as int] == 0 { v } else { final(label)@[v as int] },
        old(ancestor)@[v as int] != 0 ==> semi@[r as int] <= semi@[old(label)@[v as int] as int],
        old(ancestor)@[v as int] != 0 ==> forall|k: nat| old(ancestor)@[#[trigger] ancestor_at(old(ancestor)@, v as int, k)] != 0
            ==> semi@[r as int] <= semi@[old(label)@[ancestor_at(old(ancestor)@, v as int, k)] as int],
        final(ancestor)@[final(ancestor)@[v as int] as int] == 0,
        forall|x: int| 0 <= x <= nn ==> semi@[(#[trigger] final(label)@[x]) as int] <= semi@[old(label)@[x] as int],
{
    if ancestor[v as usize] == 0 {
        return v;
    }
    compress(v, ancestor, label, semi, stack, Ghost(nn), Ghost(num));
    label[v as usize]
}

/// Node `v` is in `order`.
pub open spec fn in_order(order: Seq<u32>, v: int) -> bool {
    exists|k: int| 0 <= k < order.len() && order[k] == v
}

/// The nodes in `order` come before their immediate dominators, and none
/// twice: a later node never dominates an earlier or the same one.
pub open spec fn tree_ordered(idom: Seq<u32>, order: Seq<u32>) -> bool {
    forall|k: int, k2: int| #![trigger order[k], order[k2]]
        0 <= k <= k2 < order.len() ==> idom[order[k2] as int] != order[k] && (k < k2 ==> order[k] != order[k2])
}

/// Once all vertices are numbered, the numbers make a numbering.
proof fn lemma_numbering_done(nn: int, semi: Seq<u32>, vertex: Seq<u32>, label: Seq<u32>, parent: Seq<u32>, n: u32, r: int)
    requires
        dfs_state_ok(nn, semi, vertex, label, parent, n),
        n == nn,
        1 <= r <= nn,
        semi[r] == 1,
    ensures
        numbering_ok(nn, semi, vertex, parent, r),
        arr_ok(semi, nn),
        arr_ok(vertex, nn),
        arr_ok(label, nn),
        arr_ok(parent, nn),
        forall|x: int| 1 <= x <= nn ==> #[trigger] label[x] == x,
{
    assert forall|x: int| 1 <= x <= nn implies #[trigger] semi[x] != 0 by {
        if semi[x] == 0 {
            lemma_numbered_bound(semi);
        }
    }
    assert forall|x: int| 1 <= x <= nn implies 1 <= #[trigger] semi[x] <= nn && vertex[semi[x] as int] == x by {
        assert(semi[x] != 0);
    }
    assert forall|x: int| 1 <= x <= nn implies #[trigger] label[x] == x by {
        assert(semi[x] != 0);
    }
}

/// The DFS numbering of all vertices: from the GC roots over the essential
/// edges, then from each unreached node whose retainers are all
/// non-essential, then the rest one by one, all as children of the GC
/// roots. Returns the numbers, the vertex of each number, the labels (each
/// vertex its own) and the DFS parents.
#[verifier::spinoff_prover]
fn number_vertices(g: &Graph, ess: &Vec<bool>, ri: &RetainerIndex) -> (res: (Vec<u32>, Vec<u32>, Vec<u32>, Vec<u32>))
    requires
        g.wf(),
        ri.wf_for(*g),
        ess@.len() == g.edge_count(),
    ensures
        numbering_ok(g.node_count() as int, res.0@, res.1@, res.3@, g.gc_roots_ordinal + 1),
        arr_ok(res.0@, g.node_count() as int),
        arr_ok(res.1@, g.node_count() as int),
        arr_ok(res.2@, g.node_count() as int),
        arr_ok(res.3@, g.node_count() as int),
        forall|x: int| 1 <= x <= g.node_count() ==> #[trigger] res.2@[x] == x,
{
    let nn = g.nodes.len();
    let ghost nni = nn as int;
    let len = nn + 1;
    let mut parent: Vec<u32> = vec![0u32; len];
    let mut vertex: Vec<u32> = vec![0u32; len];
    let mut label: Vec<u32> = vec![0u32; len];
    let mut semi: Vec<u32> = vec![0u32; len];
    let mut n: u32 = 0;
    proof {
        lemma_numbered_zero(semi@);
    }
    let r = (g.gc_roots_ordinal + 1) as u32;
    dfs_number(g, ess, r, &mut semi, &mut n, &mut vertex, &mut label, &mut parent);
    if (n as usize) < nn {
        let mut v: usize = 1;
        while v <= nn
            invariant
                g.wf(),
                ri.wf_for(*g),
                nn == g.node_count(),
                nni == nn,
                ess@.len() == g.edge_count(),
                1 <= r <= nn,
                r == g.gc_roots_ordinal + 1,
                dfs_state_ok(nni, semi@, vertex@, label@, parent@, n),
                semi@[r as int] == 1,
                1 <= v <= nn + 1,
            decreases nn + 1 - v,
        {
            if semi[v] == 0 && has_only_weak_retainers(g, ess, ri, v - 1) {
                let ghost p0 = parent@;
                parent.set(v, r);
                proof {
                    lemma_set_parent(nni, semi@, vertex@, label@, p0, n, v as int, r);
                }
                dfs_number(g, ess, v as u32, &mut semi, &mut n, &mut vertex, &mut label, &mut parent);
            }
            v += 1;
        }
    }
    if (n as usize) < nn {
        let mut v: usize = 1;
        while v <= nn
            invariant
                nn == g.node_count(),
                nni == nn,
                nn < 0x7fff_0000,
                1 <= r <= nn,
                r == g.gc_roots_ordinal + 1,
                dfs_state_ok(nni, semi@, vertex@, label@, parent@, n),
                semi@[r as int] == 1,
                1 <= v <= nn + 1,
                forall|x: int| 1 <= x < v ==> #[trigger] semi@[x] != 0,
            decreases nn + 1 - v,
        {
            if semi[v] == 0 {
                let ghost p0 = parent@;
                parent.set(v, r);
                proof {
                    lemma_set_parent(nni, semi@, vertex@, label@, p0, n, v as int, r);
                    lemma_state_number(nni, semi@, vertex@, label@, parent@, n, v as int);
                }
                n = n + 1;
                semi.set(v, n);
                vertex.set(n as usize, v as u32);
                label.set(v, v as u32);
            }
            v += 1;
        }
        proof {
            lemma_numbered_all(semi@);
        }
    } else {
        proof {
            lemma_numbered_bound(semi@);
        }
    }
    proof {
        lemma_numbering_done(nni, semi@, vertex@, label@, parent@, n, r as int);
    }
    (semi, vertex, label, parent)
}

/// Changing the semidominator of vertex `w`, numbered `t`, and putting `w`
/// in the bucket of its new semidominator keeps the buckets, with `w`
/// counted as processed.
proof fn lemma_bucket_insert(
    nn: int,
    num: Seq<u32>,
    vtx: Seq<u32>,
    s0: Seq<u32>,
    s1: Seq<u32>,
    head: Seq<u32>,
    next: Seq<u32>,
    w: int,
    t: int,
    bkt: int,
)
    requires
        buckets_ok(nn, num, vtx, s0, head, next, t),
        1 <= w <= nn,
        num[w] == t,
        s0.len() == nn + 1,
        s1.len() == s0.len(),
        forall|x: int| 0 <= x < s0.len() && x != w ==> s1[x] == s0[x],
        0 <= bkt <= nn,
        bkt == vtx[s1[w] as int],
        nn < 0x7fff_0000,
    ensures
        buckets_ok(nn, num, vtx, s1, head.update(bkt, w as u32), next.update(w, head[bkt]), t - 1),
{
    let h2 = head.update(bkt, w as u32);
    let n2 = next.update(w, head[bkt]);
    assert((w as u32) as int == w);
    assert forall|b: int| 0 <= b <= nn && (#[trigger] h2[b]) != 0 implies num[h2[b] as int] > t - 1 && vtx[s1[h2[b] as int] as int] == b by {
        if b != bkt {
            assert(h2[b] == head[b]);
            assert(head[b] != 0);
            assert(num[head[b] as int] > t);
            assert(head[b] as int != w);
            assert(s1[head[b] as int] == s0[head[b] as int]);
        } else {
            assert(h2[b] as int == w);
        }
    }
    assert forall|x: int| 1 <= x <= nn && (#[trigger] n2[x]) != 0 implies num[n2[x] as int] > t - 1 && vtx[s1[n2[x] as int] as int]
        == vtx[s1[x] as int] by {
        if x != w {
            assert(n2[x] == next[x]);
            assert(next[x] != 0);
            assert(num[next[x] as int] > t);
            assert(next[x] as int != w);
            assert(s1[next[x] as int] == s0[next[x] as int]);
            assert(s1[x] == s0[x]);
        } else {
            assert(n2[x] == head[bkt]);
            assert(head[bkt] != 0);
            assert(num[head[bkt] as int] > t);
            assert(head[bkt] as int != w);
            assert(s1[head[bkt] as int] == s0[head[bkt] as int]);
        }
    }
    assert forall|x: int| 1 <= x <= nn && num[x] <= t - 1 implies #[trigger] n2[x] == 0 by {
        assert(x != w);
    }
}

/// The Lengauer-Tarjan semidominator pass over the vertices in decreasing
/// DFS number: each vertex's semidominator from its essential retainers
/// (the GC roots' for a vertex with none), then the dominators of the
/// vertices waiting in its DFS parent's bucket, the relative ones still to
/// be resolved. Returns the dominators so far; each vertex's has a smaller
/// number.
#[verifier::spinoff_prover]
#[verifier::rlimit(40)]
fn semidominators(
    g: &Graph,
    ess: &Vec<bool>,
    ri: &RetainerIndex,
    semi: &mut Vec<u32>,
    vertex: &Vec<u32>,
    label: Vec<u32>,
    parent: &Vec<u32>,
    r: u32,
) -> (dom: Vec<u32>)
    requires
        g.wf(),
        ri.wf_for(*g),
        ess@.len() == g.edge_count(),
        numbering_ok(g.node_count() as int, old(semi)@, vertex@, parent@, r as int),
        arr_ok(old(semi)@, g.node_count() as int),
        arr_ok(vertex@, g.node_count() as int),
        arr_ok(label@, g.node_count() as int),
        forall|x: int| 1 <= x <= g.node_count() ==> #[trigger] label@[x] == x,
    ensures
        arr_ok(final(semi)@, g.node_count() as int),
        dom_ok(g.node_count() as int, old(semi)@, dom@, r as int),
{
    let nn = g.nodes.len();
    let ghost nni = nn as int;
    let ghost num = semi@;
    let ghost vtx = vertex@;
    let ghost par = parent@;
    let len = nn + 1;
    let mut label = label;
    let mut ancestor: Vec<u32> = vec![0u32; len];
    let mut bucket_head: Vec<u32> = vec![0u32; len];
    let mut bucket_next: Vec<u32> = vec![0u32; len];
    let mut stack: Vec<u32> = vec![0u32; len];
    let mut dom: Vec<u32> = vec![0u32; len];
    proof {
        assert(forest_ok(nni, num, ancestor@, label@));
        assert(semi_ok(nni, num, semi@, nni));
        assert(dom_ok(nni, num, dom@, r as int));
        assert(buckets_ok(nni, num, vtx, semi@, bucket_head@, bucket_next@, nni));
        assert(arr_ok(stack@, nni));
    }
    let mut i: u32 = nn as u32;
    while i >= 2
        invariant
            g.wf(),
            ri.wf_for(*g),
            nn == g.node_count(),
            nni == nn,
            nn < 0x7fff_0000,
            ess@.len() == g.edge_count(),
            i <= nn,
            1 <= r <= nn,
            vertex@ == vtx,
            parent@ == par,
            arr_ok(vtx, nni),
            numbering_ok(nni, num, vtx, par, r as int),
            semi_ok(nni, num, semi@, i as int),
            forest_ok(nni, num, ancestor@, label@),
            buckets_ok(nni, num, vtx, semi@, bucket_head@, bucket_next@, i as int),
            dom_ok(nni, num, dom@, r as int),
            arr_ok(stack@, nni),
        decreases i,
    {
        let w = vertex[i as usize];
        let w_ord = (w - 1) as usize;
        let mut is_orphan = true;
        let ghost s0 = semi@;
        proof {
            lemma_retainer_range(*g, *ri, w_ord as int);
            assert(num[w as int] == i);
        }
        let begin = ri.first_retainer_index[w_ord] as usize;
        let end = ri.first_retainer_index[w_ord + 1] as usize;
        let mut s = begin;
        while s < end
            invariant
                g.wf(),
                ri.wf_for(*g),
                nn == g.node_count(),
                ess@.len() == g.edge_count(),
                w_ord < nn,
                1 <= w <= nn,
                w_ord + 1 == w,
                num[w as int] == i,
                begin == ri.range_begin(w_ord as int),
                end == ri.range_end(w_ord as int),
                begin <= s <= end,
                numbering_ok(nni, num, vtx, par, r as int),
                semi_ok(nni, num, semi@, i - 1),
                semi@.len() == s0.len(),
                forall|x: int| 0 <= x < s0.len() && x != w ==> semi@[x] == s0[x],
                forest_ok(nni, num, ancestor@, label@),
                arr_ok(stack@, nni),
                nni == nn,
            decreases end - s,
        {
            proof {
                lemma_retainer_entry(*g, *ri, w_ord as int, s as int);
            }
            let e = ri.retaining_edges[s] as usize;
            if ess[e] {
                is_orphan = false;
                let v = ri.retaining_nodes[s] + 1;
                let u = evaluate(v, &mut ancestor, &mut label, &*semi, &mut stack, Ghost(nni), Ghost(num));
                if semi[u as usize] < semi[w as usize] {
                    let su = semi[u as usize];
                    semi.set(w as usize, su);
                }
            }
            s += 1;
        }
        if is_orphan {
            let sr = semi[r as usize];
            semi.set(w as usize, sr);
        }
        let bkt = vertex[semi[w as usize] as usize] as usize;
        let head = bucket_head[bkt];
        proof {
            lemma_bucket_insert(nni, num, vtx, s0, semi@, bucket_head@, bucket_next@, w as int, i as int, bkt as int);
        }
        bucket_next.set(w as usize, head);
        bucket_head.set(bkt, w);
        let pw_v = parent[w as usize];
        ancestor.set(w as usize, pw_v);
        let pw = pw_v as usize;
        let mut v = bucket_head[pw];
        bucket_head.set(pw, 0);
        let mut steps: usize = 0;
        while v != 0 && steps <= nn
            invariant
                nn == g.node_count(),
                nni == nn,
                nn < 0x7fff_0000,
                v <= nn,
                steps <= nn + 1,
                1 <= pw_v <= nn,
                pw == pw_v,
                num[pw as int] < i,
                1 <= r <= nn,
                i >= 2,
                v != 0 ==> num[v as int] > i - 1 && vtx[semi@[v as int] as int] == pw,
                numbering_ok(nni, num, vtx, par, r as int),
                semi_ok(nni, num, semi@, i - 1),
                forest_ok(nni, num, ancestor@, label@),
                buckets_ok(nni, num, vtx, semi@, bucket_head@, bucket_next@, i - 1),
                dom_ok(nni, num, dom@, r as int),
                arr_ok(stack@, nni),
            decreases nn + 1 - steps,
        {
            let next = bucket_next[v as usize];
            bucket_next.set(v as usize, 0);
            let u = evaluate(v, &mut ancestor, &mut label, &*semi, &mut stack, Ghost(nni), Ghost(num));
            proof {
                assert(num[vtx[semi@[v as int] as int] as int] == semi@[v as int]);
            }
            if semi[u as usize] < semi[v as usize] {
                dom.set(v as usize, u);
            } else {
                dom.set(v as usize, pw_v);
            }
            v = next;
            steps += 1;
        }
        i -= 1;
    }
    dom
}

/// The immediate dominator of every node, by the Lengauer-Tarjan algorithm
/// over the essential edges, from the GC roots; and every node but the GC
/// roots in an order where each comes before its dominator. Nodes that the
/// search does not reach from there are attached first through those whose
/// retainers are all non-essential, then directly under the GC roots. The
/// tree is checked against the essential edges that leave nodes reached
/// from the GC roots, so that every such walk to a node passes through the
/// node's dominator.
#[verifier::spinoff_prover]
pub fn calculate_dominators(g: &Graph, ess: &Vec<bool>, ri: &RetainerIndex) -> (r: (Vec<u32>, Vec<u32>))
    requires
        g.wf(),
        ri.wf_for(*g),
        ess@.len() == g.edge_count(),
    ensures
        r.0@.len() == g.node_count(),
        forall|v: int| 0 <= v < g.node_count() ==> #[trigger] r.0@[v] < g.node_count(),
        r.0@[g.gc_roots_ordinal as int] == g.gc_roots_ordinal,
        r.1@.len() == g.node_count() - 1,
        forall|k: int| 0 <= k < r.1@.len() ==> #[trigger] r.1@[k] < g.node_count() && r.1@[k] != g.gc_roots_ordinal,
        forall|v: int| 0 <= v < g.node_count() && v != g.gc_roots_ordinal ==> #[trigger] in_order(r.1@, v),
        tree_ordered(r.0@, r.1@),
        idom_on_every_path(*g, ess@, r.0@),
{
    let nn = g.nodes.len();
    let ghost nni = nn as int;
    let n = nn as u32;
    let (mut semi, vertex, label, parent) = number_vertices(g, ess, ri);
    let ghost num = semi@;
    let ghost vtx = vertex@;
    let r = (g.gc_roots_ordinal + 1) as u32;
    let mut dom = semidominators(g, ess, ri, &mut semi, &vertex, label, &parent, r);
    dom.set(0, r);
    dom.set(r as usize, r);
    let mut i: u32 = 2;
    while i <= n
        invariant
            nn == g.node_count(),
            n == nn,
            nn < 0x7fff_0000,
            nni == nn,
            2 <= i,
            i <= n + 1 || i == 2,
            1 <= r <= nn,
            vertex@ == vtx,
            numbering_ok(nni, num, vtx, parent@, r as int),
            arr_ok(semi@, nni),
            dom_ok(nni, num, dom@, r as int),
            dom@[0] == r,
            dom@[r as int] == r,
        decreases n + 1 - i,
    {
        let w = vertex[i as usize] as usize;
        let d = dom[w];
        proof {
            assert(num[w as int] == i);
        }
        if d != vertex[semi[w] as usize] {
            let dd = dom[d as usize];
            dom.set(w, dd);
        }
        i += 1;
    }
    let gc = g.gc_roots_ordinal;
    let mut idom: Vec<u32> = Vec::new();
    let mut ord: usize = 0;
    while ord < nn
        invariant
            g.wf(),
            nn == g.node_count(),
            1 <= r <= nn,
            r == gc + 1,
            gc == g.gc_roots_ordinal,
            nni == nn,
            arr_ok(dom@, nni),
            idom@.len() == ord,
            ord <= nn,
            forall|o: int| 0 <= o < ord ==> #[trigger] idom@[o] == (if o == gc || dom@[o + 1] == 0 {
                gc as u32
            } else {
                (dom@[o + 1] - 1) as u32
            }),
            forall|o: int| 0 <= o < ord ==> #[trigger] idom@[o] < nn,
        decreases nn - ord,
    {
        let d = dom[ord + 1];
        if ord == gc || d == 0 {
            idom.push(gc as u32);
        } else {
            idom.push(d - 1);
        }
        ord += 1;
    }
    let mut order: Vec<u32> = Vec::new();
    let mut i: u32 = n;
    while i >= 2
        invariant
            nn == g.node_count(),
            n == nn,
            i <= n,
            nni == nn,
            vertex@ == vtx,
            numbering_ok(nni, num, vtx, parent@, r as int),
            1 <= i,
            order@.len() == n - i,
            forall|k: int| 0 <= k < order@.len() ==> #[trigger] order@[k] == vtx[n - k] - 1,
        decreases i,
    {
        order.push(vertex[i as usize] - 1);
        i -= 1;
    }
    proof {
        assert forall|k: int| 0 <= k < order@.len() implies #[trigger] order@[k] < nn && order@[k] != gc by {
            assert(1 <= vtx[n - k] <= nni);
            assert(num[vtx[n - k] as int] == n - k);
        }
        assert forall|v: int| 0 <= v < nn && v != gc implies #[trigger] in_order(order@, v) by {
            let x = v + 1;
            assert(1 <= num[x] <= nni);
            assert(num[x] != 1);
            let k = n - num[x];
            assert(order@[k] == vtx[num[x] as int] - 1);
            assert(order@[k] == v);
        }
        assert forall|k: int, k2: int| #![trigger order@[k], order@[k2]]
            0 <= k <= k2 < order@.len() implies idom@[order@[k2] as int] != order@[k] && (k < k2 ==> order@[k] != order@[k2]) by {
            let x = vtx[n - k];
            let x2 = vtx[n - k2];
            assert(1 <= x <= nni);
            assert(1 <= x2 <= nni);
            assert(num[x as int] == n - k);
            assert(num[x2 as int] == n - k2);
            let o2 = order@[k2] as int;
            assert(o2 + 1 == x2);
            assert(o2 != gc);
            if dom@[o2 + 1] != 0 {
                assert(num[dom@[x2 as int] as int] < num[x2 as int]);
            }
        }
    }
    let idom = settle_dominators(g, ess, idom, &order);
    (idom, order)
}

} // verus!
