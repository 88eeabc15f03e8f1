use vstd::prelude::*;
use vstd::string::StringSliceAdditionalSpecFns;
use crate::graph::Graph;
use crate::types::RootKind;
use crate::bytes::bytes_eq;

verus! {

/// The kind of a child of the synthetic root: a node that is not synthetic,
/// or the synthetic "(Document DOM trees)" node, is a user root; any other
/// synthetic child is a system root.
pub open spec fn child_root_kind(g: Graph, c: int) -> RootKind {
    if g.node_type(c) != g.types.node_synthetic || g.node_name(c) == "(Document DOM trees)".spec_bytes() {
        RootKind::UserRoot
    } else {
        RootKind::SystemRoot
    }
}

/// Node `c` is the target of an edge of the synthetic root.
pub open spec fn is_root_child(g: Graph, c: int) -> bool {
    exists|e: int| #[trigger] g.is_out_edge(g.root_ordinal as int, e) && g.edge_target(e) == c
}

/// The root kind of every node.
pub open spec fn root_kind_of(g: Graph, v: int) -> RootKind {
    if is_root_child(g, v) {
        child_root_kind(g, v)
    } else if v == g.root_ordinal {
        RootKind::SyntheticRoot
    } else {
        RootKind::NonRoot
    }
}

/// The targets of the synthetic root's edges from `first` up to `e`, in
/// edge order, whose root kind is `kind` (a child reached twice is listed
/// twice).
pub open spec fn root_children_of_kind(g: Graph, first: int, e: int, kind: RootKind) -> Seq<usize>
    decreases e - first,
{
    if e <= first {
        Seq::empty()
    } else {
        let prev = root_children_of_kind(g, first, e - 1, kind);
        let c = g.edge_target(e - 1);
        if child_root_kind(g, c) == kind {
            prev.push(c as usize)
        } else {
            prev
        }
    }
}

/// The user roots, or the system roots, in edge order.
pub open spec fn roots_of_kind(g: Graph, kind: RootKind) -> Seq<usize> {
    root_children_of_kind(g, g.edge_begin(g.root_ordinal as int), g.edge_end(g.root_ordinal as int), kind)
}

fn child_kind(g: &Graph, c: usize) -> (r: RootKind)
    requires
        g.wf(),
        c < g.node_count(),
    ensures
        r == child_root_kind(*g, c as int),
{
    if g.node_type_raw(c) != g.types.node_synthetic {
        RootKind::UserRoot
    } else if bytes_eq(g.node_name_bytes(c), "(Document DOM trees)".as_bytes()) {
        RootKind::UserRoot
    } else {
        RootKind::SystemRoot
    }
}

/// Classifies the synthetic root and its children; returns the kinds with
/// the user roots and the system roots in edge order.
pub fn compute_root_kinds(g: &Graph) -> (r: (Vec<RootKind>, Vec<usize>, Vec<usize>))
    requires
        g.wf(),
    ensures
        r.0@.len() == g.node_count(),
        forall|v: int| 0 <= v < g.node_count() ==> #[trigger] r.0@[v] == root_kind_of(*g, v),
        forall|i: int| 0 <= i < r.1@.len() ==> #[trigger] r.1@[i] < g.node_count() && root_kind_of(*g, r.1@[i] as int) == RootKind::UserRoot,
        forall|i: int| 0 <= i < r.2@.len() ==> #[trigger] r.2@[i] < g.node_count() && root_kind_of(*g, r.2@[i] as int) == RootKind::SystemRoot,
        r.1@ == roots_of_kind(*g, RootKind::UserRoot),
        r.2@ == roots_of_kind(*g, RootKind::SystemRoot),
{
    let n = g.nodes.len();
    let root = g.root_ordinal;
    let mut kinds: Vec<RootKind> = vec![RootKind::NonRoot; n];
    kinds.set(root, RootKind::SyntheticRoot);
    let mut user: Vec<usize> = Vec::new();
    let mut system: Vec<usize> = Vec::new();
    let (first, last) = g.node_edge_range(root);
    let mut e = first;
    while e < last
        invariant
            g.wf(),
            n == g.node_count(),
            root == g.root_ordinal,
            first == g.edge_begin(root as int),
            last == g.edge_end(root as int),
            last <= g.edge_count(),
            first <= e <= last,
            kinds@.len() == n,
            forall|v: int|
                0 <= v < n ==> #[trigger] kinds@[v] == (if exists|f: int|
                    first <= f < e && #[trigger] g.edge_target(f) == v {
                    child_root_kind(*g, v)
                } else if v == root {
                    RootKind::SyntheticRoot
                } else {
                    RootKind::NonRoot
                }),
            forall|i: int| 0 <= i < user@.len() ==> #[trigger] user@[i] < n && exists|f: int|
                first <= f < e && g.edge_target(f) == user@[i] && child_root_kind(*g, user@[i] as int) == RootKind::UserRoot,
            forall|i: int| 0 <= i < system@.len() ==> #[trigger] system@[i] < n && exists|f: int|
                first <= f < e && g.edge_target(f) == system@[i] && child_root_kind(*g, system@[i] as int) == RootKind::SystemRoot,
            user@ == root_children_of_kind(*g, first as int, e as int, RootKind::UserRoot),
            system@ == root_children_of_kind(*g, first as int, e as int, RootKind::SystemRoot),
        decreases last - e,
    {
        let c = g.edge_to_node(e);
        let k = child_kind(g, c);
        kinds.set(c, k);
        if k == RootKind::UserRoot {
            user.push(c);
        } else {
            system.push(c);
        }
        proof {
            assert forall|v: int| 0 <= v < n implies #[trigger] kinds@[v] == (if exists|f: int|
                first <= f < e + 1 && #[trigger] g.edge_target(f) == v {
                child_root_kind(*g, v)
            } else if v == root {
                RootKind::SyntheticRoot
            } else {
                RootKind::NonRoot
            }) by {
                if v == c {
                    assert(g.edge_target(e as int) == v);
                } else {
                    if exists|f: int| first <= f < e + 1 && #[trigger] g.edge_target(f) == v {
                        let f = choose|f: int| first <= f < e + 1 && #[trigger] g.edge_target(f) == v;
                        assert(f != e);
                    }
                }
            }
            assert forall|i: int| 0 <= i < user@.len() implies #[trigger] user@[i] < n && exists|f: int|
                first <= f < e + 1 && g.edge_target(f) == user@[i] && child_root_kind(*g, user@[i] as int) == RootKind::UserRoot by {
                if i == user@.len() - 1 && k == RootKind::UserRoot {
                    assert(g.edge_target(e as int) == user@[i]);
                } else {
                    let f = choose|f: int| first <= f < e && g.edge_target(f) == user@[i] && child_root_kind(*g, user@[i] as int) == RootKind::UserRoot;
                    assert(first <= f < e + 1);
                }
            }
            assert forall|i: int| 0 <= i < system@.len() implies #[trigger] system@[i] < n && exists|f: int|
                first <= f < e + 1 && g.edge_target(f) == system@[i] && child_root_kind(*g, system@[i] as int) == RootKind::SystemRoot by {
                if i == system@.len() - 1 && k == RootKind::SystemRoot {
                    assert(g.edge_target(e as int) == system@[i]);
                } else {
                    let f = choose|f: int| first <= f < e && g.edge_target(f) == system@[i] && child_root_kind(*g, system@[i] as int) == RootKind::SystemRoot;
                    assert(first <= f < e + 1);
                }
            }
        }
        e += 1;
    }
    proof {
        assert forall|v: int| 0 <= v < n implies #[trigger] kinds@[v] == root_kind_of(*g, v) by {
            if is_root_child(*g, v) {
                let f = choose|f: int| #[trigger] g.is_out_edge(g.root_ordinal as int, f) && g.edge_target(f) == v;
                assert(first <= f < last);
            }
            if exists|f: int| first <= f < last && #[trigger] g.edge_target(f) == v {
                let f = choose|f: int| first <= f < last && #[trigger] g.edge_target(f) == v;
                assert(g.is_out_edge(g.root_ordinal as int, f));
            }
        }
        assert forall|i: int| 0 <= i < user@.len() implies #[trigger] user@[i] < g.node_count() && root_kind_of(*g, user@[i] as int) == RootKind::UserRoot by {
            let f = choose|f: int| first <= f < last && g.edge_target(f) == user@[i] && child_root_kind(*g, user@[i] as int) == RootKind::UserRoot;
            assert(g.is_out_edge(g.root_ordinal as int, f));
        }
        assert forall|i: int| 0 <= i < system@.len() implies #[trigger] system@[i] < g.node_count() && root_kind_of(*g, system@[i] as int) == RootKind::SystemRoot by {
            let f = choose|f: int| first <= f < last && g.edge_target(f) == system@[i] && child_root_kind(*g, system@[i] as int) == RootKind::SystemRoot;
            assert(g.is_out_edge(g.root_ordinal as int, f));
        }
    }
    (kinds, user, system)
}

} // verus!
