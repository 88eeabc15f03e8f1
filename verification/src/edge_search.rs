use vstd::prelude::*;
use crate::graph::Graph;
use crate::bytes::bytes_eq;

verus! {

/// Marks a node without the edge a slot of `EdgeTargets` looks for.
pub const NO_EDGE_TARGET: u32 = 0xffff_ffff;

/// Edge `e` is named `name` (and is internal, when `internal_only`).
pub open spec fn edge_matches(g: Graph, e: int, name: Seq<u8>, internal_only: bool) -> bool {
    &&& g.edge_is_named(e)
    &&& g.edge_name(e) == name
    &&& (internal_only ==> g.edge_type(e) == g.types.edge_internal)
}

/// `e` is the first outgoing edge of `v` that matches.
pub open spec fn is_first_match(g: Graph, v: int, e: int, name: Seq<u8>, internal_only: bool) -> bool {
    &&& g.is_out_edge(v, e)
    &&& edge_matches(g, e, name, internal_only)
    &&& forall|f: int| g.edge_begin(v) <= f < e ==> !edge_matches(g, f, name, internal_only)
}

/// A node has at most one first edge of a given name.
pub proof fn lemma_first_match_unique(g: Graph, v: int, e1: int, e2: int, name: Seq<u8>, internal_only: bool)
    requires
        is_first_match(g, v, e1, name, internal_only),
        is_first_match(g, v, e2, name, internal_only),
    ensures
        e1 == e2,
{
}

/// No outgoing edge of `v` matches.
pub open spec fn no_match(g: Graph, v: int, name: Seq<u8>, internal_only: bool) -> bool {
    forall|f: int| #[trigger] g.is_out_edge(v, f) ==> !edge_matches(g, f, name, internal_only)
}

/// The first outgoing edge of `v` named `name` (and internal, when
/// `internal_only`).
pub fn first_named_edge(g: &Graph, v: usize, name: &[u8], internal_only: bool) -> (r: Option<usize>)
    requires
        g.wf(),
        v < g.node_count(),
    ensures
        match r {
            Some(e) => is_first_match(*g, v as int, e as int, name@, internal_only),
            None => no_match(*g, v as int, name@, internal_only),
        },
{
    let (first, last) = g.node_edge_range(v);
    let mut e = first;
    while e < last
        invariant
            g.wf(),
            v < g.node_count(),
            first == g.edge_begin(v as int),
            last == g.edge_end(v as int),
            last <= g.edge_count(),
            first <= e <= last,
            forall|f: int| first <= f < e ==> !edge_matches(*g, f, name@, internal_only),
        decreases last - e,
    {
        if g.edge_is_named_exec(e) {
            if !internal_only || g.edge_type_raw(e) == g.types.edge_internal {
                if bytes_eq(g.edge_name_bytes(e), name) {
                    return Some(e);
                }
            }
        }
        e += 1;
    }
    None
}

/// The target of the first outgoing edge of `v` that matches, as a slot
/// value: `NO_EDGE_TARGET` when none does.
pub fn named_edge_slot(g: &Graph, v: usize, name: &[u8], internal_only: bool) -> (r: u32)
    requires
        g.wf(),
        v < g.node_count(),
    ensures
        r == NO_EDGE_TARGET ==> no_match(*g, v as int, name@, internal_only),
        r != NO_EDGE_TARGET ==> exists|e: int|
            is_first_match(*g, v as int, e, name@, internal_only) && g.edge_target(e) == r,
{
    match first_named_edge(g, v, name, internal_only) {
        Some(e) => {
            let t = g.edge_to_node(e);
            t as u32
        },
        None => NO_EDGE_TARGET,
    }
}

/// The first child of `v`, in edge order, whose node name is `name`.
pub fn find_child_by_name(g: &Graph, v: usize, name: &[u8]) -> (r: Option<usize>)
    requires
        g.wf(),
        v < g.node_count(),
    ensures
        match r {
            Some(c) => exists|e: int|
                g.is_out_edge(v as int, e) && g.edge_target(e) == c && g.node_name(c as int) == name@
                    && forall|f: int|
                    g.edge_begin(v as int) <= f < e ==> g.node_name(g.edge_target(f)) != name@,
            None => forall|e: int|
                #[trigger] g.is_out_edge(v as int, e) ==> g.node_name(g.edge_target(e)) != name@,
        },
{
    let (first, last) = g.node_edge_range(v);
    let mut e = first;
    while e < last
        invariant
            g.wf(),
            v < g.node_count(),
            first == g.edge_begin(v as int),
            last == g.edge_end(v as int),
            last <= g.edge_count(),
            first <= e <= last,
            forall|f: int| first <= f < e ==> g.node_name(g.edge_target(f)) != name@,
        decreases last - e,
    {
        let c = g.edge_to_node(e);
        if bytes_eq(g.node_name_bytes(c), name) {
            return Some(c);
        }
        e += 1;
    }
    None
}

} // verus!
