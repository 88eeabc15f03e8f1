use vstd::prelude::*;
use crate::graph::{Graph, lemma_edge_ranges_ordered};
use crate::retainers::{RetainerIndex, lemma_retainer_entry, lemma_retainer_range};
use crate::reach::{maybe_weak_map_ephemeron_edge_name, maybe_ephemeron_name, parse_decimal_u32, decimal_value};
use crate::ephemeron::{ephemeron_match, is_ephemeron_name, trailing_digits, is_digit};

verus! {

/// Whether an edge can make its source a dominator of its target: not weak,
/// not a self edge, not a shortcut (except from the GC roots), not an edge
/// of the synthetic root, and not the key-side edge of a WeakMap ephemeron
/// pair (the one whose source is not the table).
pub open spec fn essential_edge(g: Graph, src: int, e: int, key_side_ephemeron: bool) -> bool {
    &&& !key_side_ephemeron
    &&& g.edge_type(e) != g.types.edge_weak
    &&& src != g.edge_target(e)
    &&& (src != g.gc_roots_ordinal ==> g.edge_type(e) != g.types.edge_shortcut)
    &&& src != g.root_ordinal
}

/// An essential edge of node `u` leads to node `w`.
pub open spec fn essential_step(g: Graph, u: int, w: int) -> bool {
    exists|e: int|
        #[trigger] g.is_out_edge(u, e) && essential_edge(g, u, e, key_side_ephemeron(g, u, e)) && g.edge_target(e) == w
}

/// `p` is a walk over essential edges that starts at the GC roots.
pub open spec fn essential_path(g: Graph, p: Seq<int>) -> bool {
    &&& p.len() > 0
    &&& p[0] == g.gc_roots_ordinal as int
    &&& forall|i: int| 0 <= i < p.len() ==> 0 <= #[trigger] p[i] < g.node_count()
    &&& forall|i: int| 1 <= i < p.len() ==> #[trigger] essential_step(g, p[i - 1], p[i])
}

/// The table id digits at the end of an ephemeron edge name (before its
/// closing bracket).
pub open spec fn table_id_digits(s: Seq<u8>) -> Seq<u8> {
    s.subrange(s.len() - 1 - trailing_digits(s.drop_last()), s.len() - 1)
}

/// An internal edge named as a WeakMap ephemeron whose table id fits
/// `u32` and differs from the id of the edge's source: the key-side edge.
pub open spec fn key_side_ephemeron(g: Graph, src: int, e: int) -> bool {
    let name = g.edge_name(e);
    &&& g.edge_type(e) == g.types.edge_internal
    &&& g.edge_is_named(e)
    &&& maybe_ephemeron_name(name)
    &&& is_ephemeron_name(name)
    &&& decimal_value(table_id_digits(name)) <= u32::MAX
    &&& g.nodes@[src].id != decimal_value(table_id_digits(name))
}

/// Whether an internal ephemeron edge leaves a node other than its table:
/// its name carries a table id that parses and differs from the source's id.
pub fn is_key_side_ephemeron(g: &Graph, src: usize, e: usize) -> (r: bool)
    requires
        g.wf(),
        src < g.node_count(),
        e < g.edge_count(),
    ensures
        r == key_side_ephemeron(*g, src as int, e as int),
{
    if g.edge_type_raw(e) != g.types.edge_internal {
        return false;
    }
    if !g.edge_is_named_exec(e) {
        return false;
    }
    let name = g.edge_name_bytes(e);
    if !maybe_weak_map_ephemeron_edge_name(name) {
        return false;
    }
    match ephemeron_match(name) {
        Some((_d, t0, t1)) => {
            let digits = vstd::slice::slice_subrange(name, t0, t1);
            assert(digits@ == table_id_digits(name@));
            proof {
                assert(t1 - t0 == trailing_digits(name@.drop_last()));
                lemma_trailing_run_digits(name@.drop_last());
                assert forall|i: int| 0 <= i < digits@.len() implies is_digit(digits@[i]) by {
                    assert(digits@[i] == name@.drop_last()[t0 + i]);
                }
            }
            match parse_decimal_u32(digits) {
                Some(table_id) => g.nodes[src].id != table_id,
                None => false,
            }
        },
        None => false,
    }
}

proof fn lemma_trailing_run_digits(x: Seq<u8>)
    ensures
        trailing_digits(x) <= x.len(),
        forall|i: int| x.len() - trailing_digits(x) <= i < x.len() ==> is_digit(x[i]),
    decreases x.len(),
{
    if x.len() > 0 && is_digit(x.last()) {
        lemma_trailing_run_digits(x.drop_last());
        assert forall|i: int| x.len() - trailing_digits(x) <= i < x.len() implies is_digit(x[i]) by {
            if i < x.len() - 1 {
                assert(x[i] == x.drop_last()[i]);
            }
        }
    }
}

pub fn is_essential_edge(g: &Graph, src: usize, e: usize) -> (r: bool)
    requires
        g.wf(),
        src < g.node_count(),
        g.is_out_edge(src as int, e as int),
    ensures
        r == essential_edge(*g, src as int, e as int, key_side_ephemeron(*g, src as int, e as int)),
        r ==> essential_edge(*g, src as int, e as int, false),
{
    assert(e < g.edge_count());
    if is_key_side_ephemeron(g, src, e) {
        return false;
    }
    let t = g.edge_type_raw(e);
    if t == g.types.edge_weak {
        return false;
    }
    if src == g.edge_to_node(e) {
        return false;
    }
    if src != g.gc_roots_ordinal && t == g.types.edge_shortcut {
        return false;
    }
    if src == g.root_ordinal {
        return false;
    }
    true
}

/// Marks the edges that take part in the dominator computation: each edge
/// is marked exactly when it is essential for the node it leaves.
pub fn init_essential_edges(g: &Graph) -> (r: Vec<bool>)
    requires
        g.wf(),
    ensures
        r@.len() == g.edge_count(),
        forall|v: int, e: int|
            0 <= v < g.node_count() && #[trigger] g.is_out_edge(v, e) ==> (r@[e] <==> essential_edge(
                *g,
                v,
                e,
                key_side_ephemeron(*g, v, e),
            )),
        forall|v: int, e: int|
            0 <= v < g.node_count() && #[trigger] g.is_out_edge(v, e) && r@[e] ==> essential_edge(
                *g,
                v,
                e,
                false,
            ),
{
    let n = g.nodes.len();
    let m = g.edges.len();
    let mut ess: Vec<bool> = vec![false; m];
    let mut v: usize = 0;
    while v < n
        invariant
            g.wf(),
            n == g.node_count(),
            m == g.edge_count(),
            v <= n,
            ess@.len() == m,
            v < n ==> forall|e: int| 0 <= e < m && e >= g.edge_begin(v as int) ==> !#[trigger] ess@[e],
            forall|u: int, e: int|
                0 <= u < v && #[trigger] g.is_out_edge(u, e) ==> (ess@[e] <==> essential_edge(
                    *g,
                    u,
                    e,
                    key_side_ephemeron(*g, u, e),
                )),
        decreases n - v,
    {
        let (first, last) = g.node_edge_range(v);
        let mut e = first;
        while e < last
            invariant
                g.wf(),
                n == g.node_count(),
                m == g.edge_count(),
                v < n,
                first == g.edge_begin(v as int),
                last == g.edge_end(v as int),
                last <= m,
                first <= e <= last,
                ess@.len() == m,
                forall|f: int| 0 <= f < m && f >= e ==> !#[trigger] ess@[f],
                forall|f: int| first <= f < e ==> (#[trigger] ess@[f] <==> essential_edge(
                    *g,
                    v as int,
                    f,
                    key_side_ephemeron(*g, v as int, f),
                )),
                forall|u: int, f: int|
                    0 <= u < v && #[trigger] g.is_out_edge(u, f) ==> (ess@[f] <==> essential_edge(
                        *g,
                        u,
                        f,
                        key_side_ephemeron(*g, u, f),
                    )),
            decreases last - e,
        {
            proof {
                assert(g.is_out_edge(v as int, e as int));
            }
            if is_essential_edge(g, v, e) {
                ess.set(e, true);
            }
            proof {
                assert forall|u: int, f: int| 0 <= u < v && #[trigger] g.is_out_edge(u, f) implies (ess@[f] <==> essential_edge(
                    *g,
                    u,
                    f,
                    key_side_ephemeron(*g, u, f),
                )) by {
                    lemma_edge_ranges_ordered(*g, u, v as int);
                }
            }
            e += 1;
        }
        proof {
            if v + 1 < n {
                assert(g.edge_end(v as int) == g.edge_begin(v + 1));
            }
            assert forall|u: int, f: int| 0 <= u < v + 1 && #[trigger] g.is_out_edge(u, f) implies (ess@[f] <==> essential_edge(
                *g,
                u,
                f,
                key_side_ephemeron(*g, u, f),
            )) by {
                if u == v {
                }
            }
        }
        v += 1;
    }
    proof {
        assert forall|u: int, f: int| 0 <= u < n && #[trigger] g.is_out_edge(u, f) && ess@[f] implies essential_edge(*g, u, f, false) by {
        }
    }
    ess
}

/// An edge belongs to one node only.
pub proof fn lemma_edge_owner_unique(g: Graph, u: int, v: int, e: int)
    requires
        g.wf(),
        0 <= u < g.node_count(),
        0 <= v < g.node_count(),
        g.is_out_edge(u, e),
        g.is_out_edge(v, e),
    ensures
        u == v,
    decreases if u < v { v - u } else { u - v },
{
    if u < v {
        lemma_edge_begin_mono(g, u + 1, v);
        assert(g.edge_end(u) == g.edge_begin(u + 1));
    } else if v < u {
        lemma_edge_begin_mono(g, v + 1, u);
        assert(g.edge_end(v) == g.edge_begin(v + 1));
    }
}

/// Edge ranges follow the node order.
pub proof fn lemma_edge_begin_mono(g: Graph, a: int, b: int)
    requires
        g.wf(),
        0 <= a <= b < g.node_count(),
    ensures
        g.edge_begin(a) <= g.edge_begin(b),
    decreases b - a,
{
    if a < b {
        lemma_edge_begin_mono(g, a, b - 1);
        assert(g.edge_end(b - 1) == g.edge_begin(b));
    }
}

} // verus!
