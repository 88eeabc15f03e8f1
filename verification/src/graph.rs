use vstd::prelude::*;
use crate::types::{NodeRecord, EdgeRecord, MAX_NODE_COUNT};

verus! {

/// The type ids that the analyses compare against. An id that the
/// snapshot's type list lacks is `u32::MAX`.
#[derive(Clone, Copy, Debug)]
pub struct TypeIds {
    pub node_array: u32,
    pub node_hidden: u32,
    pub node_object: u32,
    pub node_native: u32,
    pub node_string: u32,
    pub node_cons_string: u32,
    pub node_sliced_string: u32,
    pub node_code: u32,
    pub node_synthetic: u32,
    pub node_closure: u32,
    pub node_regexp: u32,
    pub node_number: u32,
    pub edge_element: u32,
    pub edge_hidden: u32,
    pub edge_internal: u32,
    pub edge_shortcut: u32,
    pub edge_weak: u32,
    pub edge_invisible: u32,
    pub edge_property: u32,
    pub edge_context: u32,
}

/// The node and edge arrays of a snapshot, with its string table.
pub struct Graph {
    pub nodes: Vec<NodeRecord>,
    pub edges: Vec<EdgeRecord>,
    pub strings: Vec<Vec<u8>>,
    pub node_types: Vec<Vec<u8>>,
    pub edge_types: Vec<Vec<u8>>,
    pub types: TypeIds,
    pub has_detachedness: bool,
    pub root_ordinal: usize,
    pub gc_roots_ordinal: usize,
}

impl Graph {
    pub open spec fn node_count(&self) -> nat {
        self.nodes@.len()
    }

    pub open spec fn edge_count(&self) -> nat {
        self.edges@.len()
    }

    /// First outgoing edge of node `v`.
    pub open spec fn edge_begin(&self, v: int) -> int {
        self.nodes@[v].first_edge as int
    }

    /// One past the last outgoing edge of node `v`.
    pub open spec fn edge_end(&self, v: int) -> int {
        self.nodes@[v].first_edge + self.nodes@[v].edge_count
    }

    /// Edge `e` leaves node `v`.
    pub open spec fn is_out_edge(&self, v: int, e: int) -> bool {
        self.edge_begin(v) <= e < self.edge_end(v)
    }

    pub open spec fn edge_target(&self, e: int) -> int {
        self.edges@[e].to_node_ordinal as int
    }

    pub open spec fn edge_type(&self, e: int) -> u32 {
        self.edges@[e].type_id
    }

    /// Edges other than element and hidden ones carry a name from the
    /// string table.
    pub open spec fn edge_is_named(&self, e: int) -> bool {
        self.edges@[e].type_id != self.types.edge_element && self.edges@[e].type_id
            != self.types.edge_hidden
    }

    pub open spec fn edge_name(&self, e: int) -> Seq<u8> {
        self.strings@[self.edges@[e].name_or_index as int]@
    }

    pub open spec fn node_type(&self, v: int) -> u32 {
        self.nodes@[v].type_id
    }

    pub open spec fn node_name(&self, v: int) -> Seq<u8> {
        self.strings@[self.nodes@[v].name as int]@
    }

    pub open spec fn self_size(&self, v: int) -> u32 {
        self.nodes@[v].self_size
    }

    /// The arrays describe a graph: each node's edges follow the previous
    /// node's, every edge points at a node, and every name is in the
    /// string table.
    pub open spec fn wf(&self) -> bool {
        &&& 0 < self.node_count() < MAX_NODE_COUNT
        &&& self.edge_count() < 0xffff_ffff
        &&& self.nodes@[0].first_edge == 0
        &&& self.edge_end(self.node_count() - 1) == self.edge_count()
        &&& forall|v: int|
            0 <= v < self.node_count() - 1 ==> #[trigger] self.edge_end(v) == self.edge_begin(
                v + 1,
            )
        &&& forall|v: int| 0 <= v < self.node_count() ==> #[trigger] self.edge_end(v) <= self.edge_count()
        &&& forall|e: int| 0 <= e < self.edge_count() ==> #[trigger] self.edge_target(e) < self.node_count()
        &&& forall|v: int|
            0 <= v < self.node_count() ==> (#[trigger] self.nodes@[v]).name < self.strings@.len()
        &&& forall|e: int|
            0 <= e < self.edge_count() && #[trigger] self.edge_is_named(e)
                ==> self.edges@[e].name_or_index < self.strings@.len()
        &&& self.root_ordinal < self.node_count()
        &&& self.gc_roots_ordinal < self.node_count()
    }

    pub fn node_count_exec(&self) -> (r: usize)
        ensures
            r == self.node_count(),
    {
        self.nodes.len()
    }

    /// The outgoing edges of node `v` as an index range.
    pub fn node_edge_range(&self, v: usize) -> (r: (usize, usize))
        requires
            self.wf(),
            v < self.node_count(),
        ensures
            r.0 == self.edge_begin(v as int),
            r.1 == self.edge_end(v as int),
            r.0 <= r.1 <= self.edge_count(),
    {
        let n = &self.nodes[v];
        assert(self.edge_end(v as int) <= self.edge_count());
        let first = n.first_edge as usize;
        (first, first + n.edge_count as usize)
    }

    pub fn edge_type_raw(&self, e: usize) -> (r: u32)
        requires
            e < self.edge_count(),
        ensures
            r == self.edge_type(e as int),
    {
        self.edges[e].type_id
    }

    pub fn edge_to_node(&self, e: usize) -> (r: usize)
        requires
            self.wf(),
            e < self.edge_count(),
        ensures
            r == self.edge_target(e as int),
            r < self.node_count(),
    {
        assert(self.edge_target(e as int) < self.node_count());
        self.edges[e].to_node_ordinal as usize
    }

    pub fn edge_name_or_index(&self, e: usize) -> (r: u32)
        requires
            e < self.edge_count(),
        ensures
            r == self.edges@[e as int].name_or_index,
    {
        self.edges[e].name_or_index
    }

    /// Edge `e` is neither an element nor a hidden edge.
    pub fn edge_is_named_exec(&self, e: usize) -> (r: bool)
        requires
            e < self.edge_count(),
        ensures
            r == self.edge_is_named(e as int),
    {
        let t = self.edges[e].type_id;
        t != self.types.edge_element && t != self.types.edge_hidden
    }

    /// The name of a named edge.
    pub fn edge_name_bytes(&self, e: usize) -> (r: &[u8])
        requires
            self.wf(),
            e < self.edge_count(),
            self.edge_is_named(e as int),
        ensures
            r@ == self.edge_name(e as int),
    {
        self.strings[self.edges[e].name_or_index as usize].as_slice()
    }

    pub fn node_type_raw(&self, v: usize) -> (r: u32)
        requires
            v < self.node_count(),
        ensures
            r == self.node_type(v as int),
    {
        self.nodes[v].type_id
    }

    pub fn node_name_bytes(&self, v: usize) -> (r: &[u8])
        requires
            self.wf(),
            v < self.node_count(),
        ensures
            r@ == self.node_name(v as int),
    {
        self.strings[self.nodes[v].name as usize].as_slice()
    }

    pub fn node_self_size_raw(&self, v: usize) -> (r: u32)
        requires
            v < self.node_count(),
        ensures
            r == self.self_size(v as int),
    {
        self.nodes[v].self_size
    }
}

/// Nodes' edge ranges come in ordinal order: a node's edges end at or
/// before the first edge of any later node.
pub proof fn lemma_edge_ranges_ordered(g: Graph, u: int, w: int)
    requires
        g.wf(),
        0 <= u < w < g.node_count(),
    ensures
        g.edge_end(u) <= g.edge_begin(w),
    decreases w - u,
{
    assert(g.edge_end(w - 1) == g.edge_begin(w));
    if w > u + 1 {
        lemma_edge_ranges_ordered(g, u, w - 1);
    }
}

/// An edge leaves exactly one node.
pub proof fn lemma_edge_owner_unique(g: Graph, u: int, w: int, e: int)
    requires
        g.wf(),
        0 <= u < g.node_count(),
        0 <= w < g.node_count(),
        g.is_out_edge(u, e),
        g.is_out_edge(w, e),
    ensures
        u == w,
{
    if u < w {
        lemma_edge_ranges_ordered(g, u, w);
    } else if w < u {
        lemma_edge_ranges_ordered(g, w, u);
    }
}

} // verus!
