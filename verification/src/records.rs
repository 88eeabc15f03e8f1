use vstd::prelude::*;
use vstd::string::StringSliceAdditionalSpecFns;
use crate::types::{NodeRecord, EdgeRecord, SnapshotError};
use crate::bytes::bytes_eq;

verus! {

/// Where each node field sits inside one node's run of numbers.
#[derive(Clone, Copy, Debug)]
pub struct NodeLayout {
    pub field_count: usize,
    pub type_offset: usize,
    pub name_offset: usize,
    pub id_offset: usize,
    pub self_size_offset: usize,
    pub edge_count_offset: usize,
    pub detachedness_offset: Option<usize>,
    pub trace_node_id_offset: Option<usize>,
}

/// Where each edge field sits inside one edge's run of numbers.
#[derive(Clone, Copy, Debug)]
pub struct EdgeLayout {
    pub field_count: usize,
    pub type_offset: usize,
    pub name_offset: usize,
    pub to_node_offset: usize,
    /// Edges store the target's index in the node array; dividing by this
    /// gives the target's ordinal.
    pub node_field_count: usize,
}

impl NodeLayout {
    pub open spec fn wf(self) -> bool {
        &&& self.type_offset < self.field_count
        &&& self.name_offset < self.field_count
        &&& self.id_offset < self.field_count
        &&& self.self_size_offset < self.field_count
        &&& self.edge_count_offset < self.field_count
        &&& (self.detachedness_offset matches Some(d) ==> d < self.field_count)
        &&& (self.trace_node_id_offset matches Some(d) ==> d < self.field_count)
    }
}

impl EdgeLayout {
    pub open spec fn wf(self) -> bool {
        &&& self.type_offset < self.field_count
        &&& self.name_offset < self.field_count
        &&& self.to_node_offset < self.field_count
        &&& self.node_field_count > 0
    }
}

/// The optional field at `off` of the record that starts at `base`, or 0.
pub open spec fn opt_field(vals: Seq<u32>, base: int, off: Option<usize>) -> u32 {
    match off {
        Some(o) => vals[base + o],
        None => 0,
    }
}

/// Node `i` read from the flat number array, given its first edge.
pub open spec fn node_at(vals: Seq<u32>, layout: NodeLayout, i: int, first_edge: u32) -> NodeRecord {
    let base = i * layout.field_count;
    NodeRecord {
        type_id: vals[base + layout.type_offset],
        name: vals[base + layout.name_offset],
        id: vals[base + layout.id_offset],
        self_size: vals[base + layout.self_size_offset],
        edge_count: vals[base + layout.edge_count_offset],
        detachedness: opt_field(vals, base, layout.detachedness_offset),
        trace_node_id: opt_field(vals, base, layout.trace_node_id_offset),
        first_edge,
    }
}

/// Sum of the edge counts of the first `k` nodes.
pub open spec fn edges_before(vals: Seq<u32>, layout: NodeLayout, k: int) -> int
    decreases k,
{
    if k <= 0 {
        0
    } else {
        edges_before(vals, layout, k - 1) + vals[(k - 1) * layout.field_count
            + layout.edge_count_offset]
    }
}

/// Edge `i` read from the flat number array.
pub open spec fn edge_at(vals: Seq<u32>, layout: EdgeLayout, i: int) -> EdgeRecord {
    let base = i * layout.field_count;
    EdgeRecord {
        type_id: vals[base + layout.type_offset],
        name_or_index: vals[base + layout.name_offset],
        to_node_ordinal: (vals[base + layout.to_node_offset] as int / layout.node_field_count as int) as u32,
    }
}

proof fn lemma_record_base(i: int, k: int, fc: int, off: int)
    requires
        0 <= i < k,
        0 <= off < fc,
    ensures
        0 <= i * fc + off < k * fc,
{
    assert(0 <= i * fc) by (nonlinear_arith)
        requires
            0 <= i,
            0 <= fc,
    ;
    assert((i + 1) * fc <= k * fc) by (nonlinear_arith)
        requires
            i + 1 <= k,
            0 <= fc,
    ;
    assert((i + 1) * fc == i * fc + fc) by (nonlinear_arith);
}

/// Splits the flat node array into `count` records. Each node's first edge
/// is the number of edges of the nodes before it; fails when the array is
/// too short or that number overflows `u32`.
pub fn nodes_from_values(vals: &[u32], count: usize, layout: NodeLayout) -> (r: Result<
    Vec<NodeRecord>,
    SnapshotError,
>)
    requires
        layout.wf(),
    ensures
        match r {
            Ok(nodes) => {
                &&& count * layout.field_count <= vals@.len()
                &&& nodes@.len() == count
                &&& forall|k: int| 0 <= k <= count ==> edges_before(vals@, layout, k) <= u32::MAX
                &&& forall|i: int|
                    0 <= i < count ==> #[trigger] nodes@[i] == node_at(
                        vals@,
                        layout,
                        i,
                        edges_before(vals@, layout, i) as u32,
                    )
            },
            Err(_) => count * layout.field_count > vals@.len() || exists|k: int|
                0 <= k <= count && edges_before(vals@, layout, k) > u32::MAX,
        },
{
    let fc = layout.field_count;
    let vlen = vals.len();
    let total = match count.checked_mul(fc) {
        Some(t) => t,
        None => {
            return Err(SnapshotError::Malformed("node array is too short".to_string()));
        },
    };
    if total > vals.len() {
        return Err(SnapshotError::Malformed("node array is too short".to_string()));
    }
    let mut nodes: Vec<NodeRecord> = Vec::with_capacity(count);
    let mut first_edge: u32 = 0;
    let mut i: usize = 0;
    while i < count
        invariant
            layout.wf(),
            fc == layout.field_count,
            count * fc <= vals@.len(),
            vlen == vals@.len(),
            i <= count,
            nodes@.len() == i,
            first_edge == edges_before(vals@, layout, i as int),
            forall|k: int| 0 <= k <= i ==> edges_before(vals@, layout, k) <= u32::MAX,
            forall|j: int|
                0 <= j < i ==> #[trigger] nodes@[j] == node_at(
                    vals@,
                    layout,
                    j,
                    edges_before(vals@, layout, j) as u32,
                ),
        decreases count - i,
    {
        proof {
            lemma_record_base(i as int, count as int, fc as int, layout.type_offset as int);
            lemma_record_base(i as int, count as int, fc as int, layout.name_offset as int);
            lemma_record_base(i as int, count as int, fc as int, layout.id_offset as int);
            lemma_record_base(i as int, count as int, fc as int, layout.self_size_offset as int);
            lemma_record_base(i as int, count as int, fc as int, layout.edge_count_offset as int);
            if let Some(d) = layout.detachedness_offset {
                lemma_record_base(i as int, count as int, fc as int, d as int);
            }
            if let Some(d) = layout.trace_node_id_offset {
                lemma_record_base(i as int, count as int, fc as int, d as int);
            }
        }
        let base = i * fc;
        let edge_count = vals[base + layout.edge_count_offset];
        let detachedness = match layout.detachedness_offset {
            Some(d) => vals[base + d],
            None => 0,
        };
        let trace_node_id = match layout.trace_node_id_offset {
            Some(d) => vals[base + d],
            None => 0,
        };
        let rec = NodeRecord {
            type_id: vals[base + layout.type_offset],
            name: vals[base + layout.name_offset],
            id: vals[base + layout.id_offset],
            self_size: vals[base + layout.self_size_offset],
            edge_count,
            detachedness,
            trace_node_id,
            first_edge,
        };
        nodes.push(rec);
        match first_edge.checked_add(edge_count) {
            Some(next) => {
                first_edge = next;
            },
            None => {
                assert(edges_before(vals@, layout, i + 1) > u32::MAX);
                return Err(SnapshotError::Malformed("node edge count overflow".to_string()));
            },
        }
        i += 1;
    }
    Ok(nodes)
}

/// Splits the flat edge array into `count` records; fails when the array
/// is too short.
pub fn edges_from_values(vals: &[u32], count: usize, layout: EdgeLayout) -> (r: Result<
    Vec<EdgeRecord>,
    SnapshotError,
>)
    requires
        layout.wf(),
    ensures
        match r {
            Ok(edges) => {
                &&& count * layout.field_count <= vals@.len()
                &&& edges@.len() == count
                &&& forall|i: int| 0 <= i < count ==> #[trigger] edges@[i] == edge_at(vals@, layout, i)
            },
            Err(_) => count * layout.field_count > vals@.len(),
        },
{
    let fc = layout.field_count;
    let vlen = vals.len();
    let total = match count.checked_mul(fc) {
        Some(t) => t,
        None => {
            return Err(SnapshotError::Malformed("edge array is too short".to_string()));
        },
    };
    if total > vals.len() {
        return Err(SnapshotError::Malformed("edge array is too short".to_string()));
    }
    let nfc = layout.node_field_count;
    let mut edges: Vec<EdgeRecord> = Vec::with_capacity(count);
    let mut i: usize = 0;
    while i < count
        invariant
            layout.wf(),
            fc == layout.field_count,
            nfc == layout.node_field_count,
            count * fc <= vals@.len(),
            vlen == vals@.len(),
            i <= count,
            edges@.len() == i,
            forall|j: int| 0 <= j < i ==> #[trigger] edges@[j] == edge_at(vals@, layout, j),
        decreases count - i,
    {
        proof {
            lemma_record_base(i as int, count as int, fc as int, layout.type_offset as int);
            lemma_record_base(i as int, count as int, fc as int, layout.name_offset as int);
            lemma_record_base(i as int, count as int, fc as int, layout.to_node_offset as int);
        }
        let base = i * fc;
        let to_node = vals[base + layout.to_node_offset];
        let to_ord = (to_node as usize / nfc) as u32;
        assert(to_ord == (to_node as int / nfc as int) as u32) by {
            assert(to_node as usize / nfc <= to_node as usize) by (nonlinear_arith)
                requires
                    nfc > 0,
            ;
        }
        let rec = EdgeRecord {
            type_id: vals[base + layout.type_offset],
            name_or_index: vals[base + layout.name_offset],
            to_node_ordinal: to_ord,
        };
        edges.push(rec);
        i += 1;
    }
    Ok(edges)
}

/// Index of the first entry of `list` equal to `name`.
pub fn position_of(list: &Vec<Vec<u8>>, name: &[u8]) -> (r: Option<usize>)
    ensures
        match r {
            Some(p) => p < list@.len() && list@[p as int]@ == name@ && forall|j: int|
                0 <= j < p ==> list@[j]@ != name@,
            None => forall|j: int| 0 <= j < list@.len() ==> list@[j]@ != name@,
        },
{
    let mut i: usize = 0;
    while i < list.len()
        invariant
            i <= list@.len(),
            forall|j: int| 0 <= j < i ==> list@[j]@ != name@,
        decreases list@.len() - i,
    {
        if bytes_eq(list[i].as_slice(), name) {
            return Some(i);
        }
        i += 1;
    }
    None
}

/// The UTF-8 bytes of a string.
pub fn string_bytes(s: &String) -> (r: Vec<u8>)
    ensures
        r@ == vstd::utf8::encode_utf8(s@),
{
    let b = s.as_str().as_bytes();
    vstd::slice::slice_to_vec(b)
}

/// The UTF-8 bytes of each string of a list.
pub fn strings_bytes(list: &Vec<String>) -> (r: Vec<Vec<u8>>)
    ensures
        r@.len() == list@.len(),
        forall|i: int| 0 <= i < list@.len() ==> #[trigger] r@[i]@ == vstd::utf8::encode_utf8(list@[i]@),
{
    let mut out: Vec<Vec<u8>> = Vec::with_capacity(list.len());
    let mut i: usize = 0;
    while i < list.len()
        invariant
            i <= list@.len(),
            out@.len() == i,
            forall|j: int| 0 <= j < i ==> #[trigger] out@[j]@ == vstd::utf8::encode_utf8(list@[j]@),
        decreases list@.len() - i,
    {
        out.push(string_bytes(&list[i]));
        i += 1;
    }
    out
}

} // verus!
