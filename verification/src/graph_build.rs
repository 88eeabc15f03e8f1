use vstd::prelude::*;
use vstd::string::StringSliceAdditionalSpecFns;
use crate::types::{NodeRecord, EdgeRecord, SnapshotError, MAX_NODE_COUNT};
use crate::graph::{Graph, TypeIds};
use crate::records::{NodeLayout, EdgeLayout, position_of, node_at, edge_at, edges_before};
use crate::bytes::bytes_eq;

verus! {

/// `p` is the first position of `name` in a list of names.
pub open spec fn is_first_field(list: Seq<Seq<u8>>, name: Seq<u8>, p: int) -> bool {
    &&& 0 <= p < list.len()
    &&& list[p] == name
    &&& forall|j: int| 0 <= j < p ==> list[j] != name
}

/// `name` is in the list.
pub open spec fn has_field(list: Seq<Seq<u8>>, name: Seq<u8>) -> bool {
    exists|j: int| 0 <= j < list.len() && list[j] == name
}

/// The first position of `name` in the list (meaningful when it is there).
pub open spec fn field_pos(list: Seq<Seq<u8>>, name: Seq<u8>) -> int {
    choose|p: int| is_first_field(list, name, p)
}

/// The first position of `name`, if it is in the list.
pub open spec fn opt_field_pos(list: Seq<Seq<u8>>, name: Seq<u8>) -> Option<usize> {
    if has_field(list, name) {
        Some(field_pos(list, name) as usize)
    } else {
        None
    }
}

/// The type id of a type name: its first position, or `u32::MAX` when it
/// is missing or sits at `u32::MAX` or beyond.
pub open spec fn type_code(list: Seq<Seq<u8>>, name: Seq<u8>) -> u32 {
    if has_field(list, name) && field_pos(list, name) < u32::MAX {
        field_pos(list, name) as u32
    } else {
        u32::MAX
    }
}

/// A name in the list has a first position.
pub proof fn lemma_first_field(list: Seq<Seq<u8>>, name: Seq<u8>, j: int)
    requires
        0 <= j < list.len(),
        list[j] == name,
    ensures
        has_field(list, name),
        is_first_field(list, name, field_pos(list, name)),
    decreases j,
{
    if exists|i: int| 0 <= i < j && list[i] == name {
        let i = choose|i: int| 0 <= i < j && list[i] == name;
        lemma_first_field(list, name, i);
    } else {
        assert(is_first_field(list, name, j));
    }
}

/// A name in the list sits at its first position.
pub proof fn lemma_field_pos(list: Seq<Seq<u8>>, name: Seq<u8>)
    requires
        has_field(list, name),
    ensures
        is_first_field(list, name, field_pos(list, name)),
{
    let j = choose|j: int| 0 <= j < list.len() && list[j] == name;
    lemma_first_field(list, name, j);
}

/// There is only one first position.
pub proof fn lemma_first_field_unique(list: Seq<Seq<u8>>, name: Seq<u8>, p: int)
    requires
        is_first_field(list, name, p),
    ensures
        has_field(list, name),
        field_pos(list, name) == p,
{
    lemma_first_field(list, name, p);
    let q = field_pos(list, name);
    if q < p {
        assert(list[q] == name);
    } else if p < q {
        assert(list[p] == name);
    }
}

/// The byte strings of a list of byte vectors.
pub open spec fn byte_views(s: Seq<Vec<u8>>) -> Seq<Seq<u8>> {
    Seq::new(s.len(), |i: int| s[i]@)
}

/// The first position of `name` in a list, if any.
fn find_field(list: &Vec<Vec<u8>>, name: &[u8]) -> (r: Option<usize>)
    ensures
        r == opt_field_pos(byte_views(list@), name@),
{
    let r = position_of(list, name);
    proof {
        let l = byte_views(list@);
        match r {
            Some(p) => {
                assert(is_first_field(l, name@, p as int));
                lemma_first_field_unique(l, name@, p as int);
            },
            None => {
                if has_field(l, name@) {
                    let j = choose|j: int| 0 <= j < l.len() && l[j] == name@;
                    assert(list@[j]@ == name@);
                }
            },
        }
    }
    r
}

/// Position of `name` in `list` as a type id, `u32::MAX` when absent.
pub fn type_id_of(list: &Vec<Vec<u8>>, name: &str) -> (r: u32)
    ensures
        r == type_code(byte_views(list@), name.spec_bytes()),
{
    let f = find_field(list, name.as_bytes());
    proof {
        assert(byte_views(list@).len() == list@.len());
        assert(list.len() == list@.len());
        if has_field(byte_views(list@), name.spec_bytes()) {
            lemma_field_pos(byte_views(list@), name.spec_bytes());
        }
    }
    match f {
        Some(p) => {
            if p < 0xffff_ffffusize {
                p as u32
            } else {
                0xffff_ffffu32
            }
        },
        None => 0xffff_ffffu32,
    }
}

fn required_field(fields: &Vec<Vec<u8>>, name: &str) -> (r: Result<usize, SnapshotError>)
    ensures
        r is Ok <==> has_field(byte_views(fields@), name.spec_bytes()),
        r matches Ok(p) ==> p == field_pos(byte_views(fields@), name.spec_bytes()) && p < fields@.len(),
{
    let f = find_field(fields, name.as_bytes());
    proof {
        assert(byte_views(fields@).len() == fields@.len());
        assert(fields.len() == fields@.len());
        if has_field(byte_views(fields@), name.spec_bytes()) {
            lemma_field_pos(byte_views(fields@), name.spec_bytes());
        }
    }
    match f {
        Some(p) => {
            Ok(p)
        },
        None => Err(SnapshotError::Malformed("missing a required field in the snapshot meta".to_string())),
    }
}

/// Every field that the analyses read is named: type, name, id,
/// self_size and edge_count among the node fields, type, name_or_index
/// and to_node among the edge fields.
pub open spec fn required_fields_present(nf: Seq<Seq<u8>>, ef: Seq<Seq<u8>>) -> bool {
    &&& has_field(nf, "type".spec_bytes())
    &&& has_field(nf, "name".spec_bytes())
    &&& has_field(nf, "id".spec_bytes())
    &&& has_field(nf, "self_size".spec_bytes())
    &&& has_field(nf, "edge_count".spec_bytes())
    &&& has_field(ef, "type".spec_bytes())
    &&& has_field(ef, "name_or_index".spec_bytes())
    &&& has_field(ef, "to_node".spec_bytes())
}

/// The node layout of a node field list: each field at its first position.
pub open spec fn node_layout_of(nf: Seq<Seq<u8>>) -> NodeLayout {
    NodeLayout {
        field_count: nf.len() as usize,
        type_offset: field_pos(nf, "type".spec_bytes()) as usize,
        name_offset: field_pos(nf, "name".spec_bytes()) as usize,
        id_offset: field_pos(nf, "id".spec_bytes()) as usize,
        self_size_offset: field_pos(nf, "self_size".spec_bytes()) as usize,
        edge_count_offset: field_pos(nf, "edge_count".spec_bytes()) as usize,
        detachedness_offset: opt_field_pos(nf, "detachedness".spec_bytes()),
        trace_node_id_offset: opt_field_pos(nf, "trace_node_id".spec_bytes()),
    }
}

/// The edge layout of an edge field list, with the node record length.
pub open spec fn edge_layout_of(nf: Seq<Seq<u8>>, ef: Seq<Seq<u8>>) -> EdgeLayout {
    EdgeLayout {
        field_count: ef.len() as usize,
        type_offset: field_pos(ef, "type".spec_bytes()) as usize,
        name_offset: field_pos(ef, "name_or_index".spec_bytes()) as usize,
        to_node_offset: field_pos(ef, "to_node".spec_bytes()) as usize,
        node_field_count: nf.len() as usize,
    }
}

/// Where each field sits in node and edge records, from the `meta` field
/// lists. Fails when a field that every snapshot has is missing.
pub fn layouts(node_fields: &Vec<Vec<u8>>, edge_fields: &Vec<Vec<u8>>) -> (r: Result<
    (NodeLayout, EdgeLayout),
    SnapshotError,
>)
    ensures
        r is Ok <==> required_fields_present(byte_views(node_fields@), byte_views(edge_fields@)),
        r matches Ok((nl, el)) ==> nl == node_layout_of(byte_views(node_fields@)) && el == edge_layout_of(
            byte_views(node_fields@),
            byte_views(edge_fields@),
        ),
        r matches Ok((nl, el)) ==> {
            &&& nl.wf()
            &&& el.wf()
            &&& nl.field_count == node_fields@.len()
            &&& el.field_count == edge_fields@.len()
            &&& el.node_field_count == node_fields@.len()
            &&& node_fields@[nl.type_offset as int]@ == "type".spec_bytes()
            &&& node_fields@[nl.name_offset as int]@ == "name".spec_bytes()
            &&& node_fields@[nl.id_offset as int]@ == "id".spec_bytes()
            &&& node_fields@[nl.self_size_offset as int]@ == "self_size".spec_bytes()
            &&& node_fields@[nl.edge_count_offset as int]@ == "edge_count".spec_bytes()
            &&& edge_fields@[el.type_offset as int]@ == "type".spec_bytes()
            &&& edge_fields@[el.name_offset as int]@ == "name_or_index".spec_bytes()
            &&& edge_fields@[el.to_node_offset as int]@ == "to_node".spec_bytes()
        },
{
    let type_offset = required_field(node_fields, "type")?;
    let name_offset = required_field(node_fields, "name")?;
    let id_offset = required_field(node_fields, "id")?;
    let self_size_offset = required_field(node_fields, "self_size")?;
    let edge_count_offset = required_field(node_fields, "edge_count")?;
    let detachedness_offset = find_field(node_fields, "detachedness".as_bytes());
    let trace_node_id_offset = find_field(node_fields, "trace_node_id".as_bytes());
    proof {
        let l = byte_views(node_fields@);
        assert(l.len() == node_fields@.len());
        assert(node_fields.len() == node_fields@.len());
        if has_field(l, "detachedness".spec_bytes()) {
            lemma_field_pos(l, "detachedness".spec_bytes());
        }
        if has_field(l, "trace_node_id".spec_bytes()) {
            lemma_field_pos(l, "trace_node_id".spec_bytes());
        }
        lemma_field_pos(l, "type".spec_bytes());
        lemma_field_pos(l, "name".spec_bytes());
        lemma_field_pos(l, "id".spec_bytes());
        lemma_field_pos(l, "self_size".spec_bytes());
        lemma_field_pos(l, "edge_count".spec_bytes());
    }
    let e_type = required_field(edge_fields, "type")?;
    let e_name = required_field(edge_fields, "name_or_index")?;
    let e_to = required_field(edge_fields, "to_node")?;
    proof {
        let l = byte_views(edge_fields@);
        assert(l.len() == edge_fields@.len());
        lemma_field_pos(l, "type".spec_bytes());
        lemma_field_pos(l, "name_or_index".spec_bytes());
        lemma_field_pos(l, "to_node".spec_bytes());
    }
    let nl = NodeLayout {
        field_count: node_fields.len(),
        type_offset,
        name_offset,
        id_offset,
        self_size_offset,
        edge_count_offset,
        detachedness_offset,
        trace_node_id_offset,
    };
    let el = EdgeLayout {
        field_count: edge_fields.len(),
        type_offset: e_type,
        name_offset: e_name,
        to_node_offset: e_to,
        node_field_count: node_fields.len(),
    };
    Ok((nl, el))
}

/// The type ids of the type names that the analyses look for.
pub open spec fn type_ids_of(nt: Seq<Seq<u8>>, et: Seq<Seq<u8>>) -> TypeIds {
    TypeIds {
        node_array: type_code(nt, "array".spec_bytes()),
        node_hidden: type_code(nt, "hidden".spec_bytes()),
        node_object: type_code(nt, "object".spec_bytes()),
        node_native: type_code(nt, "native".spec_bytes()),
        node_string: type_code(nt, "string".spec_bytes()),
        node_cons_string: type_code(nt, "concatenated string".spec_bytes()),
        node_sliced_string: type_code(nt, "sliced string".spec_bytes()),
        node_code: type_code(nt, "code".spec_bytes()),
        node_synthetic: type_code(nt, "synthetic".spec_bytes()),
        node_closure: type_code(nt, "closure".spec_bytes()),
        node_regexp: type_code(nt, "regexp".spec_bytes()),
        node_number: type_code(nt, "number".spec_bytes()),
        edge_element: type_code(et, "element".spec_bytes()),
        edge_hidden: type_code(et, "hidden".spec_bytes()),
        edge_internal: type_code(et, "internal".spec_bytes()),
        edge_shortcut: type_code(et, "shortcut".spec_bytes()),
        edge_weak: type_code(et, "weak".spec_bytes()),
        edge_invisible: type_code(et, "invisible".spec_bytes()),
        edge_property: type_code(et, "property".spec_bytes()),
        edge_context: type_code(et, "context".spec_bytes()),
    }
}

/// The type ids of the names the analyses look for.
pub fn type_ids(node_types: &Vec<Vec<u8>>, edge_types: &Vec<Vec<u8>>) -> (r: TypeIds)
    ensures
        r == type_ids_of(byte_views(node_types@), byte_views(edge_types@)),
{
    TypeIds {
        node_array: type_id_of(node_types, "array"),
        node_hidden: type_id_of(node_types, "hidden"),
        node_object: type_id_of(node_types, "object"),
        node_native: type_id_of(node_types, "native"),
        node_string: type_id_of(node_types, "string"),
        node_cons_string: type_id_of(node_types, "concatenated string"),
        node_sliced_string: type_id_of(node_types, "sliced string"),
        node_code: type_id_of(node_types, "code"),
        node_synthetic: type_id_of(node_types, "synthetic"),
        node_closure: type_id_of(node_types, "closure"),
        node_regexp: type_id_of(node_types, "regexp"),
        node_number: type_id_of(node_types, "number"),
        edge_element: type_id_of(edge_types, "element"),
        edge_hidden: type_id_of(edge_types, "hidden"),
        edge_internal: type_id_of(edge_types, "internal"),
        edge_shortcut: type_id_of(edge_types, "shortcut"),
        edge_weak: type_id_of(edge_types, "weak"),
        edge_invisible: type_id_of(edge_types, "invisible"),
        edge_property: type_id_of(edge_types, "property"),
        edge_context: type_id_of(edge_types, "context"),
    }
}

/// Checks every condition of `Graph::wf` on the arrays.
pub fn graph_is_consistent(g: &Graph) -> (r: bool)
    ensures
        r == g.wf(),
{
    let n = g.nodes.len();
    let e = g.edges.len();
    if n == 0 || n >= MAX_NODE_COUNT || e >= 0xffff_ffffusize {
        return false;
    }
    if g.root_ordinal >= n || g.gc_roots_ordinal >= n {
        return false;
    }
    if g.nodes[0].first_edge != 0 {
        return false;
    }
    let ghost gs = *g;
    let mut v: usize = 0;
    while v < n
        invariant
            n == g.node_count(),
            e == g.edge_count(),
            0 < n < MAX_NODE_COUNT,
            v <= n,
            forall|u: int| 0 <= u < v ==> #[trigger] g.edge_end(u) <= g.edge_count(),
            forall|u: int| 0 <= u < v && u < n - 1 ==> #[trigger] g.edge_end(u) == g.edge_begin(u + 1),
            forall|u: int| 0 <= u < v ==> (#[trigger] g.nodes@[u]).name < g.strings@.len(),
            v == n ==> g.edge_end(n - 1) == g.edge_count(),
        decreases n - v,
    {
        let rec = &g.nodes[v];
        let end = rec.first_edge as u64 + rec.edge_count as u64;
        if end > e as u64 {
            assert(g.edge_end(v as int) > g.edge_count());
            return false;
        }
        if v + 1 < n {
            if g.nodes[v + 1].first_edge as u64 != end {
                assert(g.edge_end(v as int) != g.edge_begin(v + 1));
                return false;
            }
        } else if end != e as u64 {
            return false;
        }
        if rec.name as usize >= g.strings.len() {
            assert(g.nodes@[v as int].name >= g.strings@.len());
            return false;
        }
        v += 1;
    }
    let mut i: usize = 0;
    while i < e
        invariant
            e == g.edge_count(),
            n == g.node_count(),
            i <= e,
            forall|j: int| 0 <= j < i ==> #[trigger] g.edge_target(j) < g.node_count(),
            forall|j: int|
                0 <= j < i && #[trigger] g.edge_is_named(j) ==> g.edges@[j].name_or_index
                    < g.strings@.len(),
        decreases e - i,
    {
        let rec = &g.edges[i];
        if rec.to_node_ordinal as usize >= n {
            assert(g.edge_target(i as int) >= g.node_count());
            return false;
        }
        if rec.type_id != g.types.edge_element && rec.type_id != g.types.edge_hidden {
            if rec.name_or_index as usize >= g.strings.len() {
                assert(g.edge_is_named(i as int));
                return false;
            }
        }
        i += 1;
    }
    true
}

/// The UTF-8 bytes of each of a list of strings.
pub open spec fn utf8_names(list: Seq<Seq<char>>) -> Seq<Seq<u8>> {
    Seq::new(list.len(), |i: int| vstd::utf8::encode_utf8(list[i]))
}

/// What a snapshot's graph is built from: the field and type names of
/// its `meta`, its counts and root index, its number arrays and strings.
pub struct GraphSource {
    pub node_fields: Seq<Seq<char>>,
    pub edge_fields: Seq<Seq<char>>,
    pub node_types: Seq<Seq<char>>,
    pub edge_types: Seq<Seq<char>>,
    pub node_count: usize,
    pub edge_count: usize,
    pub root_index: Option<usize>,
    pub nodes: Seq<u32>,
    pub edges: Seq<u32>,
    pub strings: Seq<Seq<char>>,
}

/// The node records of `count` nodes read from the node array.
pub open spec fn node_records(vals: Seq<u32>, nl: NodeLayout, count: int) -> Seq<NodeRecord> {
    Seq::new(count as nat, |i: int| node_at(vals, nl, i, edges_before(vals, nl, i) as u32))
}

/// The edge records of `count` edges read from the edge array.
pub open spec fn edge_records(vals: Seq<u32>, el: EdgeLayout, count: int) -> Seq<EdgeRecord> {
    Seq::new(count as nat, |i: int| edge_at(vals, el, i))
}

/// One past the last edge of node `v`.
pub open spec fn record_end(nodes: Seq<NodeRecord>, v: int) -> int {
    nodes[v].first_edge + nodes[v].edge_count
}

/// The records form a graph (the conditions of `Graph::wf`, with the
/// given root as both roots): each node's edges follow the previous
/// node's, every edge points at a node, every name is in a string table of
/// `strings_len` entries.
pub open spec fn records_wf(
    nodes: Seq<NodeRecord>,
    edges: Seq<EdgeRecord>,
    strings_len: int,
    element: u32,
    hidden: u32,
    root: int,
) -> bool {
    &&& 0 < nodes.len() < MAX_NODE_COUNT
    &&& edges.len() < 0xffff_ffff
    &&& nodes[0].first_edge == 0
    &&& record_end(nodes, nodes.len() - 1) == edges.len()
    &&& forall|v: int| 0 <= v < nodes.len() - 1 ==> #[trigger] record_end(nodes, v) == nodes[v + 1].first_edge
    &&& forall|v: int| 0 <= v < nodes.len() ==> #[trigger] record_end(nodes, v) <= edges.len()
    &&& forall|e: int| 0 <= e < edges.len() ==> (#[trigger] edges[e]).to_node_ordinal < nodes.len()
    &&& forall|v: int| 0 <= v < nodes.len() ==> (#[trigger] nodes[v]).name < strings_len
    &&& forall|e: int| 0 <= e < edges.len() && (#[trigger] edges[e]).type_id != element && edges[e].type_id != hidden
        ==> edges[e].name_or_index < strings_len
    &&& 0 <= root < nodes.len()
}

/// Some edge of the root leads to a node named "(GC roots)".
pub open spec fn root_has_gc_child(nodes: Seq<NodeRecord>, edges: Seq<EdgeRecord>, strings: Seq<Seq<u8>>, root: int) -> bool {
    exists|e: int|
        nodes[root].first_edge <= e < record_end(nodes, root) && #[trigger] strings[nodes[edges[e].to_node_ordinal as int].name as int]
            == "(GC roots)".spec_bytes()
}

/// The fields that every snapshot has are named, and the arrays hold the
/// announced numbers of records, with edge counts whose sums fit `u32`.
pub open spec fn source_records_fit(src: GraphSource) -> bool {
    let nf = utf8_names(src.node_fields);
    let ef = utf8_names(src.edge_fields);
    let nl = node_layout_of(nf);
    let el = edge_layout_of(nf, ef);
    &&& required_fields_present(nf, ef)
    &&& src.node_count * nl.field_count <= src.nodes.len()
    &&& forall|k: int| 0 <= k <= src.node_count ==> #[trigger] edges_before(src.nodes, nl, k) <= u32::MAX
    &&& src.edge_count * el.field_count <= src.edges.len()
}

/// A source makes a graph: the fields that every snapshot has are named;
/// the arrays hold the announced numbers of records and the edge counts
/// fit `u32`; the string table has fewer than 2^31 entries; the records
/// form a graph rooted at the node at `root_index` (0 when missing); and
/// that root has a child named "(GC roots)".
#[verifier::opaque]
pub open spec fn source_makes_graph(src: GraphSource) -> bool {
    let nf = utf8_names(src.node_fields);
    let ef = utf8_names(src.edge_fields);
    let et = utf8_names(src.edge_types).push("invisible".spec_bytes());
    let nl = node_layout_of(nf);
    let el = edge_layout_of(nf, ef);
    let root = (match src.root_index {
        Some(i) => i,
        None => 0,
    }) as int / nl.field_count as int;
    let nodes = node_records(src.nodes, nl, src.node_count as int);
    let edges = edge_records(src.edges, el, src.edge_count as int);
    &&& source_records_fit(src)
    &&& src.strings.len() + src.node_count < usize::MAX
    &&& records_wf(nodes, edges, src.strings.len() as int, type_code(et, "element".spec_bytes()), type_code(et, "hidden".spec_bytes()), root)
    &&& root_has_gc_child(nodes, edges, utf8_names(src.strings), root)
}

/// A graph whose two roots coincide is well formed exactly when its records
/// are.
pub proof fn lemma_wf_records(g: Graph)
    requires
        g.gc_roots_ordinal == g.root_ordinal,
    ensures
        g.wf() <==> records_wf(g.nodes@, g.edges@, g.strings@.len() as int, g.types.edge_element, g.types.edge_hidden, g.root_ordinal as int),
{
    let rw = records_wf(g.nodes@, g.edges@, g.strings@.len() as int, g.types.edge_element, g.types.edge_hidden, g.root_ordinal as int);
    if g.wf() {
        assert forall|v: int| 0 <= v < g.nodes@.len() - 1 implies #[trigger] record_end(g.nodes@, v) == g.nodes@[v + 1].first_edge by {
            assert(g.edge_end(v) == g.edge_begin(v + 1));
        }
        assert forall|v: int| 0 <= v < g.nodes@.len() implies #[trigger] record_end(g.nodes@, v) <= g.edges@.len() by {
            assert(g.edge_end(v) <= g.edge_count());
        }
        assert forall|e: int| 0 <= e < g.edges@.len() implies (#[trigger] g.edges@[e]).to_node_ordinal < g.nodes@.len() by {
            assert(g.edge_target(e) < g.node_count());
        }
        assert forall|e: int| 0 <= e < g.edges@.len() && (#[trigger] g.edges@[e]).type_id != g.types.edge_element
            && g.edges@[e].type_id != g.types.edge_hidden implies g.edges@[e].name_or_index < g.strings@.len() by {
            assert(g.edge_is_named(e));
        }
        assert(record_end(g.nodes@, g.nodes@.len() - 1) == g.edge_end(g.node_count() - 1));
    }
    if rw {
        assert forall|v: int| 0 <= v < g.node_count() - 1 implies #[trigger] g.edge_end(v) == g.edge_begin(v + 1) by {
            assert(record_end(g.nodes@, v) == g.nodes@[v + 1].first_edge);
        }
        assert forall|v: int| 0 <= v < g.node_count() implies #[trigger] g.edge_end(v) <= g.edge_count() by {
            assert(record_end(g.nodes@, v) <= g.edges@.len());
        }
        assert forall|e: int| 0 <= e < g.edge_count() implies #[trigger] g.edge_target(e) < g.node_count() by {
            assert(g.edges@[e].to_node_ordinal < g.nodes@.len());
        }
        assert forall|e: int| 0 <= e < g.edge_count() && #[trigger] g.edge_is_named(e) implies g.edges@[e].name_or_index
            < g.strings@.len() by {
            assert(g.edges@[e].type_id != g.types.edge_element);
        }
        assert(record_end(g.nodes@, g.nodes@.len() - 1) == g.edge_end(g.node_count() - 1));
    }
}

} // verus!
