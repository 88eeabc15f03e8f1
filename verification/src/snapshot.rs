use vstd::prelude::*;
use vstd::string::StringSliceAdditionalSpecFns;
use crate::types::{
    NodeOrdinal, NodeId, EdgeIndex, Distance, RootKind, SnapshotOptions, RawHeapSnapshot,
    SnapshotError, DISTANCE_NONE, DISTANCE_UNREACHABLE_BASE,
};
use crate::graph::Graph;
use crate::graph_build::{layouts, type_ids, graph_is_consistent, GraphSource, source_makes_graph, utf8_names, byte_views, node_records,
    edge_records, records_wf, root_has_gc_child, record_end, lemma_wf_records, required_fields_present, node_layout_of, edge_layout_of, type_code,
    source_records_fit};
use crate::records::{NodeLayout, EdgeLayout};
use crate::types::{NodeRecord, EdgeRecord};
use crate::json::string_views;
use crate::graph_build::type_ids_of;
use crate::records::{nodes_from_values, edges_from_values, strings_bytes};
use crate::retainers::{RetainerIndex, build_retainers, lemma_retainer_entry, lemma_retainer_range};
use crate::edge_search::find_child_by_name;
use crate::distances::{calculate_distances, distances_sound, has_closer_retainer, count_assigned, lemma_count_assigned_bound, reachable_distances_sound, closed_at, distance_walks};
use crate::depths::{calculate_unreachable_depths, depths_bounded, below_kept, weak_targets_within, unreachable_seed, depth_walked, reached_from_seed, weak_phase_ok, depths_from};
use crate::dominators::{init_essential_edges, essential_path};
use crate::dominance::lemma_essential_walks;
use crate::lengauer_tarjan::{calculate_dominators, tree_ordered};
use crate::retained::{calculate_retained_sizes, dominated_nodes_sum, lemma_dominated_sum_by_node, dominator_chains_end, lemma_chains_end,
    self_size_total, lemma_open_weight_end};
use crate::roots::{compute_root_kinds, root_kind_of, roots_of_kind};
use crate::parser::{parse_from_slice, snapshot_parts, header_count, parts_source, raw_holds};
use crate::edge_search::{first_named_edge, is_first_match, no_match};
use crate::reach_size::{mark_strongly_reachable, sum_marked_sizes, closed_under_strong_edges, marked_size, includes, marks_starts};
use crate::reach::{is_native_context, is_native_context_spec};
use crate::types::{ContextRetention, ReachableSizeInfo, Detachedness, NativeContextData, NativeContextBucket, NativeContextId, Statistics, NativeContextAttributableSizes, NativeContextKind};
use crate::names::{compute_base_classes, apply_interface_definitions, table_entry, base_class_name, class_name, interface_match};
use crate::detachedness::{compute_detachedness, detachedness_ok, attached_dom_path, undetached_root_path, lemma_attached_spread_first};
use crate::native::{ctx_desc, ctx_ok, context_before, lemma_sorted_contexts_distinct, size_in_bucket, EdgeTargets, build_edge_targets, compute_native_contexts, compute_node_native_context_buckets, compute_native_context_attributable_sizes, SHARED_NATIVE_CONTEXT_ID};
use crate::globals::{find_js_globals, common_edge_names, is_js_global_object_node, is_js_global_proxy_node, has_field, seq_ends_with, name_head, object_marker, proxy_marker, normalized_display_name};
use crate::fxcoll::byte_set;
use crate::statistics::{lemma_node_sum_agree, size_if, is_system, is_native, is_code, is_string, calculate_statistics, compute_retained_by_context, node_sum, statistics_ok, retention_ok, by_context_of, saturated};
use crate::fxcoll::{ByteSet, byte_set_contains};
use crate::native::{native_context_url_bytes, context_url, named_target, lemma_slot_target, fixed_owner, context_ids, context_ordinals, bucket_owner, owners_closed, owners_have_support, NO_NATIVE_CONTEXT_ID};
use crate::globals::{find_native_context_for_context, native_context_of_context, normalize_constructor_type_bytes, normalize_display_name_bytes};
use crate::bytes::{concat, bytes_eq};
use crate::graph::lemma_edge_owner_unique;
use crate::attribution::{buckets_in_range, context_size_sum, lemma_attribution_partition};
use crate::edge_search::NO_EDGE_TARGET;
use crate::text::{text_of, decimal_bytes, decimal_of};
use crate::reach::decimal_value;
use crate::ephemeron::is_digit;
use vstd::utf8::{valid_utf8, decode_utf8};

verus! {

proof fn lemma_sound_bounded(g: Graph, d: Seq<Distance>)
    requires
        g.wf(),
        distances_sound(g, d),
    ensures
        depths_bounded(d),
        forall|v: int| 0 <= v < d.len() && #[trigger] d[v].0 != DISTANCE_NONE ==> d[v].0 < g.node_count(),
{
    reveal(distances_sound);
    lemma_count_assigned_bound(d);
}

/// The distances from the GC roots are sound for reachable nodes.
proof fn lemma_sound_start(g: Graph, d: Seq<Distance>)
    requires
        g.wf(),
        distances_sound(g, d),
    ensures
        reachable_distances_sound(g, d),
{
    reveal(distances_sound);
}

/// Whether `x` is one of the entries.
pub fn slice_contains(s: &[usize], x: usize) -> (r: bool)
    ensures
        r == s@.contains(x),
{
    let mut i: usize = 0;
    while i < s.len()
        invariant
            i <= s@.len(),
            forall|j: int| 0 <= j < i ==> s@[j] != x,
        decreases s@.len() - i,
    {
        if s[i] == x {
            assert(s@[i as int] == x);
            return true;
        }
        i += 1;
    }
    false
}

/// The label of a native context: "[kind] #id url @node-id", or
/// "[kind] #id @node-id" without a URL.
pub open spec fn context_label_bytes(kind: NativeContextKind, id: u32, url: Option<Seq<u8>>, node_id: u32) -> Seq<u8> {
    let word = match kind {
        NativeContextKind::Main => "main".spec_bytes(),
        NativeContextKind::Iframe => "iframe".spec_bytes(),
        NativeContextKind::Utility => "utility".spec_bytes(),
    };
    let url_part = match url {
        Some(u) => seq![32u8] + u,
        None => Seq::<u8>::empty(),
    };
    seq![91u8] + word + "] #".spec_bytes() + decimal_of(id) + url_part + " @".spec_bytes() + decimal_of(node_id)
}

/// Every one of `nodes` has an outgoing field edge named `x`, and there is
/// at least one of them.
pub open spec fn common_field(g: Graph, nodes: Seq<usize>, x: Seq<u8>) -> bool {
    nodes.len() > 0 && forall|i: int| 0 <= i < nodes.len() ==> has_field(g, #[trigger] nodes[i] as int, x)
}

/// `d` is the decimal form of `n` (digits, most significant first, none
/// left out) and `text` the characters those digits encode.
pub open spec fn decimal_text(d: Seq<u8>, n: u32, text: Seq<char>) -> bool {
    &&& d.len() > 0
    &&& forall|i: int| 0 <= i < d.len() ==> is_digit(#[trigger] d[i])
    &&& decimal_value(d) == n
    &&& valid_utf8(d) ==> text == decode_utf8(d)
}

/// A V8 heap snapshot together with the analyses computed when it is
/// loaded: retainers, distances from the GC roots, dominators and retained
/// sizes, and the kinds of the synthetic root's children.
pub struct HeapSnapshot {
    graph: Graph,
    retainers: RetainerIndex,
    idom: Vec<u32>,
    retained: Vec<u64>,
    distances: Vec<Distance>,
    first_distances: Ghost<Seq<Distance>>,
    root_kinds: Vec<RootKind>,
    user_roots: Vec<usize>,
    system_roots: Vec<usize>,
    weak_is_reachable: bool,
    extra_native_bytes: u64,
    class_indices: Vec<usize>,
    appended_strings: Vec<Vec<u8>>,
    detachedness: Vec<Detachedness>,
    edge_targets: EdgeTargets,
    native_contexts: Vec<NativeContextData>,
    buckets: Vec<NativeContextBucket>,
    shared_size: u64,
    unattributed_size: u64,
    js_global_objects: Vec<usize>,
    js_global_proxies: Vec<usize>,
    js_global_object_fields: ByteSet,
    js_global_proxy_fields: ByteSet,
    context_retention: Vec<ContextRetention>,
    statistics: Statistics,
}

impl HeapSnapshot {
    /// Well-formedness: the graph is well formed, the retainer index is
    /// that of the graph, each per-node array has one entry per node, and
    /// each analysis holds what its computation establishes: root kinds,
    /// distances, dominators, retained sizes, class names, native context
    /// attribution, context retention and statistics.
    pub closed spec fn wf(&self) -> bool {
        let n = self.graph.node_count();
        let g = self.graph;
        let gc = g.gc_roots_ordinal as int;
        &&& self.graph.wf()
        &&& self.retainers.wf_for(self.graph)
        &&& self.retainers.descending(self.graph)
        &&& self.idom@.len() == n
        &&& forall|v: int| 0 <= v < n ==> #[trigger] self.idom@[v] < n
        &&& self.retained@.len() == n
        &&& self.distances@.len() == n
        &&& self.root_kinds@.len() == n
        &&& forall|i: int| 0 <= i < self.user_roots@.len() ==> #[trigger] self.user_roots@[i] < n
        &&& forall|i: int| 0 <= i < self.system_roots@.len() ==> #[trigger] self.system_roots@[i] < n
        &&& self.class_indices@.len() == n
        &&& forall|v: int| 0 <= v < n ==> #[trigger] self.class_indices@[v] < self.graph.strings@.len() + self.appended_strings@.len()
        &&& self.detachedness@.len() == n
        &&& contexts_ok(self.graph, self.edge_targets, self.native_contexts@, self.buckets@, self.shared_size, self.unattributed_size)
        &&& forall|i: int| 0 <= i < self.js_global_objects@.len() ==> #[trigger] self.js_global_objects@[i] < n
        &&& forall|i: int| 0 <= i < self.js_global_proxies@.len() ==> #[trigger] self.js_global_proxies@[i] < n
        &&& self.analyses_hold()
    }

    /// What the analyses computed at load time establish.
    #[verifier::opaque]
    closed spec fn analyses_hold(&self) -> bool {
        let n = self.graph.node_count();
        let g = self.graph;
        let gc = g.gc_roots_ordinal as int;
        &&& forall|v: int| 0 <= v < n ==> #[trigger] self.root_kinds@[v] == root_kind_of(g, v)
        &&& forall|v: int| 0 <= v < n ==> (#[trigger] self.distances@[v]).0 != DISTANCE_NONE
        &&& reachable_distances_sound(g, self.distances@)
        &&& self.first_pass_holds()
        &&& self.weak_is_reachable ==> weak_targets_within(g, self.first_distances@, self.distances@, n as int)
        &&& self.weak_is_reachable ==> exists|aw: Seq<Distance>|
            #[trigger] weak_phase_ok(g, self.first_distances@, aw) && depths_from(g, self.retainers, aw, self.distances@, true)
        &&& !self.weak_is_reachable ==> below_kept(self.first_distances@, self.distances@, DISTANCE_UNREACHABLE_BASE)
        &&& !self.weak_is_reachable ==> forall|v: int|
            0 <= v < n && self.first_distances@[v].0 == DISTANCE_NONE && #[trigger] unreachable_seed(
                g,
                self.retainers,
                self.first_distances@,
                v,
            ) ==> self.distances@[v].0 == DISTANCE_UNREACHABLE_BASE
        &&& !self.weak_is_reachable ==> forall|v: int|
            0 <= v < n && self.first_distances@[v].0 == DISTANCE_NONE ==> #[trigger] depth_walked(g, self.distances@, v, false)
        &&& !self.weak_is_reachable ==> forall|v: int|
            0 <= v < n && self.first_distances@[v].0 == DISTANCE_NONE && self.distances@[v].0 == DISTANCE_UNREACHABLE_BASE
                && #[trigger] reached_from_seed(g, self.retainers, self.first_distances@, v, false) ==> unreachable_seed(
                g,
                self.retainers,
                self.first_distances@,
                v,
            )
        &&& self.idom@[gc] == gc
        &&& forall|p: Seq<int>| #[trigger] essential_path(g, p) && p.last() != gc ==> p.contains(self.idom@[p.last()] as int)
        &&& forall|v: int| 0 <= v < n ==> #[trigger] self.retained@[v] >= g.self_size(v)
        &&& forall|v: int| 0 <= v < n ==> #[trigger] self.retained@[v] == saturated(
            g.self_size(v) + dominated_nodes_sum(self.idom@, self.retained@, gc, v, n as int),
        )
        &&& dominator_chains_end(self.idom@, gc)
        &&& self.retained@[gc] == self_size_total(g, n as int)
        &&& forall|v: int| 0 <= v < n ==> #[trigger] self.spec_class_name(v) == class_name(g, v)
        &&& self.system_roots@ == roots_of_kind(g, RootKind::SystemRoot)
        &&& self.user_roots@ == roots_of_kind(g, RootKind::UserRoot)
        &&& retention_ok(g, self.system_roots@, self.distances@, self.context_retention@)
        &&& detachedness_ok(g, self.system_roots@, self.detachedness@)
        &&& statistics_ok(g, self.retainers, self.distances@, self.retained@[gc], self.extra_native_bytes,
            by_context_of(g, self.context_retention@), self.statistics)
        &&& forall|v: int| 0 <= v < n ==> (self.js_global_objects@.contains(v as usize) <==> #[trigger] is_js_global_object_node(g, v))
        &&& forall|v: int| 0 <= v < n ==> (self.js_global_proxies@.contains(v as usize) <==> #[trigger] is_js_global_proxy_node(g, v))
        &&& forall|x: Seq<u8>| #[trigger] byte_set(self.js_global_object_fields).contains(x) <==> common_field(g, self.js_global_objects@, x)
        &&& forall|x: Seq<u8>| #[trigger] byte_set(self.js_global_proxy_fields).contains(x) <==> common_field(g, self.js_global_proxies@, x)
    }

    /// What the walk from the roots gave before the unreached nodes got
    /// their depths: the GC roots and the synthetic root at 0, every node
    /// with a distance having a closer retainer, every edge that is always
    /// followed leading from a node with a distance (other than the synthetic
    /// root) to a node with one, and every child of the synthetic root that
    /// is not a user root having a distance.
    closed spec fn first_pass_holds(&self) -> bool {
        first_pass_ok(self.graph, self.root_kinds@, self.first_distances@)
    }

    /// The class name of each node, as bytes.
    pub closed spec fn spec_class_name(&self, v: int) -> Seq<u8> {
        table_entry(self.graph.strings@, self.appended_strings@, self.class_indices@[v] as int)
    }

    pub closed spec fn spec_detachedness(&self) -> Seq<Detachedness> {
        self.detachedness@
    }

    pub closed spec fn spec_native_contexts(&self) -> Seq<NativeContextData> {
        self.native_contexts@
    }

    pub closed spec fn spec_buckets(&self) -> Seq<NativeContextBucket> {
        self.buckets@
    }

    /// The edge targets by name that native context inference reads.
    pub closed spec fn spec_edge_targets(&self) -> EdgeTargets {
        self.edge_targets
    }

    pub closed spec fn spec_statistics(&self) -> Statistics {
        self.statistics
    }

    pub closed spec fn spec_shared_size(&self) -> u64 {
        self.shared_size
    }

    pub closed spec fn spec_unattributed_size(&self) -> u64 {
        self.unattributed_size
    }

    pub closed spec fn spec_js_global_objects(&self) -> Seq<usize> {
        self.js_global_objects@
    }

    pub closed spec fn spec_js_global_proxies(&self) -> Seq<usize> {
        self.js_global_proxies@
    }

    /// The node and edge arrays.
    pub closed spec fn spec_graph(&self) -> Graph {
        self.graph
    }

    pub closed spec fn spec_node_count(&self) -> nat {
        self.graph.node_count()
    }

    pub closed spec fn spec_retainers(&self) -> RetainerIndex {
        self.retainers
    }

    /// Distance of each node from the GC roots.
    pub closed spec fn spec_distances(&self) -> Seq<Distance> {
        self.distances@
    }

    /// Distance of each node as the walk from the roots gave it, before
    /// the nodes it did not reach got their depths.
    pub closed spec fn spec_first_distances(&self) -> Seq<Distance> {
        self.first_distances@
    }

    /// Immediate dominator of each node.
    pub closed spec fn spec_idom(&self) -> Seq<u32> {
        self.idom@
    }

    pub closed spec fn spec_retained(&self) -> Seq<u64> {
        self.retained@
    }

    pub closed spec fn spec_root_kinds(&self) -> Seq<RootKind> {
        self.root_kinds@
    }

    /// The system roots: the synthetic root's children that are not user
    /// roots, in edge order.
    pub closed spec fn spec_system_roots(&self) -> Seq<usize> {
        self.system_roots@
    }

    /// Where each node stands with respect to context objects.
    pub closed spec fn spec_context_retention(&self) -> Seq<ContextRetention> {
        self.context_retention@
    }

    pub closed spec fn spec_weak_is_reachable(&self) -> bool {
        self.weak_is_reachable
    }

    pub closed spec fn spec_extra_native_bytes(&self) -> u64 {
        self.extra_native_bytes
    }
}

/// What the graph of a raw snapshot is built from.
pub open spec fn raw_source(raw: RawHeapSnapshot) -> GraphSource {
    GraphSource {
        node_fields: string_views(raw.snapshot.meta.node_fields@),
        edge_fields: string_views(raw.snapshot.meta.edge_fields@),
        node_types: string_views(raw.snapshot.meta.node_type_enum@),
        edge_types: string_views(raw.snapshot.meta.edge_type_enum@),
        node_count: raw.snapshot.node_count,
        edge_count: raw.snapshot.edge_count,
        root_index: raw.snapshot.root_index,
        nodes: raw.nodes@,
        edges: raw.edges@,
        strings: string_views(raw.strings@),
    }
}

/// The graph that a source describes: the node and edge records read with
/// the layouts of its field names, its strings and type names (with
/// "invisible" after the edge types) as bytes, the type ids of those
/// names, the root at the root index (0 when missing) divided by the node
/// record length, and as GC roots the target of the root's first edge to a
/// node named "(GC roots)".
#[verifier::opaque]
pub open spec fn graph_of_source(g: Graph, src: GraphSource) -> bool {
    let root = g.root_ordinal as int;
    &&& graph_parts_of_source(g, src)
    &&& exists|e: int|
        #[trigger] g.is_out_edge(root, e) && g.edge_target(e) == g.gc_roots_ordinal && g.node_name(g.gc_roots_ordinal as int)
            == "(GC roots)".spec_bytes() && forall|f: int| g.edge_begin(root) <= f < e ==> g.node_name(g.edge_target(f))
            != "(GC roots)".spec_bytes()
}

/// The graph's arrays, names, type ids and root are those the source
/// describes (see `graph_of_source`).
pub open spec fn graph_parts_of_source(g: Graph, src: GraphSource) -> bool {
    let nf = utf8_names(src.node_fields);
    let ef = utf8_names(src.edge_fields);
    let nl = node_layout_of(nf);
    let el = edge_layout_of(nf, ef);
    let root = (match src.root_index {
        Some(i) => i,
        None => 0,
    }) as int / nl.field_count as int;
    &&& g.nodes@ == node_records(src.nodes, nl, src.node_count as int)
    &&& g.edges@ == edge_records(src.edges, el, src.edge_count as int)
    &&& byte_views(g.strings@) == utf8_names(src.strings)
    &&& byte_views(g.node_types@) == utf8_names(src.node_types)
    &&& byte_views(g.edge_types@) == utf8_names(src.edge_types).push("invisible".spec_bytes())
    &&& g.types == type_ids_of(byte_views(g.node_types@), byte_views(g.edge_types@))
    &&& g.has_detachedness == nl.detachedness_offset is Some
    &&& g.root_ordinal == root
}

/// The graph that a raw snapshot's records, names and root index describe,
/// with the root as GC roots for now; there is one exactly when the
/// records fit (see `source_records_fit`).
#[verifier::spinoff_prover]
fn assemble_graph(raw: &RawHeapSnapshot) -> (r: Result<Graph, SnapshotError>)
    ensures
        r is Ok <==> source_records_fit(raw_source(*raw)),
        r matches Ok(g) ==> graph_parts_of_source(g, raw_source(*raw)) && g.gc_roots_ordinal == g.root_ordinal
            && g.strings@.len() == raw.strings@.len() && forall|i: int| 0 <= i < raw.strings@.len()
            ==> #[trigger] g.strings@[i]@ == vstd::utf8::encode_utf8(raw.strings@[i]@),
{
    let ghost src = raw_source(*raw);
    let meta = &raw.snapshot.meta;
    let (nodes, edges, nl, el) = records_of(raw)?;
    let node_types = strings_bytes(&meta.node_type_enum);
    proof {
        lemma_names_bytes(meta.node_type_enum@, node_types@);
    }
    let mut edge_types = strings_bytes(&meta.edge_type_enum);
    let ghost et0 = edge_types@;
    edge_types.push(vstd::slice::slice_to_vec("invisible".as_bytes()));
    proof {
        lemma_names_bytes(meta.edge_type_enum@, et0);
        assert(byte_views(edge_types@) =~= utf8_names(src.edge_types).push("invisible".spec_bytes()));
    }
    let types = type_ids(&node_types, &edge_types);
    let strings = strings_bytes(&raw.strings);
    proof {
        lemma_names_bytes(raw.strings@, strings@);
    }
    let root_index = match raw.snapshot.root_index {
        Some(i) => i,
        None => 0,
    };
    let root_ordinal = root_index / nl.field_count;
    let has_detachedness = nl.detachedness_offset.is_some();
    let g = Graph {
        nodes,
        edges,
        strings,
        node_types,
        edge_types,
        types,
        has_detachedness,
        root_ordinal,
        gc_roots_ordinal: root_ordinal,
    };
    proof {
        assert(g.nodes@ =~= node_records(src.nodes, nl, src.node_count as int));
        assert(g.edges@ =~= edge_records(src.edges, el, src.edge_count as int));
        assert(byte_views(g.strings@) == utf8_names(src.strings));
    }
    Ok(g)
}

/// Makes the target of the root's first edge to a node named
/// "(GC roots)" the GC roots; fails when the root has no such child.
#[verifier::spinoff_prover]
fn attach_gc_roots(g: Graph) -> (r: Result<Graph, SnapshotError>)
    requires
        g.wf(),
        g.gc_roots_ordinal == g.root_ordinal,
    ensures
        r is Ok <==> root_has_gc_child(g.nodes@, g.edges@, byte_views(g.strings@), g.root_ordinal as int),
        r matches Ok(h) ==> {
            &&& h.wf()
            &&& h.nodes == g.nodes
            &&& h.edges == g.edges
            &&& h.strings == g.strings
            &&& h.node_types == g.node_types
            &&& h.edge_types == g.edge_types
            &&& h.types == g.types
            &&& h.has_detachedness == g.has_detachedness
            &&& h.root_ordinal == g.root_ordinal
            &&& exists|e: int|
                #[trigger] h.is_out_edge(h.root_ordinal as int, e) && h.edge_target(e) == h.gc_roots_ordinal && h.node_name(
                    h.gc_roots_ordinal as int,
                ) == "(GC roots)".spec_bytes() && forall|f: int| h.edge_begin(h.root_ordinal as int) <= f < e ==> h.node_name(
                    h.edge_target(f),
                ) != "(GC roots)".spec_bytes()
        },
{
    let mut g = g;
    let root_ordinal = g.root_ordinal;
    let gc_name = "(GC roots)".as_bytes();
    let ghost names = byte_views(g.strings@);
    match find_child_by_name(&g, root_ordinal, gc_name) {
        Some(gc) => {
            let ghost g0 = g;
            g.gc_roots_ordinal = gc;
            proof {
                let e = choose|e: int|
                    g0.is_out_edge(root_ordinal as int, e) && g0.edge_target(e) == gc && g0.node_name(gc as int) == gc_name@
                        && forall|f: int| g0.edge_begin(root_ordinal as int) <= f < e ==> g0.node_name(g0.edge_target(f)) != gc_name@;
                assert(g0.edge_target(e) < g0.node_count());
                assert(names[g0.nodes@[g0.edges@[e].to_node_ordinal as int].name as int] == "(GC roots)".spec_bytes());
                assert(root_has_gc_child(g0.nodes@, g0.edges@, names, root_ordinal as int));
                assert(g.is_out_edge(g.root_ordinal as int, e) && g.edge_target(e) == g.gc_roots_ordinal);
                assert forall|v: int| 0 <= v < g.node_count() - 1 implies #[trigger] g.edge_end(v) == g.edge_begin(v + 1) by {
                    assert(g0.edge_end(v) == g0.edge_begin(v + 1));
                }
                assert forall|v: int| 0 <= v < g.node_count() implies #[trigger] g.edge_end(v) <= g.edge_count() by {
                    assert(g0.edge_end(v) <= g0.edge_count());
                }
                assert forall|x: int| 0 <= x < g.edge_count() implies #[trigger] g.edge_target(x) < g.node_count() by {
                    assert(g0.edge_target(x) < g0.node_count());
                }
                assert forall|x: int| 0 <= x < g.edge_count() && #[trigger] g.edge_is_named(x) implies g.edges@[x].name_or_index < g.strings@.len() by {
                    assert(g0.edge_is_named(x));
                }
                assert(g.wf());
                assert forall|f: int| g.edge_begin(root_ordinal as int) <= f < e implies g.node_name(g.edge_target(f)) != "(GC roots)".spec_bytes() by {
                    assert(g0.node_name(g0.edge_target(f)) != gc_name@);
                }
            }
            Ok(g)
        },
        None => {
            proof {
                if root_has_gc_child(g.nodes@, g.edges@, names, root_ordinal as int) {
                    let e = choose|e: int|
                        g.nodes@[root_ordinal as int].first_edge <= e < record_end(g.nodes@, root_ordinal as int)
                            && #[trigger] names[g.nodes@[g.edges@[e].to_node_ordinal as int].name as int] == "(GC roots)".spec_bytes();
                    assert(g.is_out_edge(root_ordinal as int, e));
                    assert(g.node_name(g.edge_target(e)) == gc_name@);
                }
            }
            Err(SnapshotError::Malformed("no (GC roots) node among the root's children".to_string()))
        },
    }
}

/// A raw snapshot read from a file's parts has the graph source of the parts.
pub proof fn lemma_raw_source_of_parts(raw: RawHeapSnapshot, parts: crate::parser::SnapshotParts)
    requires
        raw_holds(raw, parts),
    ensures
        raw_source(raw) == parts_source(parts),
{
}

/// The UTF-8 bytes of a list of strings are their encodings.
proof fn lemma_names_bytes(list: Seq<String>, bytes: Seq<Vec<u8>>)
    requires
        bytes.len() == list.len(),
        forall|i: int| 0 <= i < list.len() ==> #[trigger] bytes[i]@ == vstd::utf8::encode_utf8(list[i]@),
    ensures
        byte_views(bytes) == utf8_names(string_views(list)),
{
    assert(byte_views(bytes) =~= utf8_names(string_views(list)));
}

/// The node and edge records of a raw snapshot with the layouts they were
/// read with; there are records exactly when the source's records fit.
#[verifier::spinoff_prover]
fn records_of(raw: &RawHeapSnapshot) -> (r: Result<(Vec<NodeRecord>, Vec<EdgeRecord>, NodeLayout, EdgeLayout), SnapshotError>)
    ensures
        r is Ok <==> source_records_fit(raw_source(*raw)),
        r matches Ok((nodes, edges, nl, el)) ==> {
            let src = raw_source(*raw);
            let nf = utf8_names(src.node_fields);
            let ef = utf8_names(src.edge_fields);
            &&& nl == node_layout_of(nf)
            &&& el == edge_layout_of(nf, ef)
            &&& nl.wf()
            &&& el.wf()
            &&& nodes@ == node_records(src.nodes, nl, src.node_count as int)
            &&& edges@ == edge_records(src.edges, el, src.edge_count as int)
        },
{
    let ghost src = raw_source(*raw);
    let meta = &raw.snapshot.meta;
    let node_fields = strings_bytes(&meta.node_fields);
    let edge_fields = strings_bytes(&meta.edge_fields);
    proof {
        lemma_names_bytes(meta.node_fields@, node_fields@);
        lemma_names_bytes(meta.edge_fields@, edge_fields@);
    }
    let (nl, el) = layouts(&node_fields, &edge_fields)?;
    let nodes = nodes_from_values(raw.nodes.as_slice(), raw.snapshot.node_count, nl)?;
    let edges = edges_from_values(raw.edges.as_slice(), raw.snapshot.edge_count, el)?;
    proof {
        assert(nodes@ =~= node_records(src.nodes, nl, src.node_count as int));
        assert(edges@ =~= edge_records(src.edges, el, src.edge_count as int));
    }
    Ok((nodes, edges, nl, el))
}

/// The graph that a raw snapshot describes: field layouts from `meta`,
/// records from the number arrays, the string table, and the node named
/// "(GC roots)" among the synthetic root's children. It is built exactly
/// when the source makes a graph (see `source_makes_graph`).
#[verifier::spinoff_prover]
#[verifier::rlimit(40)]
pub fn build_graph(raw: &RawHeapSnapshot) -> (r: Result<Graph, SnapshotError>)
    ensures
        r is Ok <==> source_makes_graph(raw_source(*raw)),
        r matches Ok(g) ==> graph_of_source(g, raw_source(*raw)),
        r matches Ok(g) ==> {
            &&& g.wf()
            &&& g.strings@.len() + g.node_count() < usize::MAX
            &&& g.node_count() == raw.snapshot.node_count
            &&& g.edge_count() == raw.snapshot.edge_count
            &&& g.strings@.len() == raw.strings@.len()
            &&& forall|i: int| 0 <= i < raw.strings@.len() ==> #[trigger] g.strings@[i]@ == vstd::utf8::encode_utf8(raw.strings@[i]@)
            &&& g.node_name(g.gc_roots_ordinal as int) == "(GC roots)".spec_bytes()
            &&& exists|e: int| g.is_out_edge(g.root_ordinal as int, e) && g.edge_target(e) == g.gc_roots_ordinal
        },
{
    proof {
        reveal(source_makes_graph);
    }
    let ghost src = raw_source(*raw);
    let g = assemble_graph(raw)?;
    proof {
        lemma_wf_records(g);
    }
    if g.strings.len() >= usize::MAX - g.nodes.len() {
        return Err(SnapshotError::Malformed("the string table is too large".to_string()));
    }
    if !graph_is_consistent(&g) {
        return Err(SnapshotError::Malformed("the node and edge arrays do not form a graph".to_string()));
    }
    let r = attach_gc_roots(g);
    proof {
        if r is Ok {
            let h = r->Ok_0;
            assert(h.nodes@ == g.nodes@ && h.edges@ == g.edges@);
            reveal(graph_of_source);
            assert(graph_of_source(h, src));
        }
    }
    r
}

/// The class index of every node, with the strings appended for class
/// names: each node's entry is its class name (see `class_name`).
fn compute_class_table(g: &Graph) -> (r: (Vec<usize>, Vec<Vec<u8>>))
    requires
        g.wf(),
        g.strings@.len() + g.node_count() < usize::MAX,
    ensures
        r.0@.len() == g.node_count(),
        forall|v: int| 0 <= v < g.node_count() ==> #[trigger] r.0@[v] < g.strings@.len() + r.1@.len(),
        forall|v: int| 0 <= v < g.node_count() ==> table_entry(g.strings@, r.1@, #[trigger] r.0@[v] as int) == class_name(*g, v),
{
    let (mut class_indices, mut appended_strings) = compute_base_classes(g);
    let ghost base_classes = class_indices@;
    let ghost base_appended = appended_strings@;
    apply_interface_definitions(g, &mut class_indices, &mut appended_strings);
    proof {
        assert forall|v: int| 0 <= v < g.node_count() implies
            table_entry(g.strings@, appended_strings@, #[trigger] class_indices@[v] as int) == class_name(*g, v) by {
            if interface_match(*g, v) is None {
                assert(table_entry(g.strings@, base_appended, base_classes[v] as int) == base_class_name(*g, v));
                let i = base_classes[v] as int;
                if i >= g.strings@.len() {
                    assert(appended_strings@.subrange(0, base_appended.len() as int)[i - g.strings@.len()] == base_appended[i - g.strings@.len()]);
                }
            }
        }
    }
    (class_indices, appended_strings)
}

/// Native-context attribution: the named edge targets, the native
/// contexts with their attributable sizes, the bucket of every node, and
/// the shared and unattributed sizes.
fn compute_context_data(g: &Graph) -> (r: (EdgeTargets, Vec<NativeContextData>, Vec<NativeContextBucket>, u64, u64))
    requires
        g.wf(),
    ensures
        contexts_ok(*g, r.0, r.1@, r.2@, r.3, r.4),
{
    let edge_targets = build_edge_targets(g);
    let mut contexts = compute_native_contexts(g, &edge_targets);
    let ghost listed = contexts@;
    proof {
        lemma_sorted_contexts_distinct(*g, edge_targets, contexts@);
    }
    let buckets = compute_node_native_context_buckets(g, &edge_targets, &contexts);
    let (sizes, shared_size, unattributed_size) = compute_native_context_attributable_sizes(g, &buckets, contexts.len());
    let ghost c0 = contexts@;
    let mut i: usize = 0;
    while i < contexts.len()
        invariant
            g.wf(),
            sizes@.len() == contexts@.len(),
            c0.len() == contexts@.len(),
            i <= contexts@.len(),
            forall|k: int| 0 <= k < contexts@.len() ==> (#[trigger] contexts@[k]).ordinal == c0[k].ordinal
                && contexts@[k].kind == c0[k].kind && contexts@[k].is_extension == c0[k].is_extension,
            forall|k: int| 0 <= k < i ==> (#[trigger] contexts@[k]).size == sizes@[k],
        decreases contexts@.len() - i,
    {
        let c = contexts[i];
        contexts.set(i, NativeContextData { ordinal: c.ordinal, kind: c.kind, is_extension: c.is_extension, size: sizes[i] });
        i += 1;
    }
    proof {
        assert forall|k: int| 0 <= k < contexts@.len() implies ctx_desc(*g, edge_targets, #[trigger] contexts@[k]) by {
            assert(ctx_ok(*g, edge_targets, c0[k]));
        }
        assert(context_ordinals(c0) =~= context_ordinals(contexts@));
        assert(context_ids(c0, g.node_count() as int) == context_ids(contexts@, g.node_count() as int));
        assert forall|a: int, b: int| 0 <= a < b < contexts@.len() implies context_before(contexts@[a], contexts@[b]) by {
            assert(context_before(c0[a], c0[b]));
        }
        assert forall|k: int| 0 <= k < contexts@.len() implies buckets@[(#[trigger] contexts@[k]).ordinal.0 as int]
            == NativeContextBucket::Context(NativeContextId(k as u32)) by {
            assert(buckets@[c0[k].ordinal.0 as int] == NativeContextBucket::Context(NativeContextId(k as u32)));
        }
        assert forall|u: int| 0 <= u < g.node_count() && is_native_context_spec(*g, u) implies exists|i: int|
            0 <= i < contexts@.len() && #[trigger] contexts@[i].ordinal.0 == u by {
            let i = choose|i: int| 0 <= i < listed.len() && #[trigger] listed[i].ordinal.0 == u;
            assert(contexts@[i].ordinal.0 == u);
        }
    }
    (edge_targets, contexts, buckets, shared_size, unattributed_size)
}

/// The native-context data describes the graph: the edge targets are
/// those of the graph; the native contexts are exactly the native context
/// nodes, with their kind and extension flag, in list order, each attributed to
/// itself, each with the self sizes of its bucket; every bucket names a
/// listed context; the shared and unattributed sizes are those of their
/// buckets.
/// What the walk from the roots gives (see `calculate_distances`).
#[verifier::opaque]
pub open spec fn first_pass_ok(g: Graph, root_kinds: Seq<RootKind>, d: Seq<Distance>) -> bool {
    &&& d.len() == g.node_count()
    &&& distances_sound(g, d)
    &&& d[g.root_ordinal as int].0 == 0
    &&& forall|v: int|
        0 <= v < g.node_count() && #[trigger] d[v].0 != DISTANCE_NONE && v != g.root_ordinal ==> closed_at(g, d, v)
    &&& forall|e: int|
        #[trigger] g.is_out_edge(g.root_ordinal as int, e) && root_kinds[g.edge_target(e)] != RootKind::UserRoot
            ==> d[g.edge_target(e)].0 != DISTANCE_NONE
    &&& exists|w: Seq<Distance>| #[trigger] distance_walks(g, root_kinds, w, d)
}

proof fn lemma_first_pass_ok(g: Graph, root_kinds: Seq<RootKind>, d: Seq<Distance>)
    requires
        d.len() == g.node_count(),
        distances_sound(g, d),
        d[g.root_ordinal as int].0 == 0,
        forall|v: int|
            0 <= v < g.node_count() && #[trigger] d[v].0 != DISTANCE_NONE && v != g.root_ordinal ==> closed_at(g, d, v),
        forall|e: int|
            #[trigger] g.is_out_edge(g.root_ordinal as int, e) && root_kinds[g.edge_target(e)] != RootKind::UserRoot
                ==> d[g.edge_target(e)].0 != DISTANCE_NONE,
        exists|w: Seq<Distance>| #[trigger] distance_walks(g, root_kinds, w, d),
    ensures
        first_pass_ok(g, root_kinds, d),
{
    reveal(first_pass_ok);
}

pub open spec fn contexts_ok(
    g: Graph,
    t: EdgeTargets,
    contexts: Seq<NativeContextData>,
    buckets: Seq<NativeContextBucket>,
    shared: u64,
    unattributed: u64,
) -> bool {
    &&& t.wf(g)
    &&& contexts.len() < SHARED_NATIVE_CONTEXT_ID
    &&& forall|i: int| 0 <= i < contexts.len() ==> ctx_desc(g, t, #[trigger] contexts[i])
    &&& forall|u: int| 0 <= u < g.node_count() && is_native_context_spec(g, u) ==> exists|i: int|
        0 <= i < contexts.len() && #[trigger] contexts[i].ordinal.0 == u
    &&& forall|i: int, j: int| 0 <= i < j < contexts.len() ==> context_before(contexts[i], contexts[j])
    &&& buckets.len() == g.node_count()
    &&& forall|v: int| 0 <= v < g.node_count() ==> match #[trigger] buckets[v] {
        NativeContextBucket::Context(id) => id.0 < contexts.len(),
        _ => true,
    }
    &&& forall|i: int| 0 <= i < contexts.len() ==> buckets[(#[trigger] contexts[i]).ordinal.0 as int]
        == NativeContextBucket::Context(NativeContextId(i as u32))
    &&& forall|i: int| 0 <= i < contexts.len() ==> (#[trigger] contexts[i]).size == node_sum(
        g.node_count() as int,
        |v: int| size_in_bucket(g, buckets, v, NativeContextBucket::Context(NativeContextId(i as u32))),
    )
    &&& shared == node_sum(g.node_count() as int, |v: int| size_in_bucket(g, buckets, v, NativeContextBucket::Shared))
    &&& unattributed == node_sum(g.node_count() as int, |v: int| size_in_bucket(g, buckets, v, NativeContextBucket::Unattributed))
    &&& ({
        let fixed = Seq::new(g.node_count(), |v: int| fixed_owner(g, t, context_ids(contexts, g.node_count() as int), v));
        &&& forall|v: int|
            0 <= v < g.node_count() && fixed[v] != NO_NATIVE_CONTEXT_ID ==> #[trigger] bucket_owner(buckets[v]) == fixed[v]
        &&& owners_closed(g, fixed, Seq::new(g.node_count(), |v: int| bucket_owner(buckets[v])))
        &&& owners_have_support(g, fixed, Seq::new(g.node_count(), |v: int| bucket_owner(buckets[v])))
    })
}

impl HeapSnapshot {
    /// Builds a snapshot from its raw arrays with the default options.
    pub fn new(raw: RawHeapSnapshot) -> (r: Result<HeapSnapshot, SnapshotError>)
        ensures
            r is Ok <==> source_makes_graph(raw_source(raw)),
            r matches Ok(s) ==> s.wf() && !s.spec_weak_is_reachable(),
    {
        Self::new_with_options(raw, SnapshotOptions::default_options())
    }

    /// Builds a snapshot from its raw arrays and computes its analyses.
    #[verifier::spinoff_prover]
    #[verifier::rlimit(80)]
    pub fn new_with_options(raw: RawHeapSnapshot, options: SnapshotOptions) -> (r: Result<HeapSnapshot, SnapshotError>)
        ensures
            r is Ok <==> source_makes_graph(raw_source(raw)),
            r matches Ok(s) ==> graph_of_source(s.spec_graph(), raw_source(raw)),
            r matches Ok(s) ==> {
                let g = s.spec_graph();
                &&& s.wf()
                &&& g.node_count() == raw.snapshot.node_count
                &&& g.edge_count() == raw.snapshot.edge_count
                &&& g.node_name(g.gc_roots_ordinal as int) == "(GC roots)".spec_bytes()
                &&& s.spec_weak_is_reachable() == options.weak_is_reachable
                &&& s.spec_extra_native_bytes() == (match raw.snapshot.extra_native_bytes {
                    Some(b) => b,
                    None => 0,
                })
            },
    {
        let g = build_graph(&raw)?;
        let (root_kinds, user_roots, system_roots) = compute_root_kinds(&g);
        let retainers = build_retainers(&g);
        let mut distances = calculate_distances(&g, &root_kinds);
        proof {
            lemma_sound_bounded(g, distances@);
            lemma_sound_start(g, distances@);
        }
        let ghost first_distances = distances@;
        proof {
            lemma_first_pass_ok(g, root_kinds@, distances@);
        }
        calculate_unreachable_depths(&g, &retainers, &mut distances, options.weak_is_reachable);
        let ess = init_essential_edges(&g);
        let (idom, order) = calculate_dominators(&g, &ess, &retainers);
        let retained = calculate_retained_sizes(&g, &idom, &order);
        proof {
            lemma_essential_walks(g, ess@, idom@);
        }
        proof {
            let gc = g.gc_roots_ordinal as int;
            let nn = g.node_count() as int;
            assert forall|k: int, k2: int| 0 <= k < k2 < order@.len() implies #[trigger] order@[k] != #[trigger] order@[k2] by {
                assert(tree_ordered(idom@, order@));
            }
            assert forall|v: int| 0 <= v < nn implies #[trigger] retained@[v] == saturated(
                g.self_size(v) + dominated_nodes_sum(idom@, retained@, gc, v, nn),
            ) by {
                lemma_dominated_sum_by_node(idom@, order@, retained@, gc, v, nn);
            }
            lemma_chains_end(idom@, order@, gc, nn);
            lemma_open_weight_end(retained@, order@, gc, nn);
        }
        let extra_native_bytes = match raw.snapshot.extra_native_bytes {
            Some(b) => b,
            None => 0,
        };
        let (class_indices, appended_strings) = compute_class_table(&g);
        let detachedness = compute_detachedness(&g, &system_roots);
        let (edge_targets, contexts, buckets, shared_size, unattributed_size) = compute_context_data(&g);
        let (js_global_objects, js_global_proxies) = find_js_globals(&g);
        let js_global_object_fields = common_edge_names(&g, &js_global_objects);
        let js_global_proxy_fields = common_edge_names(&g, &js_global_proxies);
        let gc_retained = retained[g.gc_roots_ordinal];
        let (by_context, context_retention) = compute_retained_by_context(&g, &system_roots, &distances);
        let statistics = calculate_statistics(&g, &retainers, &distances, gc_retained, extra_native_bytes, by_context);
        let snapshot = HeapSnapshot {
            graph: g,
            retainers,
            idom,
            retained,
            distances,
            first_distances: Ghost(first_distances),
            root_kinds,
            user_roots,
            system_roots,
            weak_is_reachable: options.weak_is_reachable,
            extra_native_bytes,
            class_indices,
            appended_strings,
            detachedness,
            edge_targets,
            native_contexts: contexts,
            buckets,
            shared_size,
            unattributed_size,
            js_global_objects,
            js_global_proxies,
            js_global_object_fields,
            js_global_proxy_fields,
            context_retention,
            statistics,
        };
        proof {
            reveal(HeapSnapshot::analyses_hold);
        }
        Ok(snapshot)
    }

    /// Reads a snapshot from its JSON bytes with the default options.
    pub fn from_bytes(data: &[u8]) -> (r: Result<HeapSnapshot, SnapshotError>)
        ensures
            r is Ok <==> (snapshot_parts(data@) matches Some(parts) && source_makes_graph(parts_source(parts))),
            r matches Ok(s) ==> snapshot_parts(data@) matches Some(parts) && graph_of_source(s.spec_graph(), parts_source(parts)),
            r matches Ok(s) ==> s.wf() && !s.spec_weak_is_reachable(),
            snapshot_parts(data@) is None ==> r is Err,
            r matches Ok(s) ==> snapshot_parts(data@) matches Some(parts) && s.spec_node_count() == header_count(
                parts.header,
                "node_count".spec_bytes(),
            ) && s.spec_graph().edge_count() == header_count(parts.header, "edge_count".spec_bytes()),
    {
        Self::from_bytes_with_options(data, SnapshotOptions::default_options())
    }

    /// Reads a snapshot from its JSON bytes and computes its analyses.
    pub fn from_bytes_with_options(data: &[u8], options: SnapshotOptions) -> (r: Result<HeapSnapshot, SnapshotError>)
        ensures
            r is Ok <==> (snapshot_parts(data@) matches Some(parts) && source_makes_graph(parts_source(parts))),
            r matches Ok(s) ==> snapshot_parts(data@) matches Some(parts) && graph_of_source(s.spec_graph(), parts_source(parts)),
            r matches Ok(s) ==> s.wf() && s.spec_weak_is_reachable() == options.weak_is_reachable,
            snapshot_parts(data@) is None ==> r is Err,
            r matches Ok(s) ==> snapshot_parts(data@) matches Some(parts) && s.spec_node_count() == header_count(
                parts.header,
                "node_count".spec_bytes(),
            ) && s.spec_graph().edge_count() == header_count(parts.header, "edge_count".spec_bytes()),
    {
        let raw = parse_from_slice(data)?;
        proof {
            if let Some(parts) = snapshot_parts(data@) {
                lemma_raw_source_of_parts(raw, parts);
            }
        }
        Self::new_with_options(raw, options)
    }

    pub fn node_count(&self) -> (r: usize)
        requires
            self.wf(),
        ensures
            r == self.spec_node_count(),
    {
        self.graph.nodes.len()
    }

    /// The "(GC roots)" node.
    pub fn gc_roots_ordinal(&self) -> (r: NodeOrdinal)
        requires
            self.wf(),
        ensures
            r.0 == self.spec_graph().gc_roots_ordinal,
    {
        NodeOrdinal(self.graph.gc_roots_ordinal)
    }

    /// The synthetic root node.
    pub fn root_ordinal(&self) -> (r: NodeOrdinal)
        requires
            self.wf(),
        ensures
            r.0 == self.spec_graph().root_ordinal,
    {
        NodeOrdinal(self.graph.root_ordinal)
    }

    pub fn node_id(&self, ord: NodeOrdinal) -> (r: NodeId)
        requires
            self.wf(),
            ord.0 < self.spec_node_count(),
        ensures
            r.0 == self.spec_graph().nodes@[ord.0 as int].id,
    {
        NodeId(self.graph.nodes[ord.0].id)
    }

    pub fn node_self_size(&self, ord: NodeOrdinal) -> (r: u32)
        requires
            self.wf(),
            ord.0 < self.spec_node_count(),
        ensures
            r == self.spec_graph().self_size(ord.0 as int),
    {
        self.graph.nodes[ord.0].self_size
    }

    pub fn node_edge_count(&self, ord: NodeOrdinal) -> (r: u32)
        requires
            self.wf(),
            ord.0 < self.spec_node_count(),
        ensures
            r == self.spec_graph().nodes@[ord.0 as int].edge_count,
    {
        self.graph.nodes[ord.0].edge_count
    }

    pub fn node_distance(&self, ord: NodeOrdinal) -> (r: Distance)
        requires
            self.wf(),
            ord.0 < self.spec_node_count(),
        ensures
            r == self.spec_distances()[ord.0 as int],
    {
        self.distances[ord.0]
    }

    pub fn node_retained_size(&self, ord: NodeOrdinal) -> (r: u64)
        requires
            self.wf(),
            ord.0 < self.spec_node_count(),
        ensures
            r == self.spec_retained()[ord.0 as int],
    {
        self.retained[ord.0]
    }

    /// The immediate dominator of a node; the GC roots dominate themselves.
    pub fn dominator_of(&self, ord: NodeOrdinal) -> (r: NodeOrdinal)
        requires
            self.wf(),
            ord.0 < self.spec_node_count(),
        ensures
            r.0 == self.spec_idom()[ord.0 as int],
            r.0 < self.spec_node_count(),
    {
        NodeOrdinal(self.idom[ord.0] as usize)
    }

    /// The nodes whose immediate dominator is `ord`, in descending ordinal
    /// order; the GC roots are nobody's child.
    pub fn get_dominated_children(&self, ord: NodeOrdinal) -> (r: Vec<NodeOrdinal>)
        requires
            self.wf(),
            ord.0 < self.spec_node_count(),
        ensures
            forall|i: int| 0 <= i < r@.len() ==> {
                let c = #[trigger] r@[i].0 as int;
                &&& 0 <= c < self.spec_node_count()
                &&& c != self.spec_graph().gc_roots_ordinal
                &&& self.spec_idom()[c] == ord.0
            },
            forall|c: int|
                0 <= c < self.spec_node_count() && c != self.spec_graph().gc_roots_ordinal
                    && #[trigger] self.spec_idom()[c] == ord.0 ==> exists|i: int| 0 <= i < r@.len() && r@[i].0 == c,
            forall|i: int, j: int| 0 <= i < j < r@.len() ==> r@[i].0 > r@[j].0,
    {
        let n = self.graph.nodes.len();
        let gc = self.graph.gc_roots_ordinal;
        let mut out: Vec<NodeOrdinal> = Vec::new();
        let mut k: usize = n;
        while k > 0
            invariant
                n == self.spec_node_count(),
                gc == self.spec_graph().gc_roots_ordinal,
                self.idom@.len() == n,
                self.idom@ == self.spec_idom(),
                k <= n,
                forall|i: int| 0 <= i < out@.len() ==> {
                    let c = #[trigger] out@[i].0 as int;
                    &&& k <= c < n
                    &&& c != gc
                    &&& self.spec_idom()[c] == ord.0
                },
                forall|c: int|
                    k <= c < n && c != gc && #[trigger] self.spec_idom()[c] == ord.0 ==> exists|i: int|
                        0 <= i < out@.len() && out@[i].0 == c,
                forall|i: int, j: int| 0 <= i < j < out@.len() ==> out@[i].0 > out@[j].0,
            decreases k,
        {
            k -= 1;
            if k != gc && self.idom[k] as usize == ord.0 {
                let ghost before = out@;
                out.push(NodeOrdinal(k));
                proof {
                    assert forall|c: int|
                        k <= c < n && c != gc && #[trigger] self.spec_idom()[c] == ord.0 implies exists|i: int|
                            0 <= i < out@.len() && out@[i].0 == c by {
                        if c == k {
                            assert(out@[out@.len() - 1].0 == c);
                        } else {
                            let i = choose|i: int| 0 <= i < before.len() && before[i].0 == c;
                            assert(out@[i] == before[i]);
                        }
                    }
                }
            }
        }
        out
    }

    /// Whether `ord` is the "(GC roots)" node.
    pub fn is_root(&self, ord: NodeOrdinal) -> (r: bool)
        requires
            self.wf(),
        ensures
            r == (ord.0 == self.spec_graph().gc_roots_ordinal),
    {
        ord.0 == self.graph.gc_roots_ordinal
    }

    /// How a node stands to the synthetic root: one of its children (a
    /// user root when it is not synthetic or is the "(Document DOM trees)"
    /// node, else a system root), the root itself, or neither.
    pub fn root_kind(&self, ord: NodeOrdinal) -> (r: RootKind)
        requires
            self.wf(),
            ord.0 < self.spec_node_count(),
        ensures
            r == self.spec_root_kinds()[ord.0 as int],
            r == root_kind_of(self.spec_graph(), ord.0 as int),
    {
        proof {
            reveal(HeapSnapshot::analyses_hold);
        }
        self.root_kinds[ord.0]
    }

    pub fn is_user_root(&self, ord: NodeOrdinal) -> (r: bool)
        requires
            self.wf(),
            ord.0 < self.spec_node_count(),
        ensures
            r == (self.spec_root_kinds()[ord.0 as int] == RootKind::UserRoot),
            r == (root_kind_of(self.spec_graph(), ord.0 as int) == RootKind::UserRoot),
    {
        proof {
            reveal(HeapSnapshot::analyses_hold);
        }
        self.root_kinds[ord.0] == RootKind::UserRoot
    }

    /// The outgoing edges of a node with their targets, in edge order.
    pub fn iter_edges(&self, ord: NodeOrdinal) -> (r: Vec<(EdgeIndex, NodeOrdinal)>)
        requires
            self.wf(),
            ord.0 < self.spec_node_count(),
        ensures
            r@.len() == self.spec_graph().edge_end(ord.0 as int) - self.spec_graph().edge_begin(ord.0 as int),
            forall|i: int| 0 <= i < r@.len() ==> {
                let e = self.spec_graph().edge_begin(ord.0 as int) + i;
                &&& (#[trigger] r@[i]).0.0 == e
                &&& r@[i].1.0 == self.spec_graph().edge_target(e)
            },
    {
        let g = &self.graph;
        let (first, last) = g.node_edge_range(ord.0);
        let mut out: Vec<(EdgeIndex, NodeOrdinal)> = Vec::new();
        let mut e = first;
        while e < last
            invariant
                g.wf(),
                *g == self.spec_graph(),
                ord.0 < g.node_count(),
                first == g.edge_begin(ord.0 as int),
                last == g.edge_end(ord.0 as int),
                last <= g.edge_count(),
                first <= e <= last,
                out@.len() == e - first,
                forall|i: int| 0 <= i < out@.len() ==> {
                    let f = first + i;
                    &&& (#[trigger] out@[i]).0.0 == f
                    &&& out@[i].1.0 == g.edge_target(f)
                },
            decreases last - e,
        {
            out.push((EdgeIndex(e), NodeOrdinal(g.edge_to_node(e))));
            e += 1;
        }
        out
    }

    /// The incoming edges of a node with their sources, in index order,
    /// which is decreasing edge order.
    pub fn get_retainers(&self, ord: NodeOrdinal) -> (r: Vec<(EdgeIndex, NodeOrdinal)>)
        requires
            self.wf(),
            ord.0 < self.spec_node_count(),
        ensures
            r@.len() == self.spec_retainers().range_end(ord.0 as int) - self.spec_retainers().range_begin(ord.0 as int),
            forall|i: int| 0 <= i < r@.len() ==> {
                let s = self.spec_retainers().range_begin(ord.0 as int) + i;
                &&& (#[trigger] r@[i]).0.0 == self.spec_retainers().retaining_edges@[s]
                &&& r@[i].1.0 == self.spec_retainers().retaining_nodes@[s]
                &&& self.spec_graph().is_out_edge(r@[i].1.0 as int, r@[i].0.0 as int)
                &&& self.spec_graph().edge_target(r@[i].0.0 as int) == ord.0
            },
            forall|i: int, j: int| 0 <= i < j < r@.len() ==> (#[trigger] r@[i]).0.0 > (#[trigger] r@[j]).0.0,
    {
        proof {
            lemma_retainer_range(self.graph, self.retainers, ord.0 as int);
        }
        let ri = &self.retainers;
        let begin = ri.first_retainer_index[ord.0] as usize;
        let end = ri.first_retainer_index[ord.0 + 1] as usize;
        let mut out: Vec<(EdgeIndex, NodeOrdinal)> = Vec::new();
        let mut s = begin;
        while s < end
            invariant
                self.graph.wf(),
                ri.wf_for(self.graph),
                *ri == self.spec_retainers(),
                self.graph == self.spec_graph(),
                ord.0 < self.graph.node_count(),
                begin == ri.range_begin(ord.0 as int),
                end == ri.range_end(ord.0 as int),
                begin <= s <= end,
                out@.len() == s - begin,
                forall|i: int| 0 <= i < out@.len() ==> {
                    let t = begin + i;
                    &&& (#[trigger] out@[i]).0.0 == ri.retaining_edges@[t]
                    &&& out@[i].1.0 == ri.retaining_nodes@[t]
                    &&& self.graph.is_out_edge(out@[i].1.0 as int, out@[i].0.0 as int)
                    &&& self.graph.edge_target(out@[i].0.0 as int) == ord.0
                },
            decreases end - s,
        {
            proof {
                lemma_retainer_entry(self.graph, *ri, ord.0 as int, s as int);
            }
            out.push((EdgeIndex(ri.retaining_edges[s] as usize), NodeOrdinal(ri.retaining_nodes[s] as usize)));
            s += 1;
        }
        proof {
            assert forall|i: int, j: int| 0 <= i < j < out@.len() implies (#[trigger] out@[i]).0.0 > (#[trigger] out@[j]).0.0 by {
                let t = ord.0 as int;
                assert(ri.range_end(t) == end);
                assert(ri.retaining_edges@[begin + i] > ri.retaining_edges@[begin + j]);
            }
        }
        out
    }

    /// The same entries as `get_retainers`, for callers that visit each.
    pub fn for_each_retainer(&self, ord: NodeOrdinal) -> (r: Vec<(EdgeIndex, NodeOrdinal)>)
        requires
            self.wf(),
            ord.0 < self.spec_node_count(),
        ensures
            r@.len() == self.spec_retainers().range_end(ord.0 as int) - self.spec_retainers().range_begin(ord.0 as int),
            forall|i: int| 0 <= i < r@.len() ==> {
                let s = self.spec_retainers().range_begin(ord.0 as int) + i;
                &&& (#[trigger] r@[i]).0.0 == self.spec_retainers().retaining_edges@[s]
                &&& r@[i].1.0 == self.spec_retainers().retaining_nodes@[s]
            },
    {
        self.get_retainers(ord)
    }

    /// Number of incoming edges of a node.
    pub fn retainer_count(&self, ord: NodeOrdinal) -> (r: usize)
        requires
            self.wf(),
            ord.0 < self.spec_node_count(),
        ensures
            r == self.spec_retainers().range_end(ord.0 as int) - self.spec_retainers().range_begin(ord.0 as int),
    {
        proof {
            lemma_retainer_range(self.graph, self.retainers, ord.0 as int);
        }
        let begin = self.retainers.first_retainer_index[ord.0] as usize;
        let end = self.retainers.first_retainer_index[ord.0 + 1] as usize;
        end - begin
    }

    /// Whether the GC roots hold the node through one of its incoming edges.
    pub fn is_root_holder(&self, ord: NodeOrdinal) -> (r: bool)
        requires
            self.wf(),
            ord.0 < self.spec_node_count(),
        ensures
            r == exists|s: int|
                self.spec_retainers().range_begin(ord.0 as int) <= s < self.spec_retainers().range_end(ord.0 as int)
                    && #[trigger] self.spec_retainers().retaining_nodes@[s] == self.spec_graph().gc_roots_ordinal,
    {
        proof {
            lemma_retainer_range(self.graph, self.retainers, ord.0 as int);
        }
        let ri = &self.retainers;
        let gc = self.graph.gc_roots_ordinal;
        let begin = ri.first_retainer_index[ord.0] as usize;
        let end = ri.first_retainer_index[ord.0 + 1] as usize;
        let mut s = begin;
        while s < end
            invariant
                *ri == self.spec_retainers(),
                gc == self.spec_graph().gc_roots_ordinal,
                begin == ri.range_begin(ord.0 as int),
                end == ri.range_end(ord.0 as int),
                end <= ri.retaining_nodes@.len(),
                begin <= s <= end,
                forall|t: int| begin <= t < s ==> #[trigger] ri.retaining_nodes@[t] != gc,
            decreases end - s,
        {
            if ri.retaining_nodes[s] as usize == gc {
                return true;
            }
            s += 1;
        }
        false
    }

    /// The node with the given object id, the first in ordinal order.
    pub fn node_for_snapshot_object_id(&self, id: NodeId) -> (r: Option<NodeOrdinal>)
        requires
            self.wf(),
        ensures
            match r {
                Some(o) => o.0 < self.spec_node_count() && self.spec_graph().nodes@[o.0 as int].id == id.0
                    && forall|v: int| 0 <= v < o.0 ==> self.spec_graph().nodes@[v].id != id.0,
                None => forall|v: int| 0 <= v < self.spec_node_count() ==> #[trigger] self.spec_graph().nodes@[v].id != id.0,
            },
    {
        let n = self.graph.nodes.len();
        let mut v: usize = 0;
        while v < n
            invariant
                n == self.spec_node_count(),
                self.graph == self.spec_graph(),
                v <= n,
                forall|u: int| 0 <= u < v ==> #[trigger] self.graph.nodes@[u].id != id.0,
            decreases n - v,
        {
            if self.graph.nodes[v].id == id.0 {
                return Some(NodeOrdinal(v));
            }
            v += 1;
        }
        None
    }

    /// The target of the first outgoing edge of `ord` named `name`.
    pub fn find_edge_target(&self, ord: NodeOrdinal, name: &str) -> (r: Option<NodeOrdinal>)
        requires
            self.wf(),
            ord.0 < self.spec_node_count(),
        ensures
            match r {
                Some(t) => exists|e: int|
                    is_first_match(self.spec_graph(), ord.0 as int, e, name.spec_bytes(), false)
                        && self.spec_graph().edge_target(e) == t.0,
                None => no_match(self.spec_graph(), ord.0 as int, name.spec_bytes(), false),
            },
    {
        match first_named_edge(&self.graph, ord.0, name.as_bytes(), false) {
            Some(e) => {
                let t = self.graph.edge_to_node(e);
                let res = Some(NodeOrdinal(t));
                proof {
                    assert(is_first_match(self.spec_graph(), ord.0 as int, e as int, name.spec_bytes(), false)
                        && self.spec_graph().edge_target(e as int) == t);
                }
                res
            },
            None => None,
        }
    }

    /// The first child of `ord`, in edge order, whose node name is `name`.
    pub fn find_child_by_node_name(&self, ord: NodeOrdinal, name: &str) -> (r: Option<NodeOrdinal>)
        requires
            self.wf(),
            ord.0 < self.spec_node_count(),
        ensures
            match r {
                Some(c) => exists|e: int|
                    self.spec_graph().is_out_edge(ord.0 as int, e) && self.spec_graph().edge_target(e) == c.0
                        && self.spec_graph().node_name(c.0 as int) == name.spec_bytes(),
                None => forall|e: int|
                    #[trigger] self.spec_graph().is_out_edge(ord.0 as int, e) ==> self.spec_graph().node_name(
                        self.spec_graph().edge_target(e),
                    ) != name.spec_bytes(),
            },
    {
        match find_child_by_name(&self.graph, ord.0, name.as_bytes()) {
            Some(c) => {
                let res = Some(NodeOrdinal(c));
                proof {
                    let e = choose|e: int|
                        self.graph.is_out_edge(ord.0 as int, e) && self.graph.edge_target(e) == c
                            && self.graph.node_name(c as int) == name.spec_bytes() && forall|f: int|
                            self.graph.edge_begin(ord.0 as int) <= f < e ==> self.graph.node_name(self.graph.edge_target(f)) != name.spec_bytes();
                    assert(self.spec_graph().is_out_edge(ord.0 as int, e) && self.spec_graph().edge_target(e) == c
                        && self.spec_graph().node_name(c as int) == name.spec_bytes());
                }
                res
            },
            None => None,
        }
    }

    /// `m` marks the nodes that `roots` keep alive and `r` reports on them:
    /// the roots are marked, the marks are closed under edges that are not
    /// weak and lie inside every other such marking (so `m` marks exactly
    /// what the roots reach), `r.size` is the total self size of the marked
    /// nodes, and `r.native_contexts` lists exactly the marked native
    /// contexts, in ordinal order.
    pub open spec fn reach_witness(&self, roots: Seq<NodeOrdinal>, r: ReachableSizeInfo, m: Seq<bool>) -> bool {
        &&& m.len() == self.spec_node_count()
        &&& forall|i: int| 0 <= i < roots.len() ==> m[(#[trigger] roots[i]).0 as int]
        &&& closed_under_strong_edges(self.spec_graph(), m)
        &&& forall|m2: Seq<bool>|
            m2.len() == self.spec_node_count() && (forall|i: int| 0 <= i < roots.len() ==> m2[(#[trigger] roots[i]).0 as int])
                && closed_under_strong_edges(self.spec_graph(), m2) ==> #[trigger] includes(m2, m)
        &&& forall|i: int, j: int| 0 <= i < j < r.native_contexts@.len() ==> r.native_contexts@[i].0 < r.native_contexts@[j].0
        &&& r.size == marked_size(self.spec_graph(), m, self.spec_node_count() as int)
        &&& forall|i: int| 0 <= i < r.native_contexts@.len() ==> {
            let c = (#[trigger] r.native_contexts@[i]).0 as int;
            0 <= c < self.spec_node_count() && m[c] && is_native_context_spec(self.spec_graph(), c)
        }
        &&& forall|c: int| 0 <= c < self.spec_node_count() && m[c] && is_native_context_spec(self.spec_graph(), c)
            ==> exists|i: int| 0 <= i < r.native_contexts@.len() && #[trigger] r.native_contexts@[i].0 == c
    }

    /// What the given nodes keep alive over edges that are not weak: the
    /// total self size of every node they reach (themselves included), and
    /// the native contexts among those nodes in ordinal order.
    #[verifier::spinoff_prover]
    pub fn reachable_size(&self, roots: &[NodeOrdinal]) -> (r: ReachableSizeInfo)
        requires
            self.wf(),
            forall|i: int| 0 <= i < roots@.len() ==> (#[trigger] roots@[i]).0 < self.spec_node_count(),
        ensures
            exists|m: Seq<bool>| #[trigger] self.reach_witness(roots@, r, m),
    {
        let mut starts: Vec<usize> = Vec::new();
        let mut k: usize = 0;
        while k < roots.len()
            invariant
                self.wf(),
                k <= roots@.len(),
                starts@.len() == k,
                forall|i: int| 0 <= i < roots@.len() ==> (#[trigger] roots@[i]).0 < self.spec_node_count(),
                forall|i: int| 0 <= i < k ==> #[trigger] starts@[i] == roots@[i].0,
            decreases roots@.len() - k,
        {
            starts.push(roots[k].0);
            k += 1;
        }
        let marked = mark_strongly_reachable(&self.graph, &starts);
        let size = sum_marked_sizes(&self.graph, &marked);
        let n = self.graph.nodes.len();
        let mut contexts: Vec<NodeOrdinal> = Vec::new();
        let mut v: usize = 0;
        while v < n
            invariant
                self.wf(),
                n == self.spec_node_count(),
                marked@.len() == n,
                v <= n,
                forall|i: int| 0 <= i < contexts@.len() ==> {
                    let c = (#[trigger] contexts@[i]).0 as int;
                    0 <= c < v && marked@[c] && is_native_context_spec(self.spec_graph(), c)
                },
                forall|c: int| 0 <= c < v && marked@[c] && is_native_context_spec(self.spec_graph(), c)
                    ==> exists|i: int| 0 <= i < contexts@.len() && #[trigger] contexts@[i].0 == c,
                forall|i: int, j: int| 0 <= i < j < contexts@.len() ==> contexts@[i].0 < contexts@[j].0,
            decreases n - v,
        {
            if marked[v] && is_native_context(&self.graph, v) {
                let ghost before = contexts@;
                contexts.push(NodeOrdinal(v));
                proof {
                    assert forall|c: int| 0 <= c < v + 1 && marked@[c] && is_native_context_spec(self.spec_graph(), c)
                        implies exists|i: int| 0 <= i < contexts@.len() && #[trigger] contexts@[i].0 == c by {
                        if c == v {
                            assert(contexts@[contexts@.len() - 1].0 == c);
                        } else {
                            let i = choose|i: int| 0 <= i < before.len() && #[trigger] before[i].0 == c;
                            assert(contexts@[i].0 == c);
                        }
                    }
                }
            }
            v += 1;
        }
        proof {
            assert forall|i: int| 0 <= i < roots@.len() implies marked@[(#[trigger] roots@[i]).0 as int] by {
                assert(starts@[i] == roots@[i].0);
            }
            assert forall|m2: Seq<bool>|
                m2.len() == self.spec_node_count() && (forall|i: int| 0 <= i < roots@.len() ==> m2[(#[trigger] roots@[i]).0 as int])
                    && closed_under_strong_edges(self.spec_graph(), m2) implies #[trigger] includes(m2, marked@) by {
                assert forall|i: int| 0 <= i < starts@.len() implies m2[#[trigger] starts@[i] as int] by {
                    assert(m2[roots@[i].0 as int]);
                }
                assert(marks_starts(m2, starts@));
                assert(includes(m2, marked@));
            }
        }
        let info = ReachableSizeInfo { size, native_contexts: contexts };
        proof {
            assert(self.reach_witness(roots@, info, marked@));
        }
        info
    }

    /// The name of an edge: its string for a named edge, its index in
    /// decimal for an element or hidden edge.
    pub fn edge_name(&self, e: EdgeIndex) -> (r: String)
        requires
            self.wf(),
            e.0 < self.spec_graph().edge_count(),
        ensures
            self.spec_graph().edge_is_named(e.0 as int) && valid_utf8(self.spec_graph().edge_name(e.0 as int))
                ==> r@ == decode_utf8(self.spec_graph().edge_name(e.0 as int)),
            !self.spec_graph().edge_is_named(e.0 as int) ==> exists|d: Seq<u8>|
                #[trigger] decimal_text(d, self.spec_graph().edges@[e.0 as int].name_or_index, r@),
    {
        if self.graph.edge_is_named_exec(e.0) {
            text_of(self.graph.edge_name_bytes(e.0))
        } else {
            let digits = decimal_bytes(self.graph.edge_name_or_index(e.0));
            let t = text_of(digits.as_slice());
            proof {
                assert(decimal_text(digits@, self.spec_graph().edges@[e.0 as int].name_or_index, t@));
            }
            t
        }
    }

    /// The name of an edge's type, or the empty string for a type id that
    /// the type list lacks.
    pub fn edge_type_name(&self, e: EdgeIndex) -> (r: String)
        requires
            self.wf(),
            e.0 < self.spec_graph().edge_count(),
        ensures
            ({
                let t = self.spec_graph().edge_type(e.0 as int) as int;
                t < self.spec_graph().edge_types@.len() && valid_utf8(self.spec_graph().edge_types@[t]@)
                    ==> r@ == decode_utf8(self.spec_graph().edge_types@[t]@)
            }),
    {
        let t = self.graph.edge_type_raw(e.0) as usize;
        if t < self.graph.edge_types.len() {
            text_of(self.graph.edge_types[t].as_slice())
        } else {
            String::new()
        }
    }

    /// Whether an edge has the "invisible" type.
    pub fn is_invisible_edge(&self, e: EdgeIndex) -> (r: bool)
        requires
            self.wf(),
            e.0 < self.spec_graph().edge_count(),
        ensures
            r == (self.spec_graph().edge_type(e.0 as int) == self.spec_graph().types.edge_invisible),
    {
        self.graph.edge_type_raw(e.0) == self.graph.types.edge_invisible
    }

    /// The name of a node's type, or the empty string for a type id that
    /// the type list lacks.
    pub fn node_type_name(&self, ord: NodeOrdinal) -> (r: String)
        requires
            self.wf(),
            ord.0 < self.spec_node_count(),
        ensures
            ({
                let t = self.spec_graph().node_type(ord.0 as int) as int;
                t < self.spec_graph().node_types@.len() && valid_utf8(self.spec_graph().node_types@[t]@)
                    ==> r@ == decode_utf8(self.spec_graph().node_types@[t]@)
            }),
    {
        let t = self.graph.node_type_raw(ord.0) as usize;
        if t < self.graph.node_types.len() {
            text_of(self.graph.node_types[t].as_slice())
        } else {
            String::new()
        }
    }

    /// The raw name of a node.
    pub fn node_raw_name(&self, ord: NodeOrdinal) -> (r: String)
        requires
            self.wf(),
            ord.0 < self.spec_node_count(),
        ensures
            valid_utf8(self.spec_graph().node_name(ord.0 as int)) ==> r@ == decode_utf8(self.spec_graph().node_name(ord.0 as int)),
    {
        text_of(self.graph.node_name_bytes(ord.0))
    }

    /// The class name of a node: the interface name of the definition a
    /// plain object takes, else its base class name (see `class_name`).
    pub fn node_class_name(&self, ord: NodeOrdinal) -> (r: String)
        requires
            self.wf(),
            ord.0 < self.spec_node_count(),
        ensures
            self.spec_class_name(ord.0 as int) == class_name(self.spec_graph(), ord.0 as int),
            valid_utf8(class_name(self.spec_graph(), ord.0 as int)) ==> r@ == decode_utf8(class_name(self.spec_graph(), ord.0 as int)),
    {
        proof {
            reveal(HeapSnapshot::analyses_hold);
            assert(self.spec_class_name(ord.0 as int) == class_name(self.graph, ord.0 as int));
        }
        let i = self.class_indices[ord.0];
        let sl = self.graph.strings.len();
        let bytes = if i < sl {
            self.graph.strings[i].as_slice()
        } else {
            self.appended_strings[i - sl].as_slice()
        };
        assert(bytes@ == self.spec_class_name(ord.0 as int));
        text_of(bytes)
    }

    /// The DOM state of a node: its recorded state spread over DOM edges,
    /// with what the system roots reach only through detached nodes made
    /// detached.
    pub fn node_detachedness(&self, ord: NodeOrdinal) -> (r: Detachedness)
        requires
            self.wf(),
            ord.0 < self.spec_node_count(),
        ensures
            r == self.spec_detachedness()[ord.0 as int],
            detachedness_ok(self.spec_graph(), self.spec_system_roots(), self.spec_detachedness()),
    {
        proof {
            reveal(HeapSnapshot::analyses_hold);
        }
        self.detachedness[ord.0]
    }

    /// The heap totals, with the figures on what only context objects keep
    /// alive.
    pub fn get_statistics(&self) -> (r: Statistics)
        requires
            self.wf(),
        ensures
            r == self.spec_statistics(),
            retention_ok(self.spec_graph(), self.spec_system_roots(), self.spec_distances(), self.spec_context_retention()),
            statistics_ok(
                self.spec_graph(),
                self.spec_retainers(),
                self.spec_distances(),
                self.spec_retained()[self.spec_graph().gc_roots_ordinal as int],
                self.spec_extra_native_bytes(),
                by_context_of(self.spec_graph(), self.spec_context_retention()),
                r,
            ),
    {
        proof {
            reveal(HeapSnapshot::analyses_hold);
        }
        self.statistics
    }

    /// Whether a node is a native context.
    pub fn is_native_context(&self, ord: NodeOrdinal) -> (r: bool)
        requires
            self.wf(),
            ord.0 < self.spec_node_count(),
        ensures
            r == is_native_context_spec(self.spec_graph(), ord.0 as int),
    {
        is_native_context(&self.graph, ord.0)
    }

    /// The URL of a native context: what follows "system / NativeContext / "
    /// in its name.
    pub fn native_context_url(&self, ord: NodeOrdinal) -> (r: Option<String>)
        requires
            self.wf(),
            ord.0 < self.spec_node_count(),
        ensures
            r is Some <==> context_url(self.spec_graph(), ord.0 as int) is Some,
            r matches Some(u) ==> (valid_utf8(context_url(self.spec_graph(), ord.0 as int)->0)
                ==> u@ == decode_utf8(context_url(self.spec_graph(), ord.0 as int)->0)),
    {
        match native_context_url_bytes(&self.graph, ord.0) {
            Some(u) => Some(text_of(u.as_slice())),
            None => None,
        }
    }

    /// The position of a native context in the native context list.
    pub fn native_context_id(&self, ord: NodeOrdinal) -> (r: Option<NativeContextId>)
        requires
            self.wf(),
        ensures
            match r {
                Some(id) => id.0 < self.spec_native_contexts().len() && self.spec_native_contexts()[id.0 as int].ordinal == ord
                    && forall|j: int| 0 <= j < id.0 ==> self.spec_native_contexts()[j].ordinal != ord,
                None => forall|j: int| 0 <= j < self.spec_native_contexts().len() ==> #[trigger] self.spec_native_contexts()[j].ordinal != ord,
            },
    {
        let mut i: usize = 0;
        while i < self.native_contexts.len()
            invariant
                self.wf(),
                i <= self.native_contexts@.len(),
                forall|j: int| 0 <= j < i ==> #[trigger] self.native_contexts@[j].ordinal != ord,
            decreases self.native_contexts@.len() - i,
        {
            if self.native_contexts[i].ordinal.0 == ord.0 {
                return Some(NativeContextId(i as u32));
            }
            i += 1;
        }
        None
    }

    /// The native contexts, main page contexts first and extension
    /// contexts last.
    pub fn native_contexts(&self) -> (r: &[NativeContextData])
        ensures
            r@ == self.spec_native_contexts(),
    {
        self.native_contexts.as_slice()
    }

    /// The native context with the given id.
    pub fn native_context_by_id(&self, id: NativeContextId) -> (r: NativeContextData)
        requires
            id.0 < self.spec_native_contexts().len(),
        ensures
            r == self.spec_native_contexts()[id.0 as int],
    {
        self.native_contexts[id.0 as usize]
    }

    /// The attribution bucket of a node.
    pub fn node_native_context_bucket(&self, ord: NodeOrdinal) -> (r: NativeContextBucket)
        requires
            self.wf(),
            ord.0 < self.spec_node_count(),
        ensures
            r == self.spec_buckets()[ord.0 as int],
    {
        self.buckets[ord.0]
    }

    /// The bytes attributed to the native context at `ord`, when it is one.
    pub fn native_context_attributable_size(&self, ord: NodeOrdinal) -> (r: Option<u64>)
        requires
            self.wf(),
        ensures
            match r {
                Some(s) => exists|j: int| 0 <= j < self.spec_native_contexts().len() && self.spec_native_contexts()[j].ordinal == ord
                    && self.spec_native_contexts()[j].size == s,
                None => forall|j: int| 0 <= j < self.spec_native_contexts().len() ==> #[trigger] self.spec_native_contexts()[j].ordinal != ord,
            },
    {
        match self.native_context_id(ord) {
            Some(id) => Some(self.native_contexts[id.0 as usize].size),
            None => None,
        }
    }

    /// The bytes that several native contexts keep alive.
    pub fn shared_attributable_size(&self) -> (r: u64)
        ensures
            r == self.spec_shared_size(),
    {
        self.shared_size
    }

    /// The bytes that no native context keeps alive.
    pub fn unattributed_size(&self) -> (r: u64)
        ensures
            r == self.spec_unattributed_size(),
    {
        self.unattributed_size
    }

    /// The native contexts with their sizes, and the shared and unattributed
    /// sizes.
    pub fn native_context_attributable_sizes(&self) -> (r: NativeContextAttributableSizes)
        ensures
            r.native_contexts@ == self.spec_native_contexts(),
            r.shared == self.spec_shared_size(),
            r.unattributed == self.spec_unattributed_size(),
    {
        let mut list: Vec<NativeContextData> = Vec::new();
        let mut i: usize = 0;
        while i < self.native_contexts.len()
            invariant
                i <= self.native_contexts@.len(),
                list@ == self.native_contexts@.subrange(0, i as int),
            decreases self.native_contexts@.len() - i,
        {
            list.push(self.native_contexts[i]);
            i += 1;
            proof {
                assert(list@ =~= self.native_contexts@.subrange(0, i as int));
            }
        }
        proof {
            assert(list@ =~= self.native_contexts@);
        }
        NativeContextAttributableSizes { native_contexts: list, shared: self.shared_size, unattributed: self.unattributed_size }
    }

    /// The DOM state of a native context's window: that of its global
    /// object when known, else that of its global proxy.
    pub fn native_context_detachedness(&self, ord: NodeOrdinal) -> (r: Detachedness)
        requires
            self.wf(),
            ord.0 < self.spec_node_count(),
        ensures
            r == ({
                let g = self.spec_graph();
                let det = self.spec_detachedness();
                let go = named_target(g, ord.0 as int, "global_object".spec_bytes(), false);
                let gp = named_target(g, ord.0 as int, "global_proxy_object".spec_bytes(), false);
                if go is Some && det[go->0] != Detachedness::Unknown {
                    det[go->0]
                } else if gp is Some {
                    det[gp->0]
                } else {
                    Detachedness::Unknown
                }
            }),
    {
        proof {
            lemma_slot_target(self.graph, self.edge_targets.global_object@, "global_object".spec_bytes(), false, ord.0 as int);
            lemma_slot_target(self.graph, self.edge_targets.global_proxy_object@, "global_proxy_object".spec_bytes(), false, ord.0 as int);
        }
        let go = self.edge_targets.global_object[ord.0];
        if go != NO_EDGE_TARGET {
            let d = self.detachedness[go as usize];
            if d != Detachedness::Unknown {
                return d;
            }
        }
        let gp = self.edge_targets.global_proxy_object[ord.0];
        if gp != NO_EDGE_TARGET {
            return self.detachedness[gp as usize];
        }
        Detachedness::Unknown
    }

    /// "[kind] #id url @node-id" for a native context ("[kind] #id @node-id"
    /// when it has no URL); empty for other nodes.
    pub fn native_context_label(&self, ord: NodeOrdinal) -> (r: String)
        requires
            self.wf(),
            ord.0 < self.spec_node_count(),
        ensures
            (forall|j: int| 0 <= j < self.spec_native_contexts().len() ==> #[trigger] self.spec_native_contexts()[j].ordinal != ord)
                ==> r@.len() == 0,
            forall|i: int|
                0 <= i < self.spec_native_contexts().len() && #[trigger] self.spec_native_contexts()[i].ordinal == ord ==> {
                    let b = context_label_bytes(
                        self.spec_native_contexts()[i].kind,
                        i as u32,
                        context_url(self.spec_graph(), ord.0 as int),
                        self.spec_graph().nodes@[ord.0 as int].id,
                    );
                    valid_utf8(b) ==> r@ == decode_utf8(b)
                },
    {
        match self.native_context_id(ord) {
            Some(id) => {
                let kind = self.native_contexts[id.0 as usize].kind;
                let word = kind.label();
                let mut out: Vec<u8> = Vec::new();
                out.push(91u8);
                out = concat(out.as_slice(), word.as_bytes());
                out = concat(out.as_slice(), "] #".as_bytes());
                let digits = decimal_bytes(id.0);
                out = concat(out.as_slice(), digits.as_slice());
                let ghost before_url = out@;
                let url = native_context_url_bytes(&self.graph, ord.0);
                match &url {
                    Some(u) => {
                        out.push(32u8);
                        out = concat(out.as_slice(), u.as_slice());
                    },
                    None => {},
                }
                let ghost url_part = match context_url(self.spec_graph(), ord.0 as int) {
                    Some(u) => seq![32u8] + u,
                    None => Seq::<u8>::empty(),
                };
                proof {
                    assert(out@ =~= before_url + url_part);
                }
                out = concat(out.as_slice(), " @".as_bytes());
                let node_id = decimal_bytes(self.graph.nodes[ord.0].id);
                out = concat(out.as_slice(), node_id.as_slice());
                proof {
                    let b = context_label_bytes(kind, id.0, context_url(self.spec_graph(), ord.0 as int), self.spec_graph().nodes@[ord.0 as int].id);
                    assert(out@ =~= b);
                    lemma_sorted_contexts_distinct(self.graph, self.edge_targets, self.native_contexts@);
                    assert forall|i: int|
                        0 <= i < self.spec_native_contexts().len() && #[trigger] self.spec_native_contexts()[i].ordinal == ord
                            implies i == id.0 by {
                        if i < id.0 {
                        } else if i > id.0 {
                            assert(self.native_contexts@[id.0 as int].ordinal != self.native_contexts@[i].ordinal);
                        }
                    }
                }
                text_of(out.as_slice())
            },
            None => String::new(),
        }
    }

    /// The native context a context object belongs to: a native context is
    /// its own; a context follows its "previous" edges until it meets one.
    pub fn find_native_context_for_context(&self, ord: NodeOrdinal) -> (r: Option<NodeOrdinal>)
        requires
            self.wf(),
            ord.0 < self.spec_node_count(),
        ensures
            r matches Some(c) ==> c.0 < self.spec_node_count() && is_native_context_spec(self.spec_graph(), c.0 as int),
            r == match native_context_of_context(self.spec_graph(), ord.0 as int) {
                Some(c) => Some(NodeOrdinal(c as usize)),
                None => None::<NodeOrdinal>,
            },
    {
        match find_native_context_for_context(&self.graph, ord.0) {
            Some(c) => Some(NodeOrdinal(c)),
            None => None,
        }
    }

    /// The JS global objects, in ordinal order.
    pub fn js_global_objects(&self) -> (r: &[usize])
        ensures
            r@ == self.spec_js_global_objects(),
    {
        self.js_global_objects.as_slice()
    }

    /// The JS global proxies, in ordinal order.
    pub fn js_global_proxies(&self) -> (r: &[usize])
        ensures
            r@ == self.spec_js_global_proxies(),
    {
        self.js_global_proxies.as_slice()
    }

    /// Whether a node is a JS global object: its normalized name carries
    /// "[JSGlobalObject]".
    pub fn is_js_global_object(&self, ord: NodeOrdinal) -> (r: bool)
        requires
            self.wf(),
        ensures
            r == self.spec_js_global_objects().contains(ord.0),
            ord.0 < self.spec_node_count() ==> (r == is_js_global_object_node(self.spec_graph(), ord.0 as int)),
    {
        proof {
            reveal(HeapSnapshot::analyses_hold);
        }
        slice_contains(self.js_global_objects.as_slice(), ord.0)
    }

    /// Whether a node is a JS global proxy: its normalized name carries
    /// "[JSGlobalProxy]" and not "[JSGlobalObject]".
    pub fn is_js_global_proxy(&self, ord: NodeOrdinal) -> (r: bool)
        requires
            self.wf(),
        ensures
            r == self.spec_js_global_proxies().contains(ord.0),
            ord.0 < self.spec_node_count() ==> (r == is_js_global_proxy_node(self.spec_graph(), ord.0 as int)),
    {
        proof {
            reveal(HeapSnapshot::analyses_hold);
        }
        slice_contains(self.js_global_proxies.as_slice(), ord.0)
    }

    /// Whether `name` is a field that every JS global object (for a global
    /// object) or every JS global proxy (for a proxy) has.
    pub fn is_common_js_global_field(&self, ord: NodeOrdinal, name: &str) -> (r: bool)
        requires
            self.wf(),
        ensures
            r == if self.spec_js_global_objects().contains(ord.0) {
                common_field(self.spec_graph(), self.spec_js_global_objects(), name.spec_bytes())
            } else if self.spec_js_global_proxies().contains(ord.0) {
                common_field(self.spec_graph(), self.spec_js_global_proxies(), name.spec_bytes())
            } else {
                false
            },
    {
        proof {
            reveal(HeapSnapshot::analyses_hold);
        }
        if self.is_js_global_object(ord) {
            byte_set_contains(&self.js_global_object_fields, name.as_bytes())
        } else if self.is_js_global_proxy(ord) {
            byte_set_contains(&self.js_global_proxy_fields, name.as_bytes())
        } else {
            false
        }
    }

    /// Which JS global a constructor name denotes, as its tag: a first
    /// segment ending in " (global*)" is the global object, one ending in
    /// " (global)" the global proxy.
    pub fn normalize_constructor_type(name: &str) -> (r: Option<&'static str>)
        ensures
            seq_ends_with(name_head(name.spec_bytes()), object_marker()) ==> r == Some("[JSGlobalObject]"),
            !seq_ends_with(name_head(name.spec_bytes()), object_marker()) && seq_ends_with(name_head(name.spec_bytes()), proxy_marker())
                ==> r == Some("[JSGlobalProxy]"),
            !seq_ends_with(name_head(name.spec_bytes()), object_marker()) && !seq_ends_with(name_head(name.spec_bytes()), proxy_marker())
                ==> r is None,
    {
        normalize_constructor_type_bytes(name.as_bytes())
    }

    /// A display name with its JS global marker spelled as the tag.
    pub fn normalize_display_name(name: &str) -> (r: String)
        ensures
            valid_utf8(normalized_display_name(name.spec_bytes())) ==> r@ == decode_utf8(normalized_display_name(name.spec_bytes())),
    {
        let b = normalize_display_name_bytes(name.as_bytes());
        text_of(b.as_slice())
    }
}

/// The name an edge shows under: its string for a named edge, its index
/// in decimal for an element or hidden edge.
pub open spec fn shown_edge_name(g: Graph, e: int) -> Seq<u8> {
    if g.edge_is_named(e) {
        g.edge_name(e)
    } else {
        decimal_of(g.edges@[e].name_or_index)
    }
}

/// The place of a native context's field among those listed first, or 4
/// for the others.
pub open spec fn pinned_rank(x: Seq<u8>) -> int {
    if x == "scope_info".spec_bytes() {
        0
    } else if x == "global_object".spec_bytes() {
        1
    } else if x == "global_proxy_object".spec_bytes() {
        2
    } else if x == "script_context_table".spec_bytes() {
        3
    } else {
        4
    }
}

/// The group an edge of `v` is listed in: for a native context, the
/// pinned fields in their order and then the rest; for a JS global object
/// or proxy, the fields the others lack and then the common ones;
/// otherwise a single group.
pub open spec fn edge_row_rank(s: HeapSnapshot, v: int, e: int) -> int {
    let g = s.spec_graph();
    let x = shown_edge_name(g, e);
    if is_native_context_spec(g, v) {
        pinned_rank(x)
    } else if s.spec_js_global_objects().contains(v as usize) {
        if common_field(g, s.spec_js_global_objects(), x) { 1 } else { 0 }
    } else if s.spec_js_global_proxies().contains(v as usize) {
        if common_field(g, s.spec_js_global_proxies(), x) { 1 } else { 0 }
    } else {
        0
    }
}

/// The edges among the first `k` of `v` that are visible, kept by `keep`
/// (one flag per edge of `v`), and in group `r`, in edge order.
pub open spec fn rank_rows(s: HeapSnapshot, v: int, keep: Seq<bool>, r: int, k: int) -> Seq<usize>
    decreases k,
{
    if k <= 0 {
        Seq::empty()
    } else {
        let g = s.spec_graph();
        let e = g.edge_begin(v) + k - 1;
        let prev = rank_rows(s, v, keep, r, k - 1);
        if g.edge_type(e) != g.types.edge_invisible && keep[k - 1] && edge_row_rank(s, v, e) == r {
            prev.push(e as usize)
        } else {
            prev
        }
    }
}

/// The listed edges of `v`, group by group, for the groups below `r`.
pub open spec fn ordered_rows(s: HeapSnapshot, v: int, keep: Seq<bool>, r: int) -> Seq<usize>
    decreases r,
{
    if r <= 0 {
        Seq::empty()
    } else {
        ordered_rows(s, v, keep, r - 1) + rank_rows(s, v, keep, r - 1, s.spec_graph().edge_end(v) - s.spec_graph().edge_begin(v))
    }
}

impl HeapSnapshot {
    /// Whether `name` is a field that every JS global object (for a global
    /// object) or every JS global proxy (for a proxy) has, by its bytes.
    fn common_js_global_field_bytes(&self, ord: usize, name: &[u8]) -> (r: bool)
        requires
            self.wf(),
        ensures
            r == if self.spec_js_global_objects().contains(ord) {
                common_field(self.spec_graph(), self.spec_js_global_objects(), name@)
            } else if self.spec_js_global_proxies().contains(ord) {
                common_field(self.spec_graph(), self.spec_js_global_proxies(), name@)
            } else {
                false
            },
    {
        proof {
            reveal(HeapSnapshot::analyses_hold);
        }
        if slice_contains(self.js_global_objects.as_slice(), ord) {
            byte_set_contains(&self.js_global_object_fields, name)
        } else if slice_contains(self.js_global_proxies.as_slice(), ord) {
            byte_set_contains(&self.js_global_proxy_fields, name)
        } else {
            false
        }
    }

    /// The group an edge is listed in (see `edge_row_rank`).
    fn edge_rank(&self, ord: usize, e: usize, native: bool) -> (r: usize)
        requires
            self.wf(),
            ord < self.spec_node_count(),
            self.spec_graph().is_out_edge(ord as int, e as int),
            native == is_native_context_spec(self.spec_graph(), ord as int),
        ensures
            r == edge_row_rank(*self, ord as int, e as int),
    {
        proof {
            assert(e < self.graph.edge_count());
        }
        let name: Vec<u8> = if self.graph.edge_is_named_exec(e) {
            vstd::slice::slice_to_vec(self.graph.edge_name_bytes(e))
        } else {
            decimal_bytes(self.graph.edge_name_or_index(e))
        };
        proof {
            assert(name@ == shown_edge_name(self.spec_graph(), e as int));
        }
        if native {
            proof {
                reveal_strlit("scope_info");
                reveal_strlit("global_object");
                reveal_strlit("global_proxy_object");
                reveal_strlit("script_context_table");
            }
            if bytes_eq(name.as_slice(), "scope_info".as_bytes()) {
                0
            } else if bytes_eq(name.as_slice(), "global_object".as_bytes()) {
                1
            } else if bytes_eq(name.as_slice(), "global_proxy_object".as_bytes()) {
                2
            } else if bytes_eq(name.as_slice(), "script_context_table".as_bytes()) {
                3
            } else {
                4
            }
        } else if self.common_js_global_field_bytes(ord, name.as_slice()) {
            1
        } else {
            0
        }
    }

    /// The rows of a node's edges as the containment view lists them:
    /// visible edges that `keep` keeps (one flag per edge of the node, from
    /// matching their labels), grouped (see `edge_row_rank`) and in edge
    /// order within a group; then the `count` rows from `start`. Also the
    /// number of rows before paging.
    pub fn edge_rows(&self, ord: NodeOrdinal, start: usize, count: usize, keep: &Vec<bool>) -> (r: (Vec<(EdgeIndex, NodeOrdinal)>, usize))
        requires
            self.wf(),
            ord.0 < self.spec_node_count(),
            keep@.len() == self.spec_graph().edge_end(ord.0 as int) - self.spec_graph().edge_begin(ord.0 as int),
            start + count <= usize::MAX,
        ensures
            ({
                let all = ordered_rows(*self, ord.0 as int, keep@, 5);
                let lo = if start < all.len() { start as int } else { all.len() as int };
                let hi = if start + count < all.len() { start + count } else { all.len() as int };
                &&& r.1 == all.len()
                &&& r.0@.len() == hi - lo
                &&& forall|i: int| 0 <= i < r.0@.len() ==> (#[trigger] r.0@[i]).0.0 == all[lo + i] && r.0@[i].1.0
                    == self.spec_graph().edge_target(all[lo + i] as int)
            }),
    {
        let v = ord.0;
        let g = &self.graph;
        let native = is_native_context(g, v);
        let (first, last) = g.node_edge_range(v);
        let ghost m = last - first;
        let mut all: Vec<usize> = Vec::new();
        let mut rank: usize = 0;
        while rank < 5
            invariant
                self.wf(),
                g == &self.graph,
                v < self.spec_node_count(),
                first == self.spec_graph().edge_begin(v as int),
                last == self.spec_graph().edge_end(v as int),
                last <= self.spec_graph().edge_count(),
                keep@.len() == last - first,
                native == is_native_context_spec(self.spec_graph(), v as int),
                rank <= 5,
                all@ == ordered_rows(*self, v as int, keep@, rank as int),
                forall|i: int| 0 <= i < all@.len() ==> self.spec_graph().is_out_edge(v as int, #[trigger] all@[i] as int),
            decreases 5 - rank,
        {
            let mut e = first;
            let ghost base = all@;
            while e < last
                invariant
                    self.wf(),
                    g == &self.graph,
                    v < self.spec_node_count(),
                    first == self.spec_graph().edge_begin(v as int),
                    last == self.spec_graph().edge_end(v as int),
                    last <= self.spec_graph().edge_count(),
                    keep@.len() == last - first,
                    native == is_native_context_spec(self.spec_graph(), v as int),
                    rank < 5,
                    first <= e <= last,
                    base == ordered_rows(*self, v as int, keep@, rank as int),
                    all@ == base + rank_rows(*self, v as int, keep@, rank as int, e - first),
                    forall|i: int| 0 <= i < all@.len() ==> self.spec_graph().is_out_edge(v as int, #[trigger] all@[i] as int),
                decreases last - e,
            {
                proof {
                    assert(self.spec_graph().is_out_edge(v as int, e as int));
                }
                if g.edge_type_raw(e) != g.types.edge_invisible && keep[e - first] && self.edge_rank(v, e, native) == rank {
                    all.push(e);
                }
                proof {
                    assert(all@ == base + rank_rows(*self, v as int, keep@, rank as int, e + 1 - first));
                }
                e += 1;
            }
            rank += 1;
        }
        let total = all.len();
        let lo = if start < total { start } else { total };
        let hi = if start + count < total { start + count } else { total };
        let mut out: Vec<(EdgeIndex, NodeOrdinal)> = Vec::new();
        let mut i = lo;
        while i < hi
            invariant
                self.wf(),
                g == &self.graph,
                lo <= i <= hi,
                hi <= all@.len(),
                out@.len() == i - lo,
                forall|j: int| 0 <= j < all@.len() ==> self.spec_graph().is_out_edge(v as int, #[trigger] all@[j] as int),
                v < self.spec_node_count(),
                forall|j: int| 0 <= j < out@.len() ==> (#[trigger] out@[j]).0.0 == all@[lo + j] && out@[j].1.0
                    == self.spec_graph().edge_target(all@[lo + j] as int),
            decreases hi - i,
        {
            let e = all[i];
            proof {
                assert(self.spec_graph().is_out_edge(v as int, all@[i as int] as int));
                assert(self.spec_graph().edge_end(v as int) <= self.spec_graph().edge_count());
            }
            out.push((EdgeIndex(e), NodeOrdinal(g.edge_to_node(e))));
            i += 1;
        }
        (out, total)
    }

    /// The retainer lists invert the edge lists: each entry of a node's
    /// retainer list is an edge into that node that leaves the node the
    /// entry names, and each edge of the graph is listed, with the node it
    /// leaves, among the retainers of the node it enters; a node's entries
    /// come in decreasing edge order.
    pub proof fn lemma_retainers_invert_edges(&self)
        requires
            self.wf(),
        ensures
            forall|v: int, i: int|
                #![trigger self.spec_retainers().range_end(v), self.spec_retainers().retaining_edges@[i]]
                0 <= v < self.spec_node_count() && self.spec_retainers().range_begin(v) <= i < self.spec_retainers().range_end(v)
                    ==> {
                    &&& self.spec_graph().edge_target(self.spec_retainers().retaining_edges@[i] as int) == v
                    &&& self.spec_graph().is_out_edge(
                        self.spec_retainers().retaining_nodes@[i] as int,
                        self.spec_retainers().retaining_edges@[i] as int,
                    )
                },
            forall|u: int, e: int|
                0 <= u < self.spec_node_count() && #[trigger] self.spec_graph().is_out_edge(u, e) ==> exists|i: int|
                    self.spec_retainers().range_begin(self.spec_graph().edge_target(e)) <= i
                        < self.spec_retainers().range_end(self.spec_graph().edge_target(e))
                        && self.spec_retainers().retaining_edges@[i] == e && self.spec_retainers().retaining_nodes@[i] == u,
            self.spec_retainers().descending(self.spec_graph()),
    {
        let g = self.spec_graph();
        let ri = self.spec_retainers();
        assert forall|u: int, e: int| 0 <= u < g.node_count() && #[trigger] g.is_out_edge(u, e) implies exists|i: int|
            ri.range_begin(g.edge_target(e)) <= i < ri.range_end(g.edge_target(e)) && ri.retaining_edges@[i] == e
                && ri.retaining_nodes@[i] == u by {
            assert(g.edge_end(u) <= g.edge_count());
            let t = g.edge_target(e);
            assert(0 <= t < g.node_count());
            let i = choose|i: int| ri.range_begin(t) <= i < ri.range_end(t) && #[trigger] ri.retaining_edges@[i] == e;
            assert(ri.range_end(t) == ri.range_begin(t) + crate::retainers::count_to(g, g.edge_count() as int, t));
            assert(g.is_out_edge(ri.retaining_nodes@[i] as int, e));
            lemma_edge_owner_unique(g, u, ri.retaining_nodes@[i] as int, e);
        }
    }

    /// The system roots are the synthetic root's children that are not
    /// user roots, in edge order; the user roots likewise.
    pub proof fn lemma_roots_in_edge_order(&self)
        requires
            self.wf(),
        ensures
            self.spec_system_roots() == roots_of_kind(self.spec_graph(), RootKind::SystemRoot),
    {
        reveal(HeapSnapshot::analyses_hold);
    }

    /// Every node gets a distance: a BFS distance from the GC roots, or one
    /// at or above `DISTANCE_UNREACHABLE_BASE` for what they do not reach.
    pub proof fn lemma_every_node_has_distance(&self)
        requires
            self.wf(),
        ensures
            forall|v: int| 0 <= v < self.spec_node_count() ==> (#[trigger] self.spec_distances()[v]).0 != DISTANCE_NONE,
    {
        reveal(HeapSnapshot::analyses_hold);
    }

    /// The GC roots are at distance 0, and every other node with a
    /// reachable distance, except the synthetic root, has a retainer
    /// strictly closer to the GC roots: with weak edges counted as
    /// reachable too, a node held only through weak edges sits one step
    /// beyond such a retainer.
    pub proof fn lemma_reachable_nodes_have_closer_retainer(&self)
        requires
            self.wf(),
        ensures
            reachable_distances_sound(self.spec_graph(), self.spec_distances()),
    {
        reveal(HeapSnapshot::analyses_hold);
    }

    /// The walk from the roots misses nothing it follows: from every node
    /// it reached, other than the synthetic root, each edge that is always
    /// followed leads to a node it reached, and it reached every child of
    /// the synthetic root that is not a user root. Its distances are those
    /// of two breadth-first walks (see `distance_walks`). The final
    /// distances keep every node's distance from that walk unless weak
    /// edges count as reachable.
    pub proof fn lemma_walk_reaches_followed_edges(&self)
        requires
            self.wf(),
        ensures
            ({
                let g = self.spec_graph();
                let d = self.spec_first_distances();
                &&& d.len() == g.node_count()
                &&& d[g.gc_roots_ordinal as int].0 == 0
                &&& d[g.root_ordinal as int].0 == 0
                &&& forall|v: int|
                    0 <= v < g.node_count() && #[trigger] d[v].0 != DISTANCE_NONE && v != g.root_ordinal ==> closed_at(g, d, v)
                &&& forall|e: int|
                    #[trigger] g.is_out_edge(g.root_ordinal as int, e) && self.spec_root_kinds()[g.edge_target(e)]
                        != RootKind::UserRoot ==> d[g.edge_target(e)].0 != DISTANCE_NONE
                &&& !self.spec_weak_is_reachable() ==> below_kept(d, self.spec_distances(), DISTANCE_UNREACHABLE_BASE)
                &&& exists|w: Seq<Distance>| #[trigger] distance_walks(g, self.spec_root_kinds(), w, d)
            }),
    {
        reveal(first_pass_ok);
        reveal(HeapSnapshot::analyses_hold);
        reveal(distances_sound);
    }

    /// What the weak option does to the nodes the walk did not reach. With
    /// weak edges counted as reachable, such a node that a reached node holds
    /// through a weak edge gets at most that node's distance plus one.
    /// Without, such a node that a reached node retains, or that no retainer
    /// holds through a non-weak edge, gets `DISTANCE_UNREACHABLE_BASE`, and
    /// every such node is settled by the depth walk, a deeper one having a
    /// followed edge from a shallower node at or above that base: so each
    /// depth is the base plus the fewest followed edges, through nodes the
    /// walk from the roots did not reach, from a node at the base. A node at
    /// the base that such edges reach from a seed is a seed itself. With
    /// weak edges counted, the same holds after the spread over weak edges
    /// (see `weak_phase_ok` and `depths_from`).
    pub proof fn lemma_weak_option_depths(&self)
        requires
            self.wf(),
        ensures
            self.spec_weak_is_reachable() ==> weak_targets_within(
                self.spec_graph(),
                self.spec_first_distances(),
                self.spec_distances(),
                self.spec_node_count() as int,
            ),
            !self.spec_weak_is_reachable() ==> forall|v: int|
                0 <= v < self.spec_node_count() && self.spec_first_distances()[v].0 == DISTANCE_NONE
                    && #[trigger] unreachable_seed(self.spec_graph(), self.spec_retainers(), self.spec_first_distances(), v)
                    ==> self.spec_distances()[v].0 == DISTANCE_UNREACHABLE_BASE,
            !self.spec_weak_is_reachable() ==> forall|v: int|
                0 <= v < self.spec_node_count() && self.spec_first_distances()[v].0 == DISTANCE_NONE ==> #[trigger] depth_walked(
                    self.spec_graph(),
                    self.spec_distances(),
                    v,
                    false,
                ),
            self.spec_weak_is_reachable() ==> exists|aw: Seq<Distance>|
                #[trigger] weak_phase_ok(self.spec_graph(), self.spec_first_distances(), aw) && depths_from(
                    self.spec_graph(),
                    self.spec_retainers(),
                    aw,
                    self.spec_distances(),
                    true,
                ),
            !self.spec_weak_is_reachable() ==> forall|v: int|
                0 <= v < self.spec_node_count() && self.spec_first_distances()[v].0 == DISTANCE_NONE && self.spec_distances()[v].0
                    == DISTANCE_UNREACHABLE_BASE && #[trigger] reached_from_seed(
                    self.spec_graph(),
                    self.spec_retainers(),
                    self.spec_first_distances(),
                    v,
                    false,
                ) ==> unreachable_seed(self.spec_graph(), self.spec_retainers(), self.spec_first_distances(), v),
    {
        reveal(HeapSnapshot::analyses_hold);
    }

    /// The category totals count nodes by type, whatever their names: the
    /// system total is the self size of the hidden nodes; code that of the
    /// nodes of code type; strings that of the nodes whose type is string,
    /// concatenated string or sliced string; a node of a type listed twice
    /// counts in the first category, in the order hidden, native, code,
    /// strings.
    pub proof fn lemma_category_totals(&self)
        requires
            self.wf(),
        ensures
            ({
                let g = self.spec_graph();
                let n = g.node_count() as int;
                let ty = g.types;
                &&& self.spec_statistics().system == node_sum(
                    n,
                    |v: int| if g.node_type(v) == ty.node_hidden { g.self_size(v) as int } else { 0 },
                )
                &&& self.spec_statistics().code == node_sum(
                    n,
                    |v: int|
                        if g.node_type(v) != ty.node_hidden && g.node_type(v) != ty.node_native && g.node_type(v) == ty.node_code {
                            g.self_size(v) as int
                        } else {
                            0
                        },
                )
                &&& self.spec_statistics().strings == node_sum(
                    n,
                    |v: int| {
                        let t = g.node_type(v);
                        if t != ty.node_hidden && t != ty.node_native && t != ty.node_code && (t == ty.node_string || t
                            == ty.node_cons_string || t == ty.node_sliced_string) {
                            g.self_size(v) as int
                        } else {
                            0
                        }
                    },
                )
            }),
    {
        reveal(HeapSnapshot::analyses_hold);
        let g = self.graph;
        let n = g.node_count() as int;
        let ty = g.types;
        lemma_node_sum_agree(
            n,
            |v: int| size_if(g, v, is_system(g, v)),
            |v: int| if g.node_type(v) == ty.node_hidden { g.self_size(v) as int } else { 0 },
        );
        lemma_node_sum_agree(
            n,
            |v: int| size_if(g, v, is_code(g, v)),
            |v: int|
                if g.node_type(v) != ty.node_hidden && g.node_type(v) != ty.node_native && g.node_type(v) == ty.node_code {
                    g.self_size(v) as int
                } else {
                    0
                },
        );
        lemma_node_sum_agree(
            n,
            |v: int| size_if(g, v, is_string(g, v)),
            |v: int| {
                let t = g.node_type(v);
                if t != ty.node_hidden && t != ty.node_native && t != ty.node_code && (t == ty.node_string || t == ty.node_cons_string
                    || t == ty.node_sliced_string) {
                    g.self_size(v) as int
                } else {
                    0
                }
            },
        );
    }

    /// Every closure is of class "Function", whatever its name, when the
    /// type list gives closures a type of their own (not that of hidden,
    /// code, object or native nodes).
    pub proof fn lemma_closures_are_functions(&self, v: int)
        requires
            self.wf(),
            0 <= v < self.spec_node_count(),
            self.spec_graph().node_type(v) == self.spec_graph().types.node_closure,
            self.spec_graph().types.node_closure != self.spec_graph().types.node_hidden,
            self.spec_graph().types.node_closure != self.spec_graph().types.node_code,
            self.spec_graph().types.node_closure != self.spec_graph().types.node_object,
            self.spec_graph().types.node_closure != self.spec_graph().types.node_native,
        ensures
            self.spec_class_name(v) == "Function".spec_bytes(),
    {
        reveal(HeapSnapshot::analyses_hold);
        assert(self.spec_class_name(v) == class_name(self.graph, v));
    }

    /// Every walk over essential edges from the GC roots to a node other
    /// than the GC roots passes through that node's immediate dominator.
    pub proof fn lemma_dominator_on_every_path(&self, p: Seq<int>)
        requires
            self.wf(),
            essential_path(self.spec_graph(), p),
            p.last() != self.spec_graph().gc_roots_ordinal,
        ensures
            p.contains(self.spec_idom()[p.last()] as int),
    {
        reveal(HeapSnapshot::analyses_hold);
    }

    /// Attached states spread first: a node that an attached native node
    /// reaches over DOM edges through nodes recording no state, and that the
    /// system roots reach without passing a Detached node, is Attached, even
    /// when a detached native node reaches it too.
    pub proof fn lemma_attached_wins(&self, p: Seq<int>, q: Seq<int>)
        requires
            self.wf(),
            self.spec_graph().has_detachedness,
            attached_dom_path(self.spec_graph(), p),
            undetached_root_path(self.spec_graph(), self.spec_system_roots(), self.spec_detachedness(), q),
            p.last() == q.last(),
        ensures
            self.spec_detachedness()[p.last()] == Detachedness::Attached,
    {
        reveal(HeapSnapshot::analyses_hold);
        lemma_attached_spread_first(self.graph, self.system_roots@, self.detachedness@, p, q);
    }

    /// A node's retained size is at least its own size, and the GC roots
    /// are their own dominator.
    /// A node's retained size is its self size plus the retained sizes of
    /// the nodes it immediately dominates (other than the GC roots), as far
    /// as `u64` holds it; following immediate dominators from any node
    /// reaches the GC roots.
    pub proof fn lemma_retained_size_sums_dominated(&self, v: int)
        requires
            self.wf(),
            0 <= v < self.spec_node_count(),
        ensures
            self.spec_retained()[v] == saturated(
                self.spec_graph().self_size(v) + dominated_nodes_sum(
                    self.spec_idom(),
                    self.spec_retained(),
                    self.spec_graph().gc_roots_ordinal as int,
                    v,
                    self.spec_node_count() as int,
                ),
            ),
            dominator_chains_end(self.spec_idom(), self.spec_graph().gc_roots_ordinal as int),
    {
        reveal(HeapSnapshot::analyses_hold);
    }

    /// The GC roots retain the whole heap: their retained size is the sum of
    /// all self sizes, and the statistics' total adds the extra native
    /// bytes to it.
    pub proof fn lemma_gc_roots_retain_everything(&self)
        requires
            self.wf(),
        ensures
            self.spec_retained()[self.spec_graph().gc_roots_ordinal as int] == self_size_total(
                self.spec_graph(),
                self.spec_node_count() as int,
            ),
            self.spec_statistics().total == saturated(
                self_size_total(self.spec_graph(), self.spec_node_count() as int) + self.spec_extra_native_bytes(),
            ),
    {
        reveal(HeapSnapshot::analyses_hold);
    }

    pub proof fn lemma_retained_size_covers_self_size(&self)
        requires
            self.wf(),
        ensures
            forall|v: int| 0 <= v < self.spec_node_count() ==> #[trigger] self.spec_retained()[v] >= self.spec_graph().self_size(v),
            self.spec_idom()[self.spec_graph().gc_roots_ordinal as int] == self.spec_graph().gc_roots_ordinal,
    {
        reveal(HeapSnapshot::analyses_hold);
    }

    /// The list holds every native context node, each listed native
    /// context is attributed to itself, and every node is attributed to a
    /// listed native context, to the shared bucket or to none.
    pub proof fn lemma_native_contexts_attributed_to_themselves(&self)
        requires
            self.wf(),
        ensures
            forall|u: int| 0 <= u < self.spec_node_count() && is_native_context_spec(self.spec_graph(), u) ==> exists|i: int|
                0 <= i < self.spec_native_contexts().len() && #[trigger] self.spec_native_contexts()[i].ordinal.0 == u,
            forall|i: int| 0 <= i < self.spec_native_contexts().len() ==> self.spec_buckets()[(#[trigger] self.spec_native_contexts()[i]).ordinal.0 as int]
                == NativeContextBucket::Context(NativeContextId(i as u32)),
            buckets_in_range(self.spec_buckets(), self.spec_native_contexts().len() as int, self.spec_node_count() as int),
    {
    }

    /// A node with a fixed owner (a native context, or what its context
    /// chain, own native context, map or map's map lead to) is in that
    /// owner's bucket; along every edge other than a shortcut into a node
    /// without a fixed owner, merging the source's owner into the target's
    /// leaves the target's unchanged; and a node without a fixed owner has
    /// an owner only when one came to it, over such an edge, from a node
    /// that had one before it or a fixed one.
    pub proof fn lemma_buckets_follow_owners(&self)
        requires
            self.wf(),
        ensures
            ({
                let g = self.spec_graph();
                let n = self.spec_node_count();
                let fixed = Seq::new(n, |v: int| fixed_owner(g, self.spec_edge_targets(), context_ids(self.spec_native_contexts(), n as int), v));
                &&& forall|v: int|
                    0 <= v < n && fixed[v] != NO_NATIVE_CONTEXT_ID ==> #[trigger] bucket_owner(self.spec_buckets()[v]) == fixed[v]
                &&& owners_closed(g, fixed, Seq::new(n, |v: int| bucket_owner(self.spec_buckets()[v])))
                &&& owners_have_support(g, fixed, Seq::new(n, |v: int| bucket_owner(self.spec_buckets()[v])))
            }),
    {
    }

    /// The bytes attributed to the native contexts, the shared bytes and
    /// the unattributed bytes add up to the total self size of all nodes.
    pub proof fn lemma_attributable_sizes_partition(&self)
        requires
            self.wf(),
        ensures
            context_size_sum(self.spec_native_contexts(), self.spec_native_contexts().len() as int)
                + self.spec_shared_size() + self.spec_unattributed_size() == node_sum(
                self.spec_node_count() as int,
                |v: int| self.spec_graph().self_size(v) as int,
            ),
    {
        let g = self.graph;
        assert(buckets_in_range(self.buckets@, self.native_contexts@.len() as int, g.node_count() as int));
        lemma_attribution_partition(g, self.native_contexts@, self.buckets@, self.shared_size as int, self.unattributed_size as int);
    }
}

} // verus!
