use heap_snapshot::parser::parse_from_slice;
use heap_snapshot::snapshot::HeapSnapshot;
use heap_snapshot::types::{
    Distance, EdgeIndex, NodeOrdinal, RawHeapSnapshot, RootKind, SnapshotError, SnapshotHeader, SnapshotMeta,
    SnapshotOptions,
};

const NODE_TYPES: &str = r#"["hidden","array","string","object","code","closure","regexp","number","native","synthetic","concatenated string","sliced string","symbol","bigint"]"#;
const EDGE_TYPES: &str = r#"["context","element","property","internal","hidden","shortcut","weak"]"#;

/// A snapshot file with the given node and edge numbers and string table
/// (already JSON-encoded entries).
fn snapshot_json(node_count: usize, edge_count: usize, nodes: &str, edges: &str, strings: &str) -> Vec<u8> {
    let meta = format!(
        r#"{{"node_fields":["type","name","id","self_size","edge_count"],"node_types":[{},"string","number","number","number"],"edge_fields":["type","name_or_index","to_node"],"edge_types":[{},"string_or_number","node"]}}"#,
        NODE_TYPES, EDGE_TYPES
    );
    format!(
        "{{\"snapshot\":{{\"meta\":{},\"node_count\":{},\"edge_count\":{},\"trace_function_count\":0}},\n\"nodes\":[{}],\n\"edges\":[{}],\n\"strings\":[{}]}}",
        meta, node_count, edge_count, nodes, edges, strings
    )
    .into_bytes()
}

/// Six nodes:
///
/// ```text
/// 0 synthetic root  --element 0-->   1 (GC roots)
/// 1 (GC roots)      --"global"-->    2 Object (100)
/// 1 (GC roots)      --"arr"-->       4 Array (200)
/// 2 Object          --"str"-->       3 "héllo" (50)
/// 2 Object          --weak "w"-->    5 Target (30)
/// ```
fn small_snapshot_bytes() -> Vec<u8> {
    snapshot_json(
        6,
        5,
        "9,0,1,0,1, 9,1,2,0,2, 3,2,3,100,2, 2,3,5,50,0, 1,4,7,200,0, 3,9,9,30,0",
        "1,0,5, 2,5,10, 2,6,20, 2,7,15, 6,8,25",
        r#""","(GC roots)","Object","h\u00e9llo","Array","global","arr","str","w","Target""#,
    )
}

fn small_snapshot() -> HeapSnapshot {
    HeapSnapshot::from_bytes(&small_snapshot_bytes()).unwrap()
}

fn small_snapshot_weak() -> HeapSnapshot {
    HeapSnapshot::from_bytes_with_options(&small_snapshot_bytes(), SnapshotOptions { weak_is_reachable: true }).unwrap()
}

fn names(list: &[&str]) -> Vec<String> {
    list.iter().map(|s| s.to_string()).collect()
}

fn raw_snapshot(strings: Vec<String>, nodes: Vec<u32>, edges: Vec<u32>) -> RawHeapSnapshot {
    RawHeapSnapshot {
        snapshot: SnapshotHeader {
            meta: SnapshotMeta {
                node_fields: names(&["type", "name", "id", "self_size", "edge_count"]),
                node_type_enum: names(&[
                    "hidden",
                    "array",
                    "string",
                    "object",
                    "code",
                    "closure",
                    "regexp",
                    "number",
                    "native",
                    "synthetic",
                    "concatenated string",
                    "sliced string",
                    "symbol",
                    "bigint",
                ]),
                edge_fields: names(&["type", "name_or_index", "to_node"]),
                edge_type_enum: names(&["context", "element", "property", "internal", "hidden", "shortcut", "weak"]),
                location_fields: vec![],
                sample_fields: vec![],
                trace_function_info_fields: vec![],
                trace_node_fields: vec![],
            },
            node_count: nodes.len() / 5,
            edge_count: edges.len() / 3,
            trace_function_count: 0,
            root_index: Some(0),
            extra_native_bytes: None,
        },
        nodes,
        edges,
        strings,
        locations: vec![],
        trace_function_infos: vec![],
        trace_tree_parents: vec![],
        trace_tree_func_idxs: vec![],
        samples: vec![],
    }
}

/// Two native contexts sharing an object, one object only the second
/// reaches, and one object nothing reaches.
fn native_context_snapshot() -> HeapSnapshot {
    let strings = names(&[
        "",
        "(GC roots)",
        "system / NativeContext / https://a.example",
        "system / NativeContext / https://b.example",
        "Shared",
        "OnlyB",
        "Loose",
        "a",
        "b",
        "x",
        "y",
        "z",
    ]);
    let nodes = vec![
        9, 0, 1, 0, 1, // 0 synthetic root
        9, 1, 3, 0, 2, // 1 (GC roots)
        0, 2, 5, 10, 1, // 2 native context a
        0, 3, 7, 20, 2, // 3 native context b
        3, 4, 9, 5, 0, // 4 Shared
        3, 5, 11, 7, 0, // 5 OnlyB
        3, 6, 13, 3, 0, // 6 Loose
    ];
    let edges = vec![
        1, 0, 5, // root -> (GC roots)
        2, 7, 10, // (GC roots) -a-> context a
        2, 8, 15, // (GC roots) -b-> context b
        2, 9, 20, // context a -x-> Shared
        2, 10, 20, // context b -y-> Shared
        2, 11, 25, // context b -z-> OnlyB
    ];
    HeapSnapshot::new(raw_snapshot(strings, nodes, edges)).unwrap()
}

fn all_nodes(snap: &HeapSnapshot) -> Vec<NodeOrdinal> {
    (0..snap.node_count()).map(NodeOrdinal).collect()
}

#[test]
fn parse_small_snapshot_reads_counts_names_and_edges() {
    let snap = small_snapshot();
    assert_eq!(snap.node_count(), 6);
    assert_eq!(snap.gc_roots_ordinal(), NodeOrdinal(1));
    assert_eq!(snap.root_ordinal(), NodeOrdinal(0));
    assert_eq!(snap.node_raw_name(NodeOrdinal(3)), "h\u{e9}llo");
    assert_eq!(snap.node_self_size(NodeOrdinal(4)), 200);
    assert_eq!(snap.edge_name(EdgeIndex(1)), "global");
    assert_eq!(snap.edge_name(EdgeIndex(0)), "0");
    let edges = snap.iter_edges(NodeOrdinal(2));
    assert_eq!(edges, vec![(EdgeIndex(3), NodeOrdinal(3)), (EdgeIndex(4), NodeOrdinal(5))]);
    assert_eq!(snap.root_kind(NodeOrdinal(1)), RootKind::SystemRoot);
    assert_eq!(snap.root_kind(NodeOrdinal(0)), RootKind::SyntheticRoot);
    assert_eq!(snap.root_kind(NodeOrdinal(2)), RootKind::NonRoot);
}

#[test]
fn parse_from_slice_decodes_string_escapes() {
    let bytes = snapshot_json(
        2,
        1,
        "9,0,1,0,1, 9,1,2,0,0",
        "1,0,5",
        r#""","(GC roots)","a\"b","back\\slash","\ud83d\ude00","\ud83d","\q","tab\tend","\u0041\u00e9""#,
    );
    let raw = parse_from_slice(&bytes).unwrap();
    assert_eq!(raw.strings.len(), 9);
    assert_eq!(raw.strings[2], "a\"b");
    assert_eq!(raw.strings[3], "back\\slash");
    assert_eq!(raw.strings[4], "\u{1F600}");
    assert_eq!(raw.strings[5], "\u{FFFD}");
    assert_eq!(raw.strings[6], "\\q");
    assert_eq!(raw.strings[7], "tab\tend");
    assert_eq!(raw.strings[8], "A\u{e9}");
    assert_eq!(raw.nodes, vec![9, 0, 1, 0, 1, 9, 1, 2, 0, 0]);
    assert_eq!(raw.edges, vec![1, 0, 5]);
    assert_eq!(raw.snapshot.node_count, 2);
    assert_eq!(raw.snapshot.edge_count, 1);
    assert_eq!(raw.snapshot.meta.node_fields.len(), 5);
    assert_eq!(raw.snapshot.meta.node_type_enum.len(), 14);
    assert_eq!(raw.snapshot.meta.edge_type_enum[6], "weak");
}

#[test]
fn parse_header_numbers_keep_integer_part() {
    let text = String::from_utf8(snapshot_json(2, 1, "9,0,1,0,1, 9,1,2,0,0", "1,0,5", r#""","(GC roots)""#))
        .unwrap()
        .replace(r#""node_count":2"#, r#""node_count":2.75e0"#);
    let raw = parse_from_slice(text.as_bytes()).unwrap();
    assert_eq!(raw.snapshot.node_count, 2);
    let snap = HeapSnapshot::from_bytes(text.as_bytes()).unwrap();
    assert_eq!(snap.node_count(), 2);
}

#[test]
fn parse_header_numbers_apply_exponents() {
    let base = String::from_utf8(snapshot_json(2, 1, "9,0,1,0,1, 9,1,2,0,0", "1,0,5", r#""","(GC roots)""#)).unwrap();
    let with = |v: &str| base.replace(r#""node_count":2"#, &format!(r#""node_count":{}"#, v));
    assert_eq!(parse_from_slice(with("0.2e1").as_bytes()).unwrap().snapshot.node_count, 2);
    assert_eq!(parse_from_slice(with("20E-1").as_bytes()).unwrap().snapshot.node_count, 2);
    assert_eq!(parse_from_slice(with("2.").as_bytes()).unwrap().snapshot.node_count, 2);
    let extra = |v: &str| base.replace(r#""trace_function_count":0"#, &format!(r#""trace_function_count":0,"extra_native_bytes":{}"#, v));
    assert_eq!(parse_from_slice(extra("1e3").as_bytes()).unwrap().snapshot.extra_native_bytes, Some(1000));
    assert_eq!(parse_from_slice(extra("12.5E+1").as_bytes()).unwrap().snapshot.extra_native_bytes, Some(125));
    assert_eq!(parse_from_slice(extra("-5e2").as_bytes()).unwrap().snapshot.extra_native_bytes, Some(0));
    assert!(parse_from_slice(with("1e").as_bytes()).is_err());
    assert!(parse_from_slice(with("1e+").as_bytes()).is_err());
    assert!(parse_from_slice(with("-").as_bytes()).is_err());
}

#[test]
fn parse_number_arrays_skip_any_separator() {
    let bytes = snapshot_json(2, 1, "9 0 1 0 1\n9\t1 2 0 0", "1 , 0 , 5", r#""" , "(GC roots)""#);
    let raw = parse_from_slice(&bytes).unwrap();
    assert_eq!(raw.nodes, vec![9, 0, 1, 0, 1, 9, 1, 2, 0, 0]);
    assert_eq!(raw.strings, vec!["".to_string(), "(GC roots)".to_string()]);
}

#[test]
fn parse_rejects_bytes_without_snapshot_key() {
    assert!(matches!(HeapSnapshot::from_bytes(b"not a snapshot"), Err(SnapshotError::Parse(_))));
    assert!(matches!(parse_from_slice(b"{}"), Err(SnapshotError::Parse(_))));
}

#[test]
fn parse_rejects_header_without_meta() {
    let bytes = br#"{"snapshot":{"node_count":0,"edge_count":0},"nodes":[],"edges":[],"strings":[]}"#;
    assert!(matches!(parse_from_slice(bytes), Err(SnapshotError::Parse(_))));
}

#[test]
fn parse_rejects_short_node_array() {
    let bytes = snapshot_json(3, 1, "9,0,1,0,1, 9,1,2,0,0", "1,0,5", r#""","(GC roots)""#);
    assert!(matches!(parse_from_slice(&bytes), Err(SnapshotError::Parse(_))));
}

#[test]
fn parse_rejects_invalid_utf8_string() {
    let mut bytes = snapshot_json(2, 1, "9,0,1,0,1, 9,1,2,0,0", "1,0,5", r#""","(GC roots)","XX""#);
    let at = bytes.windows(2).position(|w| w == b"XX").unwrap();
    bytes[at] = 0xFF;
    assert!(matches!(parse_from_slice(&bytes), Err(SnapshotError::Parse(_))));
}

#[test]
fn parse_rejects_unterminated_string_table() {
    let text = String::from_utf8(snapshot_json(2, 1, "9,0,1,0,1, 9,1,2,0,0", "1,0,5", r#""","(GC roots)""#)).unwrap();
    let cut = &text[..text.len() - 4];
    assert!(matches!(parse_from_slice(cut.as_bytes()), Err(SnapshotError::Parse(_))));
}

#[test]
fn new_rejects_edge_to_missing_node() {
    let raw = raw_snapshot(names(&["", "(GC roots)"]), vec![9, 0, 1, 0, 1, 9, 1, 2, 0, 0], vec![1, 0, 100]);
    assert!(matches!(HeapSnapshot::new(raw), Err(SnapshotError::Malformed(_))));
}

#[test]
fn new_rejects_missing_gc_roots() {
    let raw = raw_snapshot(names(&["", "elsewhere"]), vec![9, 0, 1, 0, 1, 9, 1, 2, 0, 0], vec![1, 0, 5]);
    assert!(matches!(HeapSnapshot::new(raw), Err(SnapshotError::Malformed(_))));
}

#[test]
fn new_rejects_missing_node_field() {
    let mut raw = raw_snapshot(names(&["", "(GC roots)"]), vec![9, 0, 1, 0, 1, 9, 1, 2, 0, 0], vec![1, 0, 5]);
    raw.snapshot.meta.node_fields = names(&["type", "name", "ident", "self_size", "edge_count"]);
    assert!(matches!(HeapSnapshot::new(raw), Err(SnapshotError::Malformed(_))));
}

#[test]
fn retainers_invert_edges_on_small_snapshot() {
    let snap = small_snapshot();
    let mut total = 0;
    for u in all_nodes(&snap) {
        for (e, t) in snap.iter_edges(u) {
            assert!(snap.get_retainers(t).contains(&(e, u)));
        }
        for (e, r) in snap.get_retainers(u) {
            assert!(snap.iter_edges(r).contains(&(e, u)));
        }
        total += snap.retainer_count(u);
    }
    assert_eq!(total, 5);
    assert_eq!(snap.get_retainers(NodeOrdinal(5)), vec![(EdgeIndex(4), NodeOrdinal(2))]);
}

#[test]
fn distances_have_closer_retainers() {
    for snap in [small_snapshot(), small_snapshot_weak()] {
        assert_eq!(snap.node_distance(snap.gc_roots_ordinal()), Distance(0));
        for v in all_nodes(&snap) {
            let d = snap.node_distance(v);
            assert_ne!(d, Distance::none());
            if d.is_reachable() && v != snap.gc_roots_ordinal() && v != snap.root_ordinal() {
                assert!(snap.get_retainers(v).iter().any(|&(_, r)| snap.node_distance(r).0 < d.0));
            }
        }
    }
}

#[test]
fn weak_only_target_is_unreachable_unless_weak_counts() {
    let snap = small_snapshot();
    assert_eq!(snap.node_distance(NodeOrdinal(2)), Distance(1));
    assert_eq!(snap.node_distance(NodeOrdinal(3)), Distance(2));
    assert_eq!(snap.node_distance(NodeOrdinal(4)), Distance(1));
    assert!(snap.node_distance(NodeOrdinal(5)).is_unreachable());
    let weak = small_snapshot_weak();
    assert_eq!(weak.node_distance(NodeOrdinal(5)), Distance(2));
}

#[test]
fn retained_sizes_cover_self_sizes_and_dominators_match_children() {
    let snap = small_snapshot();
    let gc = snap.gc_roots_ordinal();
    assert_eq!(snap.dominator_of(gc), gc);
    for v in all_nodes(&snap) {
        assert!(snap.node_retained_size(v) >= snap.node_self_size(v) as u64);
        for c in snap.get_dominated_children(v) {
            assert_eq!(snap.dominator_of(c), v);
            assert_ne!(c, gc);
        }
        if v != gc {
            assert!(snap.get_dominated_children(snap.dominator_of(v)).contains(&v));
        }
    }
    assert_eq!(snap.dominator_of(NodeOrdinal(3)), NodeOrdinal(2));
    assert_eq!(snap.node_retained_size(NodeOrdinal(3)), 50);
}

#[test]
fn retained_sizes_sum_over_the_dominator_tree() {
    let snap = small_snapshot();
    let gc = snap.gc_roots_ordinal();
    let mut total: u64 = 0;
    for v in all_nodes(&snap) {
        total += snap.node_self_size(v) as u64;
        let children: u64 = snap.get_dominated_children(v).iter().map(|c| snap.node_retained_size(*c)).sum();
        assert_eq!(snap.node_retained_size(v), snap.node_self_size(v) as u64 + children);
        let mut d = v;
        for _ in 0..snap.node_count() {
            d = snap.dominator_of(d);
        }
        assert_eq!(d, gc);
    }
    assert_eq!(snap.node_retained_size(gc), total);
    assert_eq!(snap.get_statistics().total, total);
    assert_eq!(total, 380);
}

#[test]
fn reachable_size_counts_strongly_reached_nodes() {
    let snap = small_snapshot();
    let info = snap.reachable_size(&[NodeOrdinal(2)]);
    assert_eq!(info.size, 150);
    assert!(info.native_contexts.is_empty());
    assert_eq!(snap.reachable_size(&[snap.gc_roots_ordinal()]).size, 350);
    assert_eq!(snap.reachable_size(&[]).size, 0);
}

#[test]
fn statistics_sum_categories_exactly() {
    let snap = small_snapshot();
    let stats = snap.get_statistics();
    assert_eq!(stats.strings, 50);
    assert_eq!(stats.js_arrays, 200);
    assert_eq!(stats.code, 0);
    assert_eq!(stats.system, 0);
    assert_eq!(stats.native_total, 0);
    assert_eq!(stats.unreachable_count, 1);
    assert_eq!(stats.unreachable_size, 30);
    assert_eq!(stats.v8heap_total, stats.total);
    let weak = small_snapshot_weak().get_statistics();
    assert_eq!(weak.unreachable_count, 0);
    assert_eq!(weak.unreachable_size, 0);
}

#[test]
fn attributable_sizes_partition_total_self_size() {
    let snap = native_context_snapshot();
    let total: u64 = all_nodes(&snap).iter().map(|&v| snap.node_self_size(v) as u64).sum();
    assert_eq!(total, 45);
    let sizes = snap.native_context_attributable_sizes();
    let context_sum: u64 = sizes.native_contexts.iter().map(|c| c.size).sum();
    assert_eq!(context_sum + sizes.shared + sizes.unattributed, total);
    assert_eq!(snap.native_contexts().len(), 2);
    for (i, c) in snap.native_contexts().iter().enumerate() {
        assert_eq!(snap.native_context_id(c.ordinal).map(|id| id.0 as usize), Some(i));
        assert_eq!(snap.native_context_attributable_size(c.ordinal), Some(c.size));
    }
}

#[test]
fn native_context_labels_spell_kind_id_url_and_node_id() {
    let snap = native_context_snapshot();
    let first = snap.native_contexts()[0].ordinal;
    let label = snap.native_context_label(first);
    assert!(label.starts_with('['));
    assert!(label.contains("] #0 https://"));
    assert!(label.ends_with(&format!(" @{}", snap.node_id(first).0)));
    assert_eq!(snap.native_context_label(NodeOrdinal(4)), "");
    assert_eq!(snap.native_context_url(NodeOrdinal(3)).as_deref(), Some("https://b.example"));
    assert_eq!(snap.native_context_url(NodeOrdinal(4)), None);
}

#[test]
fn js_global_names_normalize_markers() {
    assert_eq!(HeapSnapshot::normalize_constructor_type("Window (global*)"), Some("[JSGlobalObject]"));
    assert_eq!(HeapSnapshot::normalize_constructor_type("Window (global) / https://a"), Some("[JSGlobalProxy]"));
    assert_eq!(HeapSnapshot::normalize_constructor_type("Window"), None);
    assert_eq!(HeapSnapshot::normalize_display_name("Window (global*) / x"), "Window [JSGlobalObject] / x");
    assert_eq!(HeapSnapshot::normalize_display_name("plain"), "plain");
}

/// Two objects retain a third one; its retainers come in decreasing edge
/// order.
#[test]
fn retainers_come_in_decreasing_edge_order() {
    let bytes = snapshot_json(
        5,
        5,
        "9,0,1,0,1, 9,1,2,0,2, 3,2,3,10,1, 3,3,5,10,1, 3,4,7,10,0",
        "1,0,5, 2,5,10, 2,5,15, 2,5,20, 2,5,20",
        r#""","(GC roots)","A","B","C","x""#,
    );
    let snap = HeapSnapshot::from_bytes(&bytes).unwrap();
    assert_eq!(
        snap.get_retainers(NodeOrdinal(4)),
        vec![(EdgeIndex(4), NodeOrdinal(3)), (EdgeIndex(3), NodeOrdinal(2))]
    );
}

/// An unreached chain X -> Y -> Z, with X held by nothing, takes the
/// unreachable base plus the hops from X.
#[test]
fn unreached_chain_depths_count_hops_from_the_base() {
    let bytes = snapshot_json(
        5,
        3,
        "9,0,1,0,1, 9,1,2,0,0, 3,2,3,10,1, 3,3,5,10,1, 3,4,7,10,0",
        "1,0,5, 2,5,15, 2,5,20",
        r#""","(GC roots)","X","Y","Z","x""#,
    );
    let snap = HeapSnapshot::from_bytes(&bytes).unwrap();
    let base = Distance::unreachable_base().0;
    assert_eq!(snap.node_distance(NodeOrdinal(2)).0, base);
    assert_eq!(snap.node_distance(NodeOrdinal(3)).0, base + 1);
    assert_eq!(snap.node_distance(NodeOrdinal(4)).0, base + 2);
}

/// A native context's pinned fields come first, in their fixed order, then
/// the others in edge order; rows that the filter drops are left out, and
/// the page is cut from what remains.
#[test]
fn edge_rows_pin_native_context_fields_and_page() {
    let strings = names(&[
        "",
        "(GC roots)",
        "system / NativeContext / https://a.example",
        "Obj",
        "x",
        "global_object",
        "scope_info",
        "ctx",
    ]);
    let nodes = vec![
        9, 0, 1, 0, 1, // 0 synthetic root
        9, 1, 3, 0, 1, // 1 (GC roots)
        0, 2, 5, 10, 3, // 2 native context
        3, 3, 7, 1, 0, // 3
        3, 3, 9, 1, 0, // 4
        3, 3, 11, 1, 0, // 5
    ];
    let edges = vec![
        1, 0, 5, // root -> (GC roots)
        2, 7, 10, // (GC roots) -ctx-> context
        2, 4, 15, // context -x-> 3
        2, 5, 20, // context -global_object-> 4
        2, 6, 25, // context -scope_info-> 5
    ];
    let snap = HeapSnapshot::new(raw_snapshot(strings, nodes, edges)).unwrap();
    let all = vec![true, true, true];
    let (rows, total) = snap.edge_rows(NodeOrdinal(2), 0, 10, &all);
    assert_eq!(total, 3);
    assert_eq!(
        rows,
        vec![(EdgeIndex(4), NodeOrdinal(5)), (EdgeIndex(3), NodeOrdinal(4)), (EdgeIndex(2), NodeOrdinal(3))]
    );
    let (rows, total) = snap.edge_rows(NodeOrdinal(2), 1, 1, &all);
    assert_eq!(total, 3);
    assert_eq!(rows, vec![(EdgeIndex(3), NodeOrdinal(4))]);
    let (rows, total) = snap.edge_rows(NodeOrdinal(2), 0, 10, &vec![true, false, true]);
    assert_eq!(total, 2);
    assert_eq!(rows, vec![(EdgeIndex(4), NodeOrdinal(5)), (EdgeIndex(2), NodeOrdinal(3))]);
    let (rows, total) = snap.edge_rows(NodeOrdinal(1), 5, 10, &vec![true]);
    assert_eq!((rows.len(), total), (0, 1));
}
