use vstd::prelude::*;
use crate::types::{SnapshotError, SnapshotHeader, SnapshotMeta, RawHeapSnapshot};
use crate::json::{JsonValue, JsonSpec, parse_value, json_get, parse_string_array, json_member, json_views, string_views, json_value_at, lemma_array_view, string_array_at};
use vstd::utf8::encode_utf8;
use vstd::string::StringSliceAdditionalSpecFns;
use crate::scan::{find_token, find_byte, extract_balanced, read_uints, parse_uint_array, after_token, after_byte, balanced_span, uints_from, uint_array_at};
use crate::bytes::bytes_eq;
use crate::graph_build::GraphSource;

verus! {

/// The number under `key` in object `v`, if it is a number.
pub open spec fn number_member(v: JsonSpec, key: Seq<u8>) -> Option<u64> {
    match json_member(v, key) {
        Some(JsonSpec::Number(n)) => Some(n),
        _ => None,
    }
}

/// The strings among `items`, in order.
pub open spec fn strings_among(items: Seq<JsonSpec>) -> Seq<Seq<char>>
    decreases items.len(),
{
    if items.len() == 0 {
        Seq::empty()
    } else {
        let rest = strings_among(items.drop_last());
        match items.last() {
            JsonSpec::Str(s) => rest.push(s),
            _ => rest,
        }
    }
}

/// The strings among the items of the array under `key` in `obj`; empty
/// when the key is missing or holds no array.
pub open spec fn string_list(obj: JsonSpec, key: Seq<u8>) -> Seq<Seq<char>> {
    match json_member(obj, key) {
        Some(JsonSpec::Array(items)) => strings_among(items),
        _ => Seq::empty(),
    }
}

/// The names in the array at index `offset` of the array under `key` in
/// `obj`, an item that is no string counting as the empty name; empty when
/// that path leads to no array.
pub open spec fn type_names(obj: JsonSpec, key: Seq<u8>, offset: int) -> Seq<Seq<char>> {
    match json_member(obj, key) {
        Some(JsonSpec::Array(outer)) => if 0 <= offset < outer.len() {
            match outer[offset] {
                JsonSpec::Array(items) => Seq::new(items.len(), |i: int| match items[i] {
                    JsonSpec::Str(s) => s,
                    _ => Seq::<char>::empty(),
                }),
                _ => Seq::empty(),
            }
        } else {
            Seq::empty()
        },
        _ => Seq::empty(),
    }
}

/// The first index of `list` whose string encodes to `name`.
pub open spec fn first_position(list: Seq<Seq<char>>, name: Seq<u8>) -> Option<int>
    decreases list.len(),
{
    if list.len() == 0 {
        None
    } else if encode_utf8(list[0]) == name {
        Some(0)
    } else {
        match first_position(list.drop_first(), name) {
            Some(i) => Some(i + 1),
            None => None,
        }
    }
}

/// `h` is the snapshot header that the JSON value `v` describes: the field
/// lists and type names of its `meta` member (the type names at the
/// position of "type" among the fields, or the first), and its counts
/// (0 when missing).
pub open spec fn header_matches(h: SnapshotHeader, v: JsonSpec) -> bool {
    let meta = json_member(v, "meta".spec_bytes())->0;
    let node_fields = string_list(meta, "node_fields".spec_bytes());
    let edge_fields = string_list(meta, "edge_fields".spec_bytes());
    let node_type_offset = match first_position(node_fields, "type".spec_bytes()) {
        Some(p) => p,
        None => 0,
    };
    let edge_type_offset = match first_position(edge_fields, "type".spec_bytes()) {
        Some(p) => p,
        None => 0,
    };
    &&& json_member(v, "meta".spec_bytes()) is Some
    &&& string_views(h.meta.node_fields@) == node_fields
    &&& string_views(h.meta.edge_fields@) == edge_fields
    &&& string_views(h.meta.node_type_enum@) == type_names(meta, "node_types".spec_bytes(), node_type_offset)
    &&& string_views(h.meta.edge_type_enum@) == type_names(meta, "edge_types".spec_bytes(), edge_type_offset)
    &&& string_views(h.meta.location_fields@) == string_list(meta, "location_fields".spec_bytes())
    &&& string_views(h.meta.sample_fields@) == string_list(meta, "sample_fields".spec_bytes())
    &&& string_views(h.meta.trace_function_info_fields@) == string_list(meta, "trace_function_info_fields".spec_bytes())
    &&& string_views(h.meta.trace_node_fields@) == string_list(meta, "trace_node_fields".spec_bytes())
    &&& h.node_count == match number_member(v, "node_count".spec_bytes()) {
        Some(n) => n as usize,
        None => 0,
    }
    &&& h.edge_count == match number_member(v, "edge_count".spec_bytes()) {
        Some(n) => n as usize,
        None => 0,
    }
    &&& h.trace_function_count == match number_member(v, "trace_function_count".spec_bytes()) {
        Some(n) => n as usize,
        None => 0,
    }
    &&& h.root_index == match number_member(v, "root_index".spec_bytes()) {
        Some(n) => Some(n as usize),
        None => None,
    }
    &&& h.extra_native_bytes == number_member(v, "extra_native_bytes".spec_bytes())
}

/// The number a JSON value holds, if it is a number.
fn json_u64(v: Option<&JsonValue>) -> (r: Option<u64>)
    ensures
        match v {
            Some(JsonValue::Number(n)) => r == Some(*n),
            _ => r is None,
        },
        match v {
            Some(x) => r == match x@ {
                JsonSpec::Number(n) => Some(n),
                _ => None,
            },
            None => r is None,
        },
{
    match v {
        Some(JsonValue::Number(n)) => Some(*n),
        _ => None,
    }
}

/// The strings among the items of the array under `key`; empty when the
/// key is missing or does not hold an array.
fn string_array_field(obj: &JsonValue, key: &str) -> (r: Vec<String>)
    ensures
        string_views(r@) == string_list(obj@, key.spec_bytes()),
{
    let mut out: Vec<String> = Vec::new();
    match json_get(obj, key.as_bytes()) {
        Some(JsonValue::Array(items)) => {
            proof {
                lemma_array_view(*items);
            }
            let ghost iv = json_views(items@);
            let mut i: usize = 0;
            proof {
                assert(string_views(out@) =~= strings_among(iv.subrange(0, 0)));
            }
            while i < items.len()
                invariant
                    i <= items@.len(),
                    iv == json_views(items@),
                    string_views(out@) == strings_among(iv.subrange(0, i as int)),
                decreases items@.len() - i,
            {
                proof {
                    assert(iv.subrange(0, i + 1).drop_last() =~= iv.subrange(0, i as int));
                }
                let ghost before = out@;
                match &items[i] {
                    JsonValue::Str(s) => {
                        out.push(s.clone());
                        proof {
                            assert(string_views(out@) =~= string_views(before).push(s@));
                        }
                    },
                    _ => {},
                }
                i += 1;
            }
            proof {
                assert(iv.subrange(0, iv.len() as int) =~= iv);
            }
        },
        Some(x) => {
            proof {
                match x@ {
                    JsonSpec::Array(a) => {
                        assert(false);
                    },
                    _ => {},
                }
                assert(string_views(out@) =~= Seq::<Seq<char>>::empty());
            }
        },
        None => {
            proof {
                assert(string_views(out@) =~= Seq::<Seq<char>>::empty());
            }
        },
    }
    out
}

/// The type names under `meta[key][offset]`, an array of strings; an item
/// that is not a string gives the empty string. Empty when the path does
/// not lead to an array.
fn type_enum_field(obj: &JsonValue, key: &str, offset: usize) -> (r: Vec<String>)
    ensures
        string_views(r@) == type_names(obj@, key.spec_bytes(), offset as int),
{
    let mut out: Vec<String> = Vec::new();
    proof {
        assert(string_views(out@) =~= Seq::<Seq<char>>::empty());
    }
    match json_get(obj, key.as_bytes()) {
        Some(JsonValue::Array(outer)) => {
            proof {
                lemma_array_view(*outer);
            }
            if offset < outer.len() {
                match &outer[offset] {
                    JsonValue::Array(items) => {
                        proof {
                            lemma_array_view(*items);
                        }
                        let ghost iv = json_views(items@);
                        let mut i: usize = 0;
                        while i < items.len()
                            invariant
                                i <= items@.len(),
                                iv == json_views(items@),
                                string_views(out@) == Seq::new(i as nat, |j: int| match iv[j] {
                                    JsonSpec::Str(s) => s,
                                    _ => Seq::<char>::empty(),
                                }),
                            decreases items@.len() - i,
                        {
                            let ghost before = out@;
                            match &items[i] {
                                JsonValue::Str(s) => {
                                    proof {
                                        assert(iv[i as int] == JsonSpec::Str(s@));
                                    }
                                    out.push(s.clone());
                                },
                                x => {
                                    proof {
                                        assert(iv[i as int] == x@);
                                        assert(!(iv[i as int] is Str));
                                    }
                                    out.push(String::new());
                                },
                            }
                            proof {
                                assert(string_views(out@) =~= string_views(before).push(out@[i as int]@));
                                assert(string_views(out@) =~= Seq::new((i + 1) as nat, |j: int| match iv[j] {
                                    JsonSpec::Str(s) => s,
                                    _ => Seq::<char>::empty(),
                                }));
                            }
                            i += 1;
                        }
                    },
                    x => {
                        proof {
                            match x@ {
                                JsonSpec::Array(a) => {
                                    assert(false);
                                },
                                _ => {},
                            }
                        }
                    },
                }
            }
        },
        Some(x) => {
            proof {
                match x@ {
                    JsonSpec::Array(a) => {
                        assert(false);
                    },
                    _ => {},
                }
            }
        },
        None => {},
    }
    out
}

/// Position of `name` in a list of strings.
fn position_in(list: &Vec<String>, name: &str) -> (r: Option<usize>)
    ensures
        r matches Some(p) ==> p < list@.len(),
        match r {
            Some(p) => first_position(string_views(list@), name.spec_bytes()) == Some(p as int),
            None => first_position(string_views(list@), name.spec_bytes()) is None,
        },
{
    let ghost lv = string_views(list@);
    let mut i: usize = 0;
    proof {
        assert(lv.subrange(0, lv.len() as int) =~= lv);
    }
    while i < list.len()
        invariant
            i <= list@.len(),
            lv == string_views(list@),
            first_position(lv, name.spec_bytes()) == match first_position(lv.subrange(i as int, lv.len() as int), name.spec_bytes()) {
                Some(q) => Some(q + i),
                None => None,
            },
        decreases list@.len() - i,
    {
        let ghost rest = lv.subrange(i as int, lv.len() as int);
        assert(rest[0] == lv[i as int]);
        if bytes_eq(list[i].as_str().as_bytes(), name.as_bytes()) {
            return Some(i);
        }
        proof {
            assert(rest.drop_first() =~= lv.subrange(i + 1, lv.len() as int));
        }
        i += 1;
    }
    None
}

/// The snapshot header: the `meta` field lists and type names, and the
/// counts. Fails when `meta` is missing.
fn header_from_json(value: &JsonValue) -> (r: Result<SnapshotHeader, SnapshotError>)
    ensures
        match r {
            Ok(h) => header_matches(h, value@),
            Err(_) => json_member(value@, "meta".spec_bytes()) is None,
        },
{
    let meta_val = match json_get(value, "meta".as_bytes()) {
        Some(m) => m,
        None => {
            return Err(SnapshotError::Parse("missing 'meta' in snapshot header".to_string()));
        },
    };
    let node_fields = string_array_field(meta_val, "node_fields");
    let edge_fields = string_array_field(meta_val, "edge_fields");
    let node_type_offset = match position_in(&node_fields, "type") {
        Some(p) => p,
        None => 0,
    };
    let edge_type_offset = match position_in(&edge_fields, "type") {
        Some(p) => p,
        None => 0,
    };
    let node_type_enum = type_enum_field(meta_val, "node_types", node_type_offset);
    let edge_type_enum = type_enum_field(meta_val, "edge_types", edge_type_offset);
    let meta = SnapshotMeta {
        node_fields,
        node_type_enum,
        edge_fields,
        edge_type_enum,
        location_fields: string_array_field(meta_val, "location_fields"),
        sample_fields: string_array_field(meta_val, "sample_fields"),
        trace_function_info_fields: string_array_field(meta_val, "trace_function_info_fields"),
        trace_node_fields: string_array_field(meta_val, "trace_node_fields"),
    };
    let node_count = match json_u64(json_get(value, "node_count".as_bytes())) {
        Some(n) => n as usize,
        None => 0,
    };
    let edge_count = match json_u64(json_get(value, "edge_count".as_bytes())) {
        Some(n) => n as usize,
        None => 0,
    };
    let trace_function_count = match json_u64(json_get(value, "trace_function_count".as_bytes())) {
        Some(n) => n as usize,
        None => 0,
    };
    let root_index = match json_u64(json_get(value, "root_index".as_bytes())) {
        Some(n) => Some(n as usize),
        None => None,
    };
    let extra_native_bytes = json_u64(json_get(value, "extra_native_bytes".as_bytes()));
    Ok(SnapshotHeader { meta, node_count, edge_count, trace_function_count, root_index, extra_native_bytes })
}

/// The header a snapshot's header bytes describe, if they hold a JSON
/// value with a `meta` member.
pub open spec fn header_parses(data: Seq<u8>, h: SnapshotHeader) -> bool {
    match json_value_at(data, 0) {
        Some((v, _)) => header_matches(h, v),
        None => false,
    }
}

/// Parses the JSON object of the snapshot header.
pub fn parse_snapshot_header(data: &[u8]) -> (r: Result<SnapshotHeader, SnapshotError>)
    ensures
        match r {
            Ok(h) => header_parses(data@, h),
            Err(_) => match json_value_at(data@, 0) {
                Some((v, _)) => json_member(v, "meta".spec_bytes()) is None,
                None => true,
            },
        },
{
    let (value, _p) = parse_value(data, 0)?;
    header_from_json(&value)
}

/// The largest node id, starting from `m`, among the trace nodes of `arr`
/// from index `i` on: `arr` is a flat list of `[id, function index, count,
/// size, children]` groups, the children nested the same way; ids are cut
/// to `u32`.
pub open spec fn trace_max(arr: Seq<JsonSpec>, i: int, m: u32) -> u32
    decreases arr, arr.len() - i,
{
    if i < 0 || arr.len() <= 4 || i >= arr.len() - 4 {
        m
    } else {
        let m1 = match arr[i] {
            JsonSpec::Number(id) => if (id as u32) > m { id as u32 } else { m },
            _ => m,
        };
        let m2 = match arr[i + 4] {
            JsonSpec::Array(children) => {
                proof {
                    assert(decreases_to!(arr => arr[i + 4]));
                }
                trace_max(children, 0, m1)
            },
            _ => m1,
        };
        trace_max(arr, i + 5, m2)
    }
}

/// The parent and function index arrays after recording, for the trace
/// nodes of `arr` from index `i` on (children after their parent, in
/// order), each node's parent and function index at its id, where the id
/// fits the arrays.
pub open spec fn trace_walk_spec(arr: Seq<JsonSpec>, i: int, parent: u32, ps: Seq<u32>, fs: Seq<u32>) -> (Seq<u32>, Seq<u32>)
    decreases arr, arr.len() - i,
{
    if i < 0 || arr.len() <= 4 || i >= arr.len() - 4 {
        (ps, fs)
    } else {
        let id = match arr[i] {
            JsonSpec::Number(n) => n as u32,
            _ => 0u32,
        };
        let f = match arr[i + 1] {
            JsonSpec::Number(n) => n as u32,
            _ => 0u32,
        };
        let ps1 = if (id as int) < ps.len() { ps.update(id as int, parent) } else { ps };
        let fs1 = if (id as int) < ps.len() { fs.update(id as int, f) } else { fs };
        let next = match arr[i + 4] {
            JsonSpec::Array(children) => {
                proof {
                    assert(decreases_to!(arr => arr[i + 4]));
                }
                trace_walk_spec(children, 0, id, ps1, fs1)
            },
            _ => (ps1, fs1),
        };
        trace_walk_spec(arr, i + 5, parent, next.0, next.1)
    }
}

/// The parent and function index arrays, indexed by trace node id, that
/// the trace tree in `data` flattens into: one entry per id up to the
/// largest, zero where no node has the id.
pub open spec fn trace_arrays(data: Seq<u8>) -> Option<(Seq<u32>, Seq<u32>)> {
    match json_value_at(data, 0) {
        Some((JsonSpec::Array(arr), _)) => {
            let max_id = trace_max(arr, 0, 0);
            let size: nat = if max_id + 1 > usize::MAX { usize::MAX as nat } else { (max_id + 1) as nat };
            Some(trace_walk_spec(arr, 0, 0, Seq::new(size, |k: int| 0u32), Seq::new(size, |k: int| 0u32)))
        },
        _ => None,
    }
}

/// The largest node id in a trace tree given as a flat list of
/// `[id, function index, count, size, children]` groups.
fn trace_max_id(arr: &Vec<JsonValue>, max: u32) -> (r: u32)
    ensures
        r >= max,
        r == trace_max(json_views(arr@), 0, max),
    decreases arr,
{
    let ghost av = json_views(arr@);
    let mut m = max;
    let mut i: usize = 0;
    while arr.len() > 4 && i < arr.len() - 4
        invariant
            m >= max,
            av == json_views(arr@),
            trace_max(av, 0, max) == trace_max(av, i as int, m),
        decreases arr@.len() - i,
    {
        let ghost m0 = m;
        match &arr[i] {
            JsonValue::Number(id) => {
                proof {
                    assert(av[i as int] == JsonSpec::Number(*id));
                }
                let id32 = *id as u32;
                if id32 > m {
                    m = id32;
                }
            },
            x => {
                proof {
                    assert(av[i as int] == x@);
                    assert(!(av[i as int] is Number));
                }
            },
        }
        match &arr[i + 4] {
            JsonValue::Array(children) => {
                assert(decreases_to!(arr => arr@[i + 4]));
                proof {
                    lemma_array_view(*children);
                    assert(av[i + 4] == JsonSpec::Array(json_views(children@)));
                }
                m = trace_max_id(children, m);
            },
            x => {
                proof {
                    assert(av[i + 4] == x@);
                    assert(!(av[i + 4] is Array));
                }
            },
        }
        i += 5;
    }
    m
}

/// Records the parent and function index of every node of a trace tree
/// whose id fits the arrays.
fn trace_walk(arr: &Vec<JsonValue>, parent_id: u32, parents: &mut Vec<u32>, func_idxs: &mut Vec<u32>)
    requires
        old(parents)@.len() == old(func_idxs)@.len(),
    ensures
        final(parents)@.len() == old(parents)@.len(),
        final(func_idxs)@.len() == old(func_idxs)@.len(),
        (final(parents)@, final(func_idxs)@) == trace_walk_spec(json_views(arr@), 0, parent_id, old(parents)@, old(func_idxs)@),
    decreases arr,
{
    let ghost av = json_views(arr@);
    let ghost target = trace_walk_spec(av, 0, parent_id, parents@, func_idxs@);
    let mut i: usize = 0;
    while arr.len() > 4 && i < arr.len() - 4
        invariant
            parents@.len() == old(parents)@.len(),
            func_idxs@.len() == old(func_idxs)@.len(),
            old(parents)@.len() == old(func_idxs)@.len(),
            av == json_views(arr@),
            target == trace_walk_spec(av, i as int, parent_id, parents@, func_idxs@),
        decreases arr@.len() - i,
    {
        let id: u32 = match &arr[i] {
            JsonValue::Number(n) => {
                proof {
                    assert(av[i as int] == JsonSpec::Number(*n));
                }
                *n as u32
            },
            x => {
                proof {
                    assert(av[i as int] == x@);
                    assert(!(av[i as int] is Number));
                }
                0
            },
        };
        let func_idx: u32 = match &arr[i + 1] {
            JsonValue::Number(n) => {
                proof {
                    assert(av[i + 1] == JsonSpec::Number(*n));
                }
                *n as u32
            },
            x => {
                proof {
                    assert(av[i + 1] == x@);
                    assert(!(av[i + 1] is Number));
                }
                0
            },
        };
        let idx = id as usize;
        if idx < parents.len() {
            parents.set(idx, parent_id);
            func_idxs.set(idx, func_idx);
        }
        match &arr[i + 4] {
            JsonValue::Array(children) => {
                assert(decreases_to!(arr => arr@[i + 4]));
                proof {
                    lemma_array_view(*children);
                    assert(av[i + 4] == JsonSpec::Array(json_views(children@)));
                }
                trace_walk(children, id, parents, func_idxs);
            },
            x => {
                proof {
                    assert(av[i + 4] == x@);
                    assert(!(av[i + 4] is Array));
                }
            },
        }
        i += 5;
    }
}

/// The nested trace tree flattened into parent and function-index arrays
/// indexed by trace node id.
pub fn flatten_trace_tree(raw: &[u8]) -> (r: Result<(Vec<u32>, Vec<u32>), SnapshotError>)
    ensures
        r matches Ok((p, f)) ==> p@.len() == f@.len(),
        match r {
            Ok((p, f)) => trace_arrays(raw@) == Some((p@, f@)),
            Err(_) => trace_arrays(raw@) is None,
        },
{
    let (tree, _p) = parse_value(raw, 0)?;
    match &tree {
        JsonValue::Array(arr) => {
            proof {
                lemma_array_view(*arr);
            }
            let max_id = trace_max_id(arr, 0);
            let size = (max_id as usize).saturating_add(1);
            let mut parents: Vec<u32> = vec![0u32; size];
            let mut func_idxs: Vec<u32> = vec![0u32; size];
            proof {
                assert(parents@ =~= Seq::new(size as nat, |k: int| 0u32));
                assert(func_idxs@ =~= Seq::new(size as nat, |k: int| 0u32));
            }
            trace_walk(arr, 0, &mut parents, &mut func_idxs);
            Ok((parents, func_idxs))
        },
        x => {
            proof {
                assert(!(x@ is Array));
            }
            Err(SnapshotError::Parse("trace_tree: expected array".to_string()))
        },
    }
}

/// What a snapshot file holds: its header as a JSON value and its arrays.
pub struct SnapshotParts {
    pub header: JsonSpec,
    pub nodes: Seq<u32>,
    pub edges: Seq<u32>,
    pub trace_function_infos: Seq<u32>,
    pub trace_tree_parents: Seq<u32>,
    pub trace_tree_func_idxs: Seq<u32>,
    pub samples: Seq<u32>,
    pub locations: Seq<u32>,
    pub strings: Seq<Seq<char>>,
}

/// A count of the header `v` (0 when missing), cut to `usize`.
pub open spec fn header_count(v: JsonSpec, key: Seq<u8>) -> usize {
    match number_member(v, key) {
        Some(n) => n as usize,
        None => 0,
    }
}

/// The number of fields a field list of the header's `meta` names.
pub open spec fn field_count(v: JsonSpec, key: Seq<u8>) -> int {
    string_list(json_member(v, "meta".spec_bytes())->0, key).len() as int
}

/// The trace sections after position `p`, when the header announces trace
/// functions: the function infos, then the trace tree flattened, and the
/// position after the tree; nothing to read otherwise.
pub open spec fn trace_part(data: Seq<u8>, p: int, announced: bool) -> Option<(Seq<u32>, Seq<u32>, Seq<u32>, int)> {
    if !announced {
        Some((Seq::empty(), Seq::empty(), Seq::empty(), p))
    } else {
        match after_token(data, p, "\"trace_function_infos\"".spec_bytes()) {
            None => None,
            Some(q) => match uint_array_at(data, q) {
                None => None,
                Some((infos, np)) => match after_token(data, np, "\"trace_tree\"".spec_bytes()) {
                    None => None,
                    Some(q2) => match after_byte(data, q2, 58) {
                        None => None,
                        Some(q3) => match balanced_span(data, q3) {
                            None => None,
                            Some((ts, te)) => match trace_arrays(data.subrange(ts, te)) {
                                None => None,
                                Some((ps, fs)) => Some((infos, ps, fs, te)),
                            },
                        },
                    },
                },
            },
        }
    }
}

/// The number array under `key` after position `p` when `wanted`, and the
/// position after it; nothing to read otherwise.
pub open spec fn optional_array(data: Seq<u8>, p: int, wanted: bool, key: Seq<u8>) -> Option<(Seq<u32>, int)> {
    if !wanted {
        Some((Seq::empty(), p))
    } else {
        match after_token(data, p, key) {
            None => None,
            Some(q) => uint_array_at(data, q),
        }
    }
}

/// The parts of a snapshot file, each section found by its key after the
/// previous one: the balanced header object after "snapshot" (a JSON value
/// with a `meta` member), `node_count` records of node fields after the
/// `[` that follows "nodes", `edge_count` records of edge fields likewise
/// after "edges", the trace sections when the header announces trace
/// functions, the samples when it names sample fields and announces trace
/// functions, the locations when it names location fields, and the string
/// table after "strings". None when a section is missing or malformed.
pub open spec fn snapshot_parts(data: Seq<u8>) -> Option<SnapshotParts> {
    match after_token(data, 0, "\"snapshot\"".spec_bytes()) {
        None => None,
        Some(p1) => match after_byte(data, p1, 58) {
            None => None,
            Some(p2) => match balanced_span(data, p2) {
                None => None,
                Some((hs, he)) => match json_value_at(data.subrange(hs, he), 0) {
                    None => None,
                    Some((v, _)) => {
                        let nv = header_count(v, "node_count".spec_bytes()) * field_count(v, "node_fields".spec_bytes());
                        let ev = header_count(v, "edge_count".spec_bytes()) * field_count(v, "edge_fields".spec_bytes());
                        let tfc = header_count(v, "trace_function_count".spec_bytes());
                        let meta = json_member(v, "meta".spec_bytes());
                        if meta is None || nv > usize::MAX || ev > usize::MAX {
                            None
                        } else {
                            match after_token(data, he, "\"nodes\"".spec_bytes()) {
                                None => None,
                                Some(p3) => match after_byte(data, p3, 91) {
                                    None => None,
                                    Some(p4) => match uints_from(data, p4, nv as nat) {
                                        None => None,
                                        Some((nodes, _)) => match after_token(data, p4, "\"edges\"".spec_bytes()) {
                                            None => None,
                                            Some(p5) => match after_byte(data, p5, 91) {
                                                None => None,
                                                Some(p6) => match uints_from(data, p6, ev as nat) {
                                                    None => None,
                                                    Some((edges, _)) => match trace_part(data, p6, tfc > 0) {
                                                        None => None,
                                                        Some((infos, ps, fs, p7)) => match optional_array(
                                                            data,
                                                            p7,
                                                            field_count(v, "sample_fields".spec_bytes()) > 0 && tfc > 0,
                                                            "\"samples\"".spec_bytes(),
                                                        ) {
                                                            None => None,
                                                            Some((samples, p8)) => match optional_array(
                                                                data,
                                                                p8,
                                                                field_count(v, "location_fields".spec_bytes()) > 0,
                                                                "\"locations\"".spec_bytes(),
                                                            ) {
                                                                None => None,
                                                                Some((locations, p9)) => match after_token(data, p9, "\"strings\"".spec_bytes()) {
                                                                    None => None,
                                                                    Some(p10) => match string_array_at(data, p10) {
                                                                        None => None,
                                                                        Some((strings, _)) => Some(SnapshotParts {
                                                                            header: v,
                                                                            nodes,
                                                                            edges,
                                                                            trace_function_infos: infos,
                                                                            trace_tree_parents: ps,
                                                                            trace_tree_func_idxs: fs,
                                                                            samples,
                                                                            locations,
                                                                            strings,
                                                                        }),
                                                                    },
                                                                },
                                                            },
                                                        },
                                                    },
                                                },
                                            },
                                        },
                                    },
                                },
                            }
                        }
                    },
                },
            },
        },
    }
}

/// `raw` holds the parts: the header that the header value describes, and
/// the arrays and strings.
pub open spec fn raw_holds(raw: RawHeapSnapshot, parts: SnapshotParts) -> bool {
    &&& header_matches(raw.snapshot, parts.header)
    &&& raw.nodes@ == parts.nodes
    &&& raw.edges@ == parts.edges
    &&& raw.trace_function_infos@ == parts.trace_function_infos
    &&& raw.trace_tree_parents@ == parts.trace_tree_parents
    &&& raw.trace_tree_func_idxs@ == parts.trace_tree_func_idxs
    &&& raw.samples@ == parts.samples
    &&& raw.locations@ == parts.locations
    &&& string_views(raw.strings@) == parts.strings
}

/// What the graph of a snapshot file is built from, read from its parts:
/// the field lists and edge type names of the header's `meta`, the counts
/// (0 when missing), the root index, the number arrays and the strings.
pub open spec fn parts_source(parts: SnapshotParts) -> GraphSource {
    let v = parts.header;
    let meta = json_member(v, "meta".spec_bytes())->0;
    let node_fields = string_list(meta, "node_fields".spec_bytes());
    let edge_fields = string_list(meta, "edge_fields".spec_bytes());
    let edge_type_offset = match first_position(edge_fields, "type".spec_bytes()) {
        Some(p) => p,
        None => 0,
    };
    let node_type_offset = match first_position(node_fields, "type".spec_bytes()) {
        Some(p) => p,
        None => 0,
    };
    GraphSource {
        node_fields,
        edge_fields,
        node_types: type_names(meta, "node_types".spec_bytes(), node_type_offset),
        edge_types: type_names(meta, "edge_types".spec_bytes(), edge_type_offset),
        node_count: header_count(v, "node_count".spec_bytes()),
        edge_count: header_count(v, "edge_count".spec_bytes()),
        root_index: match number_member(v, "root_index".spec_bytes()) {
            Some(n) => Some(n as usize),
            None => None,
        },
        nodes: parts.nodes,
        edges: parts.edges,
        strings: parts.strings,
    }
}

/// Splits snapshot JSON into its header and arrays: finds each section by
/// its key, reads `node_count` records of node fields and `edge_count`
/// records of edge fields, the allocation sections when the header
/// announces them, and the string table.
pub fn parse_from_slice(data: &[u8]) -> (r: Result<RawHeapSnapshot, SnapshotError>)
    ensures
        match snapshot_parts(data@) {
            Some(parts) => r matches Ok(raw) && raw_holds(raw, parts),
            None => r is Err,
        },
{
    proof {
        reveal_strlit("\"snapshot\"");
        reveal_strlit("\"nodes\"");
        reveal_strlit("\"edges\"");
        reveal_strlit("\"trace_function_infos\"");
        reveal_strlit("\"trace_tree\"");
        reveal_strlit("\"samples\"");
        reveal_strlit("\"locations\"");
        reveal_strlit("\"strings\"");
    }
    let p1 = match find_token(data, 0, "\"snapshot\"".as_bytes()) {
        Ok(p) => p,
        Err(e) => {
            return Err(e);
        },
    };
    let p2 = match find_byte(data, p1, 58u8) {
        Ok(p) => p,
        Err(e) => {
            return Err(e);
        },
    };
    let (hs, he) = match extract_balanced(data, p2) {
        Ok(span) => span,
        Err(e) => {
            return Err(e);
        },
    };
    let header_bytes = vstd::slice::slice_subrange(data, hs, he);
    assert(header_bytes@ == data@.subrange(hs as int, he as int));
    let header = match parse_snapshot_header(header_bytes) {
        Ok(h) => h,
        Err(e) => {
            return Err(e);
        },
    };
    let ghost parsed = json_value_at(header_bytes@, 0)->0;
    let ghost v = parsed.0;
    proof {
        assert(header_matches(header, v));
        assert(header.meta.node_fields@.len() == string_views(header.meta.node_fields@).len());
        assert(header.meta.edge_fields@.len() == string_views(header.meta.edge_fields@).len());
        assert(header.meta.sample_fields@.len() == string_views(header.meta.sample_fields@).len());
        assert(header.meta.location_fields@.len() == string_views(header.meta.location_fields@).len());
    }
    let node_field_count = header.meta.node_fields.len();
    let edge_field_count = header.meta.edge_fields.len();
    let node_values = match header.node_count.checked_mul(node_field_count) {
        Some(v) => v,
        None => {
            return Err(SnapshotError::Parse("unexpected end of input in the node array".to_string()));
        },
    };
    let edge_values = match header.edge_count.checked_mul(edge_field_count) {
        Some(v) => v,
        None => {
            return Err(SnapshotError::Parse("unexpected end of input in the edge array".to_string()));
        },
    };
    let p3 = match find_token(data, he, "\"nodes\"".as_bytes()) {
        Ok(p) => p,
        Err(e) => {
            return Err(e);
        },
    };
    let p4 = match find_byte(data, p3, 91u8) {
        Ok(p) => p,
        Err(e) => {
            return Err(e);
        },
    };
    let nodes = match read_uints(data, p4, node_values) {
        Ok((v, _)) => v,
        Err(e) => {
            return Err(e);
        },
    };
    let p5 = match find_token(data, p4, "\"edges\"".as_bytes()) {
        Ok(p) => p,
        Err(e) => {
            return Err(e);
        },
    };
    let p6 = match find_byte(data, p5, 91u8) {
        Ok(p) => p,
        Err(e) => {
            return Err(e);
        },
    };
    let edges = match read_uints(data, p6, edge_values) {
        Ok((v, _)) => v,
        Err(e) => {
            return Err(e);
        },
    };
    let mut p = p6;
    let mut trace_function_infos: Vec<u32> = Vec::new();
    let mut trace_tree_parents: Vec<u32> = Vec::new();
    let mut trace_tree_func_idxs: Vec<u32> = Vec::new();
    if header.trace_function_count > 0 {
        let q = match find_token(data, p, "\"trace_function_infos\"".as_bytes()) {
            Ok(q) => q,
            Err(e) => {
                return Err(e);
            },
        };
        let (tfi, np) = match parse_uint_array(data, q) {
            Ok(res) => res,
            Err(e) => {
                return Err(e);
            },
        };
        trace_function_infos = tfi;
        let q2 = match find_token(data, np, "\"trace_tree\"".as_bytes()) {
            Ok(q) => q,
            Err(e) => {
                return Err(e);
            },
        };
        let q3 = match find_byte(data, q2, 58u8) {
            Ok(q) => q,
            Err(e) => {
                return Err(e);
            },
        };
        let (ts, te) = match extract_balanced(data, q3) {
            Ok(span) => span,
            Err(e) => {
                return Err(e);
            },
        };
        let tree_bytes = vstd::slice::slice_subrange(data, ts, te);
        assert(tree_bytes@ == data@.subrange(ts as int, te as int));
        let (parents, func_idxs) = match flatten_trace_tree(tree_bytes) {
            Ok(res) => res,
            Err(e) => {
                return Err(e);
            },
        };
        trace_tree_parents = parents;
        trace_tree_func_idxs = func_idxs;
        p = te;
    }
    let ghost p7 = p as int;
    let mut samples: Vec<u32> = Vec::new();
    if header.meta.sample_fields.len() > 0 && header.trace_function_count > 0 {
        let q = match find_token(data, p, "\"samples\"".as_bytes()) {
            Ok(q) => q,
            Err(e) => {
                return Err(e);
            },
        };
        let (smp, np) = match parse_uint_array(data, q) {
            Ok(res) => res,
            Err(e) => {
                return Err(e);
            },
        };
        samples = smp;
        p = np;
    }
    let ghost p8 = p as int;
    let mut locations: Vec<u32> = Vec::new();
    if header.meta.location_fields.len() > 0 {
        let q = match find_token(data, p, "\"locations\"".as_bytes()) {
            Ok(q) => q,
            Err(e) => {
                return Err(e);
            },
        };
        let (loc, np) = match parse_uint_array(data, q) {
            Ok(res) => res,
            Err(e) => {
                return Err(e);
            },
        };
        locations = loc;
        p = np;
    }
    let p10 = match find_token(data, p, "\"strings\"".as_bytes()) {
        Ok(q) => q,
        Err(e) => {
            return Err(e);
        },
    };
    let strings = match parse_string_array(data, p10) {
        Ok((v, _)) => v,
        Err(e) => {
            return Err(e);
        },
    };
    let raw = RawHeapSnapshot {
        snapshot: header,
        nodes,
        edges,
        strings,
        locations,
        trace_function_infos,
        trace_tree_parents,
        trace_tree_func_idxs,
        samples,
    };
    proof {
        let parts = snapshot_parts(data@)->0;
        assert(snapshot_parts(data@) is Some);
        assert(raw_holds(raw, parts));
    }
    Ok(raw)
}

} // verus!
