use vstd::prelude::*;
use vstd::string::StringSliceAdditionalSpecFns;
use crate::graph::Graph;
use crate::types::{NodeOrdinal, NativeContextKind, NativeContextData, NativeContextBucket, NativeContextId};
use crate::edge_search::{lemma_first_match_unique, NO_EDGE_TARGET, named_edge_slot, no_match, is_first_match};
use crate::reach::{is_native_context, is_native_context_spec};
use crate::bytes::{starts_with, seq_starts_with};
use crate::statistics::node_sum;
use crate::edge_search::first_named_edge;
use crate::fxcoll::{IdMap, id_map, id_map_new, id_map_get, id_map_insert};
use crate::globals::{find_native_context_for_context, native_context_of_context, context_chain, previous_of};

verus! {

/// Marks a node that no native context owns.
pub const NO_NATIVE_CONTEXT_ID: u32 = 0xffff_ffff;

/// Marks a node that several native contexts keep alive.
pub const SHARED_NATIVE_CONTEXT_ID: u32 = 0xffff_fffe;

/// For each node, the target of its first edge with each of the names that
/// native-context attribution looks at, or `NO_EDGE_TARGET`.
pub struct EdgeTargets {
    pub global_object: Vec<u32>,
    pub global_proxy_object: Vec<u32>,
    pub native_context: Vec<u32>,
    pub map: Vec<u32>,
    pub script_context_table: Vec<u32>,
}

/// A slot array holds, for every node, the target of its first edge named
/// `name` (internal only, when `internal_only`), or `NO_EDGE_TARGET`.
pub open spec fn slots_ok(g: Graph, slots: Seq<u32>, name: Seq<u8>, internal_only: bool) -> bool {
    &&& slots.len() == g.node_count()
    &&& forall|v: int| 0 <= v < g.node_count() ==> {
        let s = #[trigger] slots[v];
        &&& (s == NO_EDGE_TARGET ==> no_match(g, v, name, internal_only))
        &&& (s != NO_EDGE_TARGET ==> s < g.node_count() && exists|e: int| is_first_match(g, v, e, name, internal_only) && g.edge_target(e) == s)
    }
}

/// The node that the first edge of `v` named `name` (internal only, when
/// `internal_only`) leads to, if `v` has one.
pub open spec fn named_target(g: Graph, v: int, name: Seq<u8>, internal_only: bool) -> Option<int> {
    if exists|e: int| is_first_match(g, v, e, name, internal_only) {
        Some(g.edge_target(choose|e: int| is_first_match(g, v, e, name, internal_only)))
    } else {
        None
    }
}

/// What a slot array says of one node, as `named_target`.
pub proof fn lemma_slot_target(g: Graph, slots: Seq<u32>, name: Seq<u8>, internal_only: bool, v: int)
    requires
        g.wf(),
        slots_ok(g, slots, name, internal_only),
        0 <= v < g.node_count(),
    ensures
        slots[v] == NO_EDGE_TARGET ==> named_target(g, v, name, internal_only) is None,
        slots[v] != NO_EDGE_TARGET ==> named_target(g, v, name, internal_only) == Some(slots[v] as int),
{
    let s = slots[v];
    if s == NO_EDGE_TARGET {
        if exists|e: int| is_first_match(g, v, e, name, internal_only) {
            let e = choose|e: int| is_first_match(g, v, e, name, internal_only);
            assert(g.is_out_edge(v, e));
        }
    } else {
        let e = choose|e: int| is_first_match(g, v, e, name, internal_only) && g.edge_target(e) == s;
        let e2 = choose|e2: int| is_first_match(g, v, e2, name, internal_only);
        lemma_first_match_unique(g, v, e, e2, name, internal_only);
    }
}

impl EdgeTargets {
    pub open spec fn wf(&self, g: Graph) -> bool {
        &&& slots_ok(g, self.global_object@, "global_object".spec_bytes(), false)
        &&& slots_ok(g, self.global_proxy_object@, "global_proxy_object".spec_bytes(), false)
        &&& slots_ok(g, self.native_context@, "native_context".spec_bytes(), true)
        &&& slots_ok(g, self.map@, "map".spec_bytes(), true)
        &&& slots_ok(g, self.script_context_table@, "script_context_table".spec_bytes(), false)
    }
}

fn build_slots(g: &Graph, name: &str, internal_only: bool) -> (r: Vec<u32>)
    requires
        g.wf(),
    ensures
        slots_ok(*g, r@, name.spec_bytes(), internal_only),
{
    let n = g.nodes.len();
    let mut slots: Vec<u32> = Vec::with_capacity(n);
    let mut v: usize = 0;
    while v < n
        invariant
            g.wf(),
            n == g.node_count(),
            v <= n,
            slots@.len() == v,
            forall|u: int| 0 <= u < v ==> {
                let s = #[trigger] slots@[u];
                &&& (s == NO_EDGE_TARGET ==> no_match(*g, u, name.spec_bytes(), internal_only))
                &&& (s != NO_EDGE_TARGET ==> s < g.node_count() && exists|e: int|
                    is_first_match(*g, u, e, name.spec_bytes(), internal_only) && g.edge_target(e) == s)
            },
        decreases n - v,
    {
        let s = named_edge_slot(g, v, name.as_bytes(), internal_only);
        proof {
            if s != NO_EDGE_TARGET {
                let e = choose|e: int| is_first_match(*g, v as int, e, name.spec_bytes(), internal_only) && g.edge_target(e) == s;
                assert(g.is_out_edge(v as int, e));
            }
        }
        slots.push(s);
        v += 1;
    }
    slots
}

/// The edge targets of every node, by edge name.
pub fn build_edge_targets(g: &Graph) -> (r: EdgeTargets)
    requires
        g.wf(),
    ensures
        r.wf(*g),
{
    EdgeTargets {
        global_object: build_slots(g, "global_object", false),
        global_proxy_object: build_slots(g, "global_proxy_object", false),
        native_context: build_slots(g, "native_context", true),
        map: build_slots(g, "map", true),
        script_context_table: build_slots(g, "script_context_table", false),
    }
}

/// The bytes of "system / NativeContext / ".
pub open spec fn url_prefix() -> Seq<u8> {
    "system / NativeContext / ".spec_bytes()
}

/// The URL part of a native context's name: what follows
/// "system / NativeContext / ", when it has that prefix.
pub open spec fn context_url(g: Graph, v: int) -> Option<Seq<u8>> {
    let name = g.node_name(v);
    if is_native_context_spec(g, v) && seq_starts_with(name, url_prefix()) {
        Some(name.subrange(url_prefix().len() as int, name.len() as int))
    } else {
        None
    }
}

/// The URL of a native context, as bytes.
pub fn native_context_url_bytes(g: &Graph, v: usize) -> (r: Option<Vec<u8>>)
    requires
        g.wf(),
        v < g.node_count(),
    ensures
        match r {
            Some(u) => context_url(*g, v as int) == Some(u@),
            None => context_url(*g, v as int) is None,
        },
{
    if !is_native_context(g, v) {
        return None;
    }
    let name = g.node_name_bytes(v);
    let prefix = "system / NativeContext / ".as_bytes();
    if starts_with(name, prefix) {
        Some(vstd::slice::slice_to_vec(vstd::slice::slice_subrange(name, prefix.len(), name.len())))
    } else {
        None
    }
}

/// The kind of a native context: a context whose global object's name
/// starts with "Window" is a frame — the main frame when its global proxy
/// has at least ten edges, an iframe otherwise; any other is a utility
/// context.
pub open spec fn context_kind(g: Graph, t: EdgeTargets, v: int) -> NativeContextKind {
    let go = t.global_object@[v];
    let gp = t.global_proxy_object@[v];
    if go != NO_EDGE_TARGET && seq_starts_with(g.node_name(go as int), "Window".spec_bytes()) {
        if gp != NO_EDGE_TARGET && g.nodes@[gp as int].edge_count >= 10 {
            NativeContextKind::Main
        } else {
            NativeContextKind::Iframe
        }
    } else {
        NativeContextKind::Utility
    }
}

pub fn compute_context_kind(g: &Graph, t: &EdgeTargets, v: usize) -> (r: NativeContextKind)
    requires
        g.wf(),
        t.wf(*g),
        v < g.node_count(),
    ensures
        r == context_kind(*g, *t, v as int),
{
    let go = t.global_object[v];
    if go != NO_EDGE_TARGET && starts_with(g.node_name_bytes(go as usize), "Window".as_bytes()) {
        let gp = t.global_proxy_object[v];
        if gp != NO_EDGE_TARGET && g.nodes[gp as usize].edge_count >= 10 {
            NativeContextKind::Main
        } else {
            NativeContextKind::Iframe
        }
    } else {
        NativeContextKind::Utility
    }
}

/// A native context whose URL is a Chrome extension page.
pub open spec fn is_extension_context(g: Graph, v: int) -> bool {
    match context_url(g, v) {
        Some(u) => seq_starts_with(u, "chrome-extension://".spec_bytes()),
        None => false,
    }
}

/// The order of the native context list: page contexts before extension
/// contexts, then by kind (main, iframe, utility), then by ordinal.
pub open spec fn context_before(a: NativeContextData, b: NativeContextData) -> bool {
    if a.is_extension != b.is_extension {
        !a.is_extension
    } else if a.kind.spec_sort_priority() != b.kind.spec_sort_priority() {
        a.kind.spec_sort_priority() < b.kind.spec_sort_priority()
    } else {
        a.ordinal.0 < b.ordinal.0
    }
}

fn context_before_exec(a: &NativeContextData, b: &NativeContextData) -> (r: bool)
    ensures
        r == context_before(*a, *b),
{
    if a.is_extension != b.is_extension {
        !a.is_extension
    } else if a.kind.sort_priority() != b.kind.sort_priority() {
        a.kind.sort_priority() < b.kind.sort_priority()
    } else {
        a.ordinal.0 < b.ordinal.0
    }
}

/// A native context entry describes its node: a native context, with its
/// kind, whether it is an extension context, and a size of 0.
pub open spec fn ctx_ok(g: Graph, t: EdgeTargets, c: NativeContextData) -> bool {
    ctx_desc(g, t, c) && c.size == 0
}

/// A native context entry names a native context node with its kind and
/// whether it is an extension context.
pub open spec fn ctx_desc(g: Graph, t: EdgeTargets, c: NativeContextData) -> bool {
    &&& c.ordinal.0 < g.node_count()
    &&& is_native_context_spec(g, c.ordinal.0 as int)
    &&& c.kind == context_kind(g, t, c.ordinal.0 as int)
    &&& c.is_extension == is_extension_context(g, c.ordinal.0 as int)
}

/// Entries of a list sorted by `context_before` whose entries describe
/// their nodes have distinct ordinals.
pub proof fn lemma_sorted_contexts_distinct(g: Graph, t: EdgeTargets, cs: Seq<NativeContextData>)
    requires
        forall|i: int| 0 <= i < cs.len() ==> ctx_desc(g, t, #[trigger] cs[i]),
        forall|i: int, j: int| 0 <= i < j < cs.len() ==> context_before(cs[i], cs[j]),
    ensures
        forall|i: int, j: int| 0 <= i < j < cs.len() ==> cs[i].ordinal != cs[j].ordinal,
{
    assert forall|i: int, j: int| 0 <= i < j < cs.len() implies cs[i].ordinal != cs[j].ordinal by {
        assert(ctx_desc(g, t, cs[i]) && ctx_desc(g, t, cs[j]));
        assert(context_before(cs[i], cs[j]));
    }
}

/// The position of a native context's group in the list order.
pub open spec fn context_key(c: NativeContextData) -> int {
    (if c.is_extension { 3int } else { 0int }) + c.kind.spec_sort_priority()
}

fn context_key_exec(c: &NativeContextData) -> (r: u32)
    ensures
        r == context_key(*c),
{
    (if c.is_extension { 3u32 } else { 0u32 }) + c.kind.sort_priority()
}

/// The native contexts of the snapshot, sorted by `context_before`, each
/// with its kind and whether it is an extension context; sizes are 0.
pub fn compute_native_contexts(g: &Graph, t: &EdgeTargets) -> (r: Vec<NativeContextData>)
    requires
        g.wf(),
        t.wf(*g),
    ensures
        forall|i: int| 0 <= i < r@.len() ==> ctx_ok(*g, *t, #[trigger] r@[i]),
        forall|i: int, j: int| 0 <= i < j < r@.len() ==> context_before(r@[i], r@[j]),
        forall|u: int| 0 <= u < g.node_count() && is_native_context_spec(*g, u) ==> exists|i: int|
            0 <= i < r@.len() && #[trigger] r@[i].ordinal.0 == u,
        r@.len() <= g.node_count(),
{
    let n = g.nodes.len();
    let mut found: Vec<NativeContextData> = Vec::new();
    let mut v: usize = 0;
    while v < n
        invariant
            g.wf(),
            t.wf(*g),
            n == g.node_count(),
            v <= n,
            forall|i: int| 0 <= i < found@.len() ==> ctx_ok(*g, *t, #[trigger] found@[i]) && found@[i].ordinal.0 < v,
            forall|u: int| 0 <= u < v && is_native_context_spec(*g, u) ==> exists|i: int|
                0 <= i < found@.len() && #[trigger] found@[i].ordinal.0 == u,
            forall|i: int, j: int| 0 <= i < j < found@.len() ==> found@[i].ordinal.0 < found@[j].ordinal.0,
        decreases n - v,
    {
        if is_native_context(g, v) {
            let kind = compute_context_kind(g, t, v);
            let is_extension = match native_context_url_bytes(g, v) {
                Some(u) => starts_with(u.as_slice(), "chrome-extension://".as_bytes()),
                None => false,
            };
            let ghost before = found@;
            found.push(NativeContextData { ordinal: NodeOrdinal(v), kind, is_extension, size: 0 });
            proof {
                assert forall|u: int| 0 <= u < v + 1 && is_native_context_spec(*g, u) implies exists|i: int|
                    0 <= i < found@.len() && #[trigger] found@[i].ordinal.0 == u by {
                    if u == v {
                        assert(found@[found@.len() - 1].ordinal.0 == u);
                    } else {
                        let i = choose|i: int| 0 <= i < before.len() && #[trigger] before[i].ordinal.0 == u;
                        assert(found@[i].ordinal.0 == u);
                    }
                }
            }
        }
        v += 1;
    }
    let mut out: Vec<NativeContextData> = Vec::new();
    let nf = found.len();
    let mut kk: u32 = 0;
    while kk < 6
        invariant
            g.wf(),
            t.wf(*g),
            n == g.node_count(),
            nf == found@.len(),
            kk <= 6,
            forall|i: int| 0 <= i < found@.len() ==> ctx_ok(*g, *t, #[trigger] found@[i]),
            forall|i: int, j: int| 0 <= i < j < found@.len() ==> found@[i].ordinal.0 < found@[j].ordinal.0,
            forall|i: int| 0 <= i < out@.len() ==> ctx_ok(*g, *t, #[trigger] out@[i]),
            forall|i: int| 0 <= i < out@.len() ==> context_key(#[trigger] out@[i]) < kk,
            forall|i: int, j: int| 0 <= i < j < out@.len() ==> context_before(out@[i], out@[j]),
            forall|u: int| 0 <= u < g.node_count() && is_native_context_spec(*g, u) ==> exists|i: int|
                0 <= i < found@.len() && #[trigger] found@[i].ordinal.0 == u,
            forall|i: int| 0 <= i < found@.len() && context_key(found@[i]) < kk ==> exists|j: int|
                0 <= j < out@.len() && #[trigger] out@[j] == found@[i],
        decreases 6 - kk,
    {
        let mut k: usize = 0;
        let ghost out_start = out@.len();
        while k < nf
            invariant
                nf == found@.len(),
                kk < 6,
                k <= nf,
                out_start <= out@.len(),
                forall|i: int| 0 <= i < found@.len() ==> ctx_ok(*g, *t, #[trigger] found@[i]),
                forall|i: int, j: int| 0 <= i < j < found@.len() ==> found@[i].ordinal.0 < found@[j].ordinal.0,
                forall|i: int| 0 <= i < out@.len() ==> ctx_ok(*g, *t, #[trigger] out@[i]),
                forall|i: int| 0 <= i < out_start ==> context_key(#[trigger] out@[i]) < kk,
                forall|i: int| out_start <= i < out@.len() ==> context_key(#[trigger] out@[i]) == kk,
                forall|i: int, j: int| 0 <= i < j < out@.len() ==> context_before(out@[i], out@[j]),
                forall|i: int| 0 <= i < found@.len() && (context_key(found@[i]) < kk || (context_key(found@[i]) == kk && i < k))
                    ==> exists|j: int| 0 <= j < out@.len() && #[trigger] out@[j] == found@[i],
                k < nf ==> forall|i: int| out_start <= i < out@.len() ==> (#[trigger] out@[i]).ordinal.0 < found@[k as int].ordinal.0,
            decreases nf - k,
        {
            let ghost before0 = out@;
            if context_key_exec(&found[k]) == kk {
                let ghost before = out@;
                out.push(found[k]);
                proof {
                    assert forall|i: int| 0 <= i < found@.len() && (context_key(found@[i]) < kk || (context_key(found@[i]) == kk && i < k + 1))
                        implies exists|j: int| 0 <= j < out@.len() && #[trigger] out@[j] == found@[i] by {
                        if i == k {
                            assert(out@[out@.len() - 1] == found@[i]);
                        } else {
                            let j = choose|j: int| 0 <= j < before.len() && #[trigger] before[j] == found@[i];
                            assert(out@[j] == before[j]);
                        }
                    }
                    assert forall|i: int, j: int| 0 <= i < j < out@.len() implies context_before(out@[i], out@[j]) by {
                        if j == out@.len() - 1 {
                            if i < out_start {
                                assert(context_key(out@[i]) < kk);
                            } else {
                                assert(out@[i].ordinal.0 < found@[k as int].ordinal.0);
                            }
                        } else {
                            assert(out@[i] == before[i] && out@[j] == before[j]);
                        }
                    }
                }
            }
            proof {
                if k + 1 < nf {
                    assert forall|i: int| out_start <= i < out@.len() implies (#[trigger] out@[i]).ordinal.0 < found@[k + 1].ordinal.0 by {
                        assert(found@[k as int].ordinal.0 < found@[k + 1].ordinal.0);
                    }
                }
                if context_key(found@[k as int]) != kk {
                    assert forall|i: int| 0 <= i < found@.len() && (context_key(found@[i]) < kk || (context_key(found@[i]) == kk && i < k + 1))
                        implies exists|j: int| 0 <= j < out@.len() && #[trigger] out@[j] == found@[i] by {
                        if i == k {
                            assert(context_key(found@[i]) < kk);
                        }
                    }
                }
            }
            k += 1;
        }
        kk += 1;
    }
    proof {
        assert forall|u: int| 0 <= u < g.node_count() && is_native_context_spec(*g, u) implies exists|i: int|
            0 <= i < out@.len() && #[trigger] out@[i].ordinal.0 == u by {
            let i = choose|i: int| 0 <= i < found@.len() && #[trigger] found@[i].ordinal.0 == u;
            assert(context_key(found@[i]) < 6);
            let j = choose|j: int| 0 <= j < out@.len() && #[trigger] out@[j] == found@[i];
            assert(out@[j].ordinal.0 == u);
        }
        lemma_contexts_bounded(*g, *t, out@);
    }
    out
}

/// A list of entries, sorted and describing their nodes, holds at most one
/// entry per node.
pub proof fn lemma_contexts_bounded(g: Graph, t: EdgeTargets, cs: Seq<NativeContextData>)
    requires
        forall|i: int| 0 <= i < cs.len() ==> ctx_desc(g, t, #[trigger] cs[i]),
        forall|i: int, j: int| 0 <= i < j < cs.len() ==> context_before(cs[i], cs[j]),
    ensures
        cs.len() <= g.node_count(),
{
    lemma_sorted_contexts_distinct(g, t, cs);
    let ords = cs.map_values(|c: NativeContextData| c.ordinal.0 as int);
    assert forall|i: int, j: int| 0 <= i < ords.len() && 0 <= j < ords.len() && i != j implies ords[i] != ords[j] by {
        if i < j {
            assert(cs[i].ordinal != cs[j].ordinal);
        } else {
            assert(cs[j].ordinal != cs[i].ordinal);
        }
    }
    assert(ords.no_duplicates());
    ords.unique_seq_to_set();
    assert forall|x: int| ords.to_set().contains(x) implies vstd::set_lib::set_int_range(0, g.node_count() as int).contains(x) by {
        let i = choose|i: int| 0 <= i < ords.len() && ords[i] == x;
        assert(ctx_desc(g, t, cs[i]));
    }
    vstd::set_lib::lemma_int_range(0, g.node_count() as int);
    vstd::set_lib::lemma_len_subset(ords.to_set(), vstd::set_lib::set_int_range(0, g.node_count() as int));
}

/// Combines the owner a node has with one that reaches it: Shared wins,
/// no owner takes the other, two different contexts make it Shared.
pub open spec fn merge_owner(current: u32, incoming: u32) -> u32 {
    if current == SHARED_NATIVE_CONTEXT_ID || incoming == SHARED_NATIVE_CONTEXT_ID {
        SHARED_NATIVE_CONTEXT_ID
    } else if current == NO_NATIVE_CONTEXT_ID {
        incoming
    } else if incoming == NO_NATIVE_CONTEXT_ID || current == incoming {
        current
    } else {
        SHARED_NATIVE_CONTEXT_ID
    }
}

pub fn merge_native_context_owner(current: u32, incoming: u32) -> (r: u32)
    ensures
        r == merge_owner(current, incoming),
{
    if current == SHARED_NATIVE_CONTEXT_ID || incoming == SHARED_NATIVE_CONTEXT_ID {
        SHARED_NATIVE_CONTEXT_ID
    } else if current == NO_NATIVE_CONTEXT_ID {
        incoming
    } else if incoming == NO_NATIVE_CONTEXT_ID || current == incoming {
        current
    } else {
        SHARED_NATIVE_CONTEXT_ID
    }
}

/// An owner value: no owner, shared, or the id of a native context.
pub open spec fn owner_ok(x: u32, nctx: int) -> bool {
    x == NO_NATIVE_CONTEXT_ID || x == SHARED_NATIVE_CONTEXT_ID || x < nctx
}

/// How many more times an owner value can change.
pub open spec fn owner_potential(x: u32) -> nat {
    if x == NO_NATIVE_CONTEXT_ID {
        2
    } else if x == SHARED_NATIVE_CONTEXT_ID {
        0
    } else {
        1
    }
}

pub open spec fn total_potential(s: Seq<u32>) -> nat
    decreases s.len(),
{
    if s.len() == 0 {
        0
    } else {
        total_potential(s.drop_last()) + owner_potential(s.last())
    }
}

proof fn lemma_potential_update(s: Seq<u32>, i: int, x: u32)
    requires
        0 <= i < s.len(),
    ensures
        total_potential(s.update(i, x)) == total_potential(s) - owner_potential(s[i]) + owner_potential(x),
    decreases s.len(),
{
    if i == s.len() - 1 {
        assert(s.update(i, x).drop_last() =~= s.drop_last());
    } else {
        lemma_potential_update(s.drop_last(), i, x);
        assert(s.update(i, x).drop_last() =~= s.drop_last().update(i, x));
    }
}

/// The context id an `IdMap` gives node `c`, or none.
pub open spec fn id_lookup(m: Map<usize, u32>, c: int) -> u32 {
    if m.contains_key(c as usize) {
        m[c as usize]
    } else {
        NO_NATIVE_CONTEXT_ID
    }
}

/// The context ids an `IdMap` gives the nodes below `n`.
pub open spec fn ids_of_map(m: Map<usize, u32>, n: int) -> Seq<u32> {
    Seq::new(n as nat, |c: int| id_lookup(m, c))
}

/// The index of each native context in the list, keyed by its node.
pub fn context_ids_by_ordinal(n: usize, contexts: &Vec<NativeContextData>) -> (r: IdMap)
    requires
        contexts@.len() < SHARED_NATIVE_CONTEXT_ID,
        forall|i: int| 0 <= i < contexts@.len() ==> (#[trigger] contexts@[i]).ordinal.0 < n,
        forall|i: int, j: int| 0 <= i < j < contexts@.len() ==> contexts@[i].ordinal != contexts@[j].ordinal,
    ensures
        ({
            let ids = ids_of_map(id_map(r), n as int);
            &&& forall|i: int| 0 <= i < contexts@.len() ==> ids[(#[trigger] contexts@[i]).ordinal.0 as int] == i
            &&& ids.len() == n
            &&& forall|v: int| 0 <= v < n ==> owner_ok(#[trigger] ids[v], contexts@.len() as int) && ids[v] != SHARED_NATIVE_CONTEXT_ID
            &&& forall|v: int| 0 <= v < n && #[trigger] ids[v] != NO_NATIVE_CONTEXT_ID ==> contexts@[ids[v] as int].ordinal.0 == v
        }),
{
    let mut ids = id_map_new();
    let mut i: usize = 0;
    while i < contexts.len()
        invariant
            i <= contexts@.len(),
            contexts@.len() < SHARED_NATIVE_CONTEXT_ID,
            forall|x: int| 0 <= x < contexts@.len() ==> (#[trigger] contexts@[x]).ordinal.0 < n,
            forall|i: int, j: int| 0 <= i < j < contexts@.len() ==> contexts@[i].ordinal != contexts@[j].ordinal,
            forall|k: usize| #[trigger] id_map(ids).contains_key(k) ==> k < n && id_map(ids)[k] < i && contexts@[id_map(ids)[k] as int].ordinal.0 == k,
            forall|x: int| 0 <= x < i ==> id_map(ids).contains_key((#[trigger] contexts@[x]).ordinal.0) && id_map(ids)[contexts@[x].ordinal.0] == x,
        decreases contexts@.len() - i,
    {
        let o = contexts[i].ordinal.0;
        id_map_insert(&mut ids, o, i as u32);
        proof {
            assert forall|x: int| 0 <= x < i + 1 implies id_map(ids).contains_key((#[trigger] contexts@[x]).ordinal.0) && id_map(ids)[contexts@[x].ordinal.0] == x by {
                if x < i {
                    assert(contexts@[x].ordinal != contexts@[i as int].ordinal);
                }
            }
        }
        i += 1;
    }
    proof {
        let iv = ids_of_map(id_map(ids), n as int);
        assert forall|x: int| 0 <= x < contexts@.len() implies iv[(#[trigger] contexts@[x]).ordinal.0 as int] == x by {
            assert(id_map(ids).contains_key(contexts@[x].ordinal.0));
        }
        assert forall|v: int| 0 <= v < n implies owner_ok(#[trigger] iv[v], contexts@.len() as int) && iv[v] != SHARED_NATIVE_CONTEXT_ID by {
            if id_map(ids).contains_key(v as usize) {
                assert(id_map(ids)[v as usize] < contexts@.len());
            }
        }
    }
    ids
}

/// The id of the native context at `c`, if `c` is a listed native context.
fn id_of(ids: &IdMap, c: usize) -> (r: u32)
    ensures
        r == id_lookup(id_map(*ids), c as int),
{
    match id_map_get(ids, c) {
        Some(i) => i,
        None => NO_NATIVE_CONTEXT_ID,
    }
}

/// The target of the first edge of `v` named "context", if any.
pub open spec fn context_edge_target(g: Graph, v: int) -> Option<int> {
    if exists|e: int| is_first_match(g, v, e, "context".spec_bytes(), false) {
        Some(g.edge_target(choose|e: int| is_first_match(g, v, e, "context".spec_bytes(), false)))
    } else {
        None
    }
}

proof fn lemma_chain_nonneg(g: Graph, v: int, fuel: nat)
    requires
        g.wf(),
        0 <= v < g.node_count(),
    ensures
        context_chain(g, v, fuel) matches Some(x) ==> 0 <= x < g.node_count(),
    decreases fuel,
{
    if fuel > 0 {
        if let Some(next) = previous_of(g, v) {
            let e = choose|e: int| is_first_match(g, v, e, "previous".spec_bytes(), false);
            assert(g.is_out_edge(v, e));
            assert(g.edge_end(v) <= g.edge_count());
            assert(g.edge_target(e) < g.node_count());
            lemma_chain_nonneg(g, next, (fuel - 1) as nat);
        }
    }
}

/// The native context of a node with an ordinal is a node with an ordinal.
proof fn lemma_context_nonneg(g: Graph, v: int)
    requires
        g.wf(),
        0 <= v < g.node_count(),
    ensures
        native_context_of_context(g, v) matches Some(x) ==> 0 <= x < g.node_count(),
{
    lemma_chain_nonneg(g, v, g.node_count());
}

/// The id listed for the native context of the context `c`, if it has one
/// with an id.
pub open spec fn context_owner(g: Graph, ids: Seq<u32>, c: int) -> Option<u32> {
    match native_context_of_context(g, c) {
        Some(nc) => if ids[nc] != NO_NATIVE_CONTEXT_ID { Some(ids[nc]) } else { None },
        None => None,
    }
}

/// The native context id that fixes a node's owner, in the order of
/// `infer_fixed_native_context_for_object`.
pub open spec fn fixed_owner(g: Graph, t: EdgeTargets, ids: Seq<u32>, v: int) -> u32 {
    let via_context = match context_edge_target(g, v) {
        Some(c) => context_owner(g, ids, c),
        None => None,
    };
    let own = t.native_context@[v];
    let m = t.map@[v];
    if ids[v] != NO_NATIVE_CONTEXT_ID {
        ids[v]
    } else if via_context is Some {
        via_context->0
    } else if seq_starts_with(g.node_name(v), "system / Context".spec_bytes()) && context_owner(g, ids, v) is Some {
        context_owner(g, ids, v)->0
    } else if own != NO_EDGE_TARGET && ids[own as int] != NO_NATIVE_CONTEXT_ID {
        ids[own as int]
    } else if m == NO_EDGE_TARGET {
        NO_NATIVE_CONTEXT_ID
    } else if t.native_context@[m as int] != NO_EDGE_TARGET && ids[t.native_context@[m as int] as int] != NO_NATIVE_CONTEXT_ID {
        ids[t.native_context@[m as int] as int]
    } else if t.map@[m as int] == NO_EDGE_TARGET {
        NO_NATIVE_CONTEXT_ID
    } else if t.native_context@[t.map@[m as int] as int] == NO_EDGE_TARGET {
        NO_NATIVE_CONTEXT_ID
    } else {
        ids[t.native_context@[t.map@[m as int] as int] as int]
    }
}

/// The native context that fixes a node's owner, tried in this order: the
/// node itself when it is a native context; the native context of the
/// context its "context" edge leads to; its own native context when it is
/// a context object; the target of its internal "native_context" edge;
/// that of its map; that of its map's map.
pub fn infer_fixed_native_context_for_object(g: &Graph, t: &EdgeTargets, ids: &IdMap, v: usize) -> (r: u32)
    requires
        g.wf(),
        t.wf(*g),
        v < g.node_count(),
    ensures
        r == fixed_owner(*g, *t, ids_of_map(id_map(*ids), g.node_count() as int), v as int),
        ids_of_map(id_map(*ids), g.node_count() as int)[v as int] != NO_NATIVE_CONTEXT_ID ==> r == ids_of_map(id_map(*ids), g.node_count() as int)[v as int],
        r == NO_NATIVE_CONTEXT_ID || exists|c: int| 0 <= c < g.node_count() && ids_of_map(id_map(*ids), g.node_count() as int)[c] == r,
{
    let ghost iv = ids_of_map(id_map(*ids), g.node_count() as int);
    let own_id = id_of(ids, v);
    assert(iv[v as int] == own_id);
    if own_id != NO_NATIVE_CONTEXT_ID {
        return own_id;
    }
    let ctx = first_named_edge(g, v, "context".as_bytes(), false);
    proof {
        match ctx {
            Some(e) => {
                let e2 = choose|e2: int| is_first_match(*g, v as int, e2, "context".spec_bytes(), false);
                lemma_first_match_unique(*g, v as int, e as int, e2, "context".spec_bytes(), false);
                assert(context_edge_target(*g, v as int) == Some(g.edge_target(e as int)));
            },
            None => {
                if exists|e: int| is_first_match(*g, v as int, e, "context".spec_bytes(), false) {
                    let e2 = choose|e2: int| is_first_match(*g, v as int, e2, "context".spec_bytes(), false);
                    assert(g.is_out_edge(v as int, e2));
                }
            },
        }
    }
    match ctx {
        Some(e) => {
            let c = g.edge_to_node(e);
            proof {
                lemma_context_nonneg(*g, c as int);
            }
            match find_native_context_for_context(g, c) {
                Some(nc) => {
                    let r = id_of(ids, nc);
                    if r != NO_NATIVE_CONTEXT_ID {
                        proof {
                            assert(iv[nc as int] == r);
                            assert(native_context_of_context(*g, c as int) == Some(nc as int));
                            assert(context_owner(*g, iv, c as int) == Some(iv[nc as int]));
                            assert(context_edge_target(*g, v as int) == Some(c as int));
                        }
                        return r;
                    }
                },
                None => {},
            }
        },
        None => {},
    }
    proof {
        lemma_context_nonneg(*g, v as int);
    }
    if starts_with(g.node_name_bytes(v), "system / Context".as_bytes()) {
        match find_native_context_for_context(g, v) {
            Some(nc) => {
                let r = id_of(ids, nc);
                if r != NO_NATIVE_CONTEXT_ID {
                    proof {
                        assert(iv[nc as int] == r);
                        assert(native_context_of_context(*g, v as int) == Some(nc as int));
                        assert(context_owner(*g, iv, v as int) == Some(iv[nc as int]));
                    }
                    return r;
                }
            },
            None => {},
        }
    }
    let own = t.native_context[v];
    if own != NO_EDGE_TARGET {
        let r = id_of(ids, own as usize);
        assert(iv[own as int] == r);
        if r != NO_NATIVE_CONTEXT_ID {
            return r;
        }
    }
    let m = t.map[v];
    if m == NO_EDGE_TARGET {
        return NO_NATIVE_CONTEXT_ID;
    }
    let via_map = t.native_context[m as usize];
    if via_map != NO_EDGE_TARGET {
        let r = id_of(ids, via_map as usize);
        assert(iv[via_map as int] == r);
        if r != NO_NATIVE_CONTEXT_ID {
            return r;
        }
    }
    let mm = t.map[m as usize];
    if mm == NO_EDGE_TARGET {
        return NO_NATIVE_CONTEXT_ID;
    }
    let nc = t.native_context[mm as usize];
    if nc == NO_EDGE_TARGET {
        return NO_NATIVE_CONTEXT_ID;
    }
    let r = id_of(ids, nc as usize);
    assert(iv[nc as int] == r);
    r
}

/// The node ordinals of the contexts, in their order.
pub open spec fn context_ordinals(contexts: Seq<NativeContextData>) -> Seq<int> {
    contexts.map_values(|c: NativeContextData| c.ordinal.0 as int)
}

/// The position of node ordinal `v` in `ords`, or none.
pub open spec fn context_id_at(ords: Seq<int>, v: int) -> u32 {
    if exists|i: int| 0 <= i < ords.len() && #[trigger] ords[i] == v {
        (choose|i: int| 0 <= i < ords.len() && #[trigger] ords[i] == v) as u32
    } else {
        NO_NATIVE_CONTEXT_ID
    }
}

/// The context id of every node ordinal below `n`.
pub open spec fn context_ids(contexts: Seq<NativeContextData>, n: int) -> Seq<u32> {
    Seq::new(n as nat, |v: int| context_id_at(context_ordinals(contexts), v))
}

/// The owner value a bucket stands for.
pub open spec fn bucket_owner(b: NativeContextBucket) -> u32 {
    match b {
        NativeContextBucket::Context(id) => id.0,
        NativeContextBucket::Shared => SHARED_NATIVE_CONTEXT_ID,
        NativeContextBucket::Unattributed => NO_NATIVE_CONTEXT_ID,
    }
}

/// The owner that leaves node `u`: its fixed owner, or else the one that
/// reached it.
pub open spec fn outgoing_owner(fixed: Seq<u32>, reach: Seq<u32>, u: int) -> u32 {
    if fixed[u] != NO_NATIVE_CONTEXT_ID {
        fixed[u]
    } else {
        reach[u]
    }
}

/// Edge `e` of `u` carries owners: it is not a shortcut and does not lead
/// back to `u`.
pub open spec fn carries_owner(g: Graph, u: int, e: int) -> bool {
    g.is_out_edge(u, e) && g.edge_type(e) != g.types.edge_shortcut && g.edge_target(e) != u
}

/// Edge `e` of `u` has passed `u`'s owner on: its target has a fixed
/// owner, or the owner that reached the target already takes it in.
pub open spec fn passed_on(g: Graph, fixed: Seq<u32>, reach: Seq<u32>, u: int, e: int) -> bool {
    fixed[g.edge_target(e)] == NO_NATIVE_CONTEXT_ID ==> merge_owner(
        reach[g.edge_target(e)],
        outgoing_owner(fixed, reach, u),
    ) == reach[g.edge_target(e)]
}

/// Every edge of `u` that carries owners has passed `u`'s owner on.
pub open spec fn spread_from(g: Graph, fixed: Seq<u32>, reach: Seq<u32>, u: int) -> bool {
    forall|e: int| #[trigger] carries_owner(g, u, e) ==> passed_on(g, fixed, reach, u, e)
}

/// The owners `o` of all nodes are closed under spreading: along every edge
/// that carries owners into a node without a fixed owner, merging the
/// source's owner into the target's leaves the target's unchanged.
pub open spec fn owners_closed(g: Graph, fixed: Seq<u32>, o: Seq<u32>) -> bool {
    forall|u: int, e: int|
        0 <= u < g.node_count() && #[trigger] carries_owner(g, u, e) && fixed[g.edge_target(e)] == NO_NATIVE_CONTEXT_ID
            ==> merge_owner(o[g.edge_target(e)], o[u]) == o[g.edge_target(e)]
}

/// Every node without a fixed owner that has an owner got it over an edge
/// that carries owners from a node with an owner that comes first in
/// `rank` or has a fixed owner: owners only come from fixed ones.
pub open spec fn owners_supported(g: Graph, fixed: Seq<u32>, o: Seq<u32>, rank: Seq<nat>) -> bool {
    forall|c: int|
        0 <= c < g.node_count() && fixed[c] == NO_NATIVE_CONTEXT_ID && #[trigger] o[c] != NO_NATIVE_CONTEXT_ID ==> exists|u: int, e: int|
            0 <= u < g.node_count() && #[trigger] carries_owner(g, u, e) && g.edge_target(e) == c && o[u]
                != NO_NATIVE_CONTEXT_ID && (fixed[u] != NO_NATIVE_CONTEXT_ID || rank[u] < rank[c])
}

/// Some ranking of the nodes supports every owner (see `owners_supported`).
pub open spec fn owners_have_support(g: Graph, fixed: Seq<u32>, o: Seq<u32>) -> bool {
    exists|rank: Seq<nat>| #[trigger] owners_supported(g, fixed, o, rank)
}

proof fn lemma_merge_facts(a: u32, b: u32, x: u32)
    ensures
        b != NO_NATIVE_CONTEXT_ID ==> merge_owner(a, b) != NO_NATIVE_CONTEXT_ID,
        a != NO_NATIVE_CONTEXT_ID ==> merge_owner(a, b) != NO_NATIVE_CONTEXT_ID,
        merge_owner(a, NO_NATIVE_CONTEXT_ID) == a,
        merge_owner(merge_owner(a, b), b) == merge_owner(a, b),
        merge_owner(a, x) == a ==> merge_owner(merge_owner(a, b), x) == merge_owner(a, b),
{
}

/// Raising the owner that reached `c` keeps every other node's owner
/// passed on.
proof fn lemma_spread_after_raise(g: Graph, fixed: Seq<u32>, reach: Seq<u32>, c: int, x: u32, w: int)
    requires
        g.wf(),
        fixed.len() == g.node_count(),
        reach.len() == g.node_count(),
        0 <= c < g.node_count(),
        0 <= w < g.node_count(),
        w != c,
        spread_from(g, fixed, reach, w),
    ensures
        spread_from(g, fixed, reach.update(c, merge_owner(reach[c], x)), w),
{
    let nr = reach.update(c, merge_owner(reach[c], x));
    assert forall|e: int| #[trigger] carries_owner(g, w, e) implies passed_on(g, fixed, nr, w, e) by {
        assert(passed_on(g, fixed, reach, w, e));
        let t = g.edge_target(e);
        assert(t < g.node_count());
        assert(outgoing_owner(fixed, nr, w) == outgoing_owner(fixed, reach, w));
        lemma_merge_facts(reach[c], x, outgoing_owner(fixed, reach, w));
    }
}

/// What `context_ids_by_ordinal` gives is `context_ids`.
proof fn lemma_context_ids(contexts: Seq<NativeContextData>, n: int, ids: Seq<u32>)
    requires
        contexts.len() < SHARED_NATIVE_CONTEXT_ID,
        ids.len() == n,
        forall|i: int, j: int| 0 <= i < j < contexts.len() ==> contexts[i].ordinal != contexts[j].ordinal,
        forall|i: int| 0 <= i < contexts.len() ==> (#[trigger] contexts[i]).ordinal.0 < n,
        forall|i: int| 0 <= i < contexts.len() ==> ids[(#[trigger] contexts[i]).ordinal.0 as int] == i,
        forall|v: int| 0 <= v < n && #[trigger] ids[v] != NO_NATIVE_CONTEXT_ID ==> contexts[ids[v] as int].ordinal.0 == v,
        forall|v: int| 0 <= v < n ==> owner_ok(#[trigger] ids[v], contexts.len() as int) && ids[v] != SHARED_NATIVE_CONTEXT_ID,
    ensures
        ids == context_ids(contexts, n),
{
    let ords = context_ordinals(contexts);
    assert forall|v: int| 0 <= v < n implies #[trigger] ids[v] == context_id_at(ords, v) by {
        if ids[v] != NO_NATIVE_CONTEXT_ID {
            let k = ids[v] as int;
            assert(0 <= k < contexts.len() && contexts[k].ordinal.0 == v);
            assert(ords[k] == v);
            let i = choose|i: int| 0 <= i < ords.len() && #[trigger] ords[i] == v;
            if i != k {
                if i < k {
                    assert(contexts[i].ordinal != contexts[k].ordinal);
                } else {
                    assert(contexts[k].ordinal != contexts[i].ordinal);
                }
            }
        } else {
            if exists|i: int| 0 <= i < ords.len() && #[trigger] ords[i] == v {
                let i = choose|i: int| 0 <= i < ords.len() && #[trigger] ords[i] == v;
                assert(contexts[i].ordinal.0 == v);
                assert(ids[contexts[i].ordinal.0 as int] == i);
            }
        }
    }
    assert(ids =~= context_ids(contexts, n));
}

/// The native context each node's bytes are attributed to: its fixed
/// owner when it has one; otherwise what the owners that reach it over
/// edges other than shortcuts merge to (a node reached from two contexts
/// is shared); unattributed when nothing reaches it.
pub fn compute_node_native_context_buckets(g: &Graph, t: &EdgeTargets, contexts: &Vec<NativeContextData>) -> (r: Vec<NativeContextBucket>)
    requires
        g.wf(),
        t.wf(*g),
        contexts@.len() < SHARED_NATIVE_CONTEXT_ID,
        forall|i: int| 0 <= i < contexts@.len() ==> (#[trigger] contexts@[i]).ordinal.0 < g.node_count(),
        forall|i: int, j: int| 0 <= i < j < contexts@.len() ==> contexts@[i].ordinal != contexts@[j].ordinal,
    ensures
        r@.len() == g.node_count(),
        forall|i: int| 0 <= i < contexts@.len() ==> r@[(#[trigger] contexts@[i]).ordinal.0 as int] == NativeContextBucket::Context(NativeContextId(i as u32)),
        forall|v: int| 0 <= v < g.node_count() ==> match #[trigger] r@[v] {
            NativeContextBucket::Context(id) => id.0 < contexts@.len(),
            _ => true,
        },
        ({
            let ids = context_ids(contexts@, g.node_count() as int);
            let fixed = Seq::new(g.node_count(), |v: int| fixed_owner(*g, *t, ids, v));
            &&& forall|v: int|
                0 <= v < g.node_count() && fixed[v] != NO_NATIVE_CONTEXT_ID ==> #[trigger] bucket_owner(r@[v]) == fixed[v]
            &&& owners_closed(*g, fixed, Seq::new(g.node_count(), |v: int| bucket_owner(r@[v])))
            &&& owners_have_support(*g, fixed, Seq::new(g.node_count(), |v: int| bucket_owner(r@[v])))
        }),
{
    let n = g.nodes.len();
    let nctx = contexts.len();
    let ids = context_ids_by_ordinal(n, contexts);
    let ghost iv = ids_of_map(id_map(ids), n as int);
    proof {
        lemma_context_ids(contexts@, n as int, iv);
    }
    let mut fixed: Vec<u32> = Vec::with_capacity(n);
    let mut v: usize = 0;
    while v < n
        invariant
            g.wf(),
            t.wf(*g),
            n == g.node_count(),
            iv.len() == n,
            iv == ids_of_map(id_map(ids), n as int),
            forall|u: int| 0 <= u < n ==> owner_ok(#[trigger] iv[u], nctx as int) && iv[u] != SHARED_NATIVE_CONTEXT_ID,
            v <= n,
            fixed@.len() == v,
            forall|u: int| 0 <= u < v ==> owner_ok(#[trigger] fixed@[u], nctx as int) && fixed@[u] != SHARED_NATIVE_CONTEXT_ID,
            forall|u: int| 0 <= u < v && iv[u] != NO_NATIVE_CONTEXT_ID ==> #[trigger] fixed@[u] == iv[u],
            forall|u: int| 0 <= u < v ==> #[trigger] fixed@[u] == fixed_owner(*g, *t, iv, u),
        decreases n - v,
    {
        let f = infer_fixed_native_context_for_object(g, t, &ids, v);
        fixed.push(f);
        v += 1;
    }
    let ghost fx = fixed@;
    assert(fx =~= Seq::new(g.node_count(), |v: int| fixed_owner(*g, *t, iv, v)));
    let mut reach: Vec<u32> = vec![NO_NATIVE_CONTEXT_ID; n];
    let mut queue: Vec<usize> = Vec::new();
    let mut v: usize = 0;
    while v < n
        invariant
            n == g.node_count(),
            v <= n,
            fixed@.len() == n,
            queue@.len() <= v,
            forall|i: int| 0 <= i < queue@.len() ==> #[trigger] queue@[i] < n,
            forall|w: int| 0 <= w < v && fixed@[w] != NO_NATIVE_CONTEXT_ID ==> #[trigger] queued_at(queue@, 0, w),
        decreases n - v,
    {
        let ghost q0 = queue@;
        if fixed[v] != NO_NATIVE_CONTEXT_ID {
            queue.push(v);
            proof {
                assert(queue@[queue@.len() - 1] == v);
            }
        }
        proof {
            assert forall|w: int| 0 <= w < v + 1 && fixed@[w] != NO_NATIVE_CONTEXT_ID implies #[trigger] queued_at(queue@, 0, w) by {
                if w < v {
                    assert(queued_at(q0, 0, w));
                    let j = choose|j: int| 0 <= j < q0.len() && q0[j] == w;
                    assert(queue@[j] == w);
                } else {
                    assert(queue@[queue@.len() - 1] == v);
                }
            }
        }
        v += 1;
    }
    proof {
        assert forall|w: int| 0 <= w < n implies spread_from(*g, fixed@, reach@, w) || queued_at(queue@, 0, w) by {
            if fixed@[w] == NO_NATIVE_CONTEXT_ID {
                assert forall|e: int| #[trigger] carries_owner(*g, w, e) implies passed_on(*g, fixed@, reach@, w, e) by {
                    assert(g.edge_target(e) < n);
                    lemma_merge_facts(reach@[g.edge_target(e)], 0, 0);
                }
            }
        }
    }
    let mut head: usize = 0;
    let ghost mut rank: Seq<nat> = Seq::new(n as nat, |i: int| 0nat);
    let ghost mut clock: nat = 0;
    while head < queue.len()
        invariant
            g.wf(),
            n == g.node_count(),
            fixed@.len() == n,
            rank.len() == n,
            forall|w: int| 0 <= w < n && fixed@[w] == NO_NATIVE_CONTEXT_ID && #[trigger] reach@[w] != NO_NATIVE_CONTEXT_ID ==> rank[w] < clock,
            forall|c: int|
                0 <= c < n && fixed@[c] == NO_NATIVE_CONTEXT_ID && #[trigger] reach@[c] != NO_NATIVE_CONTEXT_ID ==> exists|u: int, e: int|
                    0 <= u < n && #[trigger] carries_owner(*g, u, e) && g.edge_target(e) == c && outgoing_owner(fixed@, reach@, u)
                        != NO_NATIVE_CONTEXT_ID && (fixed@[u] != NO_NATIVE_CONTEXT_ID || rank[u] < rank[c]),
            reach@.len() == n,
            head <= queue@.len(),
            forall|i: int| 0 <= i < queue@.len() ==> #[trigger] queue@[i] < n,
            forall|u: int| 0 <= u < n ==> owner_ok(#[trigger] fixed@[u], nctx as int) && fixed@[u] != SHARED_NATIVE_CONTEXT_ID,
            forall|u: int| 0 <= u < n ==> owner_ok(#[trigger] reach@[u], nctx as int),
            forall|w: int| 0 <= w < n ==> spread_from(*g, fixed@, reach@, w) || #[trigger] queued_at(queue@, head as int, w),
        decreases total_potential(reach@), queue@.len() - head,
    {
        let u = queue[head];
        head += 1;
        proof {
            assert forall|w: int| 0 <= w < n && w != u implies spread_from(*g, fixed@, reach@, w) || #[trigger] queued_at(queue@, head as int, w) by {
                if !spread_from(*g, fixed@, reach@, w) {
                    assert(queued_at(queue@, head - 1, w));
                    let j = choose|j: int| head - 1 <= j < queue@.len() && queue@[j] == w;
                    assert(j != head - 1);
                }
            }
        }
        let current = if fixed[u] != NO_NATIVE_CONTEXT_ID { fixed[u] } else { reach[u] };
        if current != NO_NATIVE_CONTEXT_ID {
            let (first, last) = g.node_edge_range(u);
            let ghost pot_before = total_potential(reach@);
            let ghost len_before = queue@.len();
            let mut e = first;
            while e < last
                invariant
                    g.wf(),
                    n == g.node_count(),
                    u < n,
                    first == g.edge_begin(u as int),
                    last == g.edge_end(u as int),
                    first <= e <= last,
                    last <= g.edge_count(),
                    fixed@.len() == n,
                    reach@.len() == n,
                    head <= len_before,
                    len_before <= queue@.len(),
                    owner_ok(current, nctx as int),
                    current == outgoing_owner(fixed@, reach@, u as int),
                    forall|i: int| 0 <= i < queue@.len() ==> #[trigger] queue@[i] < n,
                    forall|u2: int| 0 <= u2 < n ==> owner_ok(#[trigger] reach@[u2], nctx as int),
                    total_potential(reach@) <= pot_before,
                    queue@.len() > len_before ==> total_potential(reach@) < pot_before,
                    forall|w: int| 0 <= w < n && w != u ==> spread_from(*g, fixed@, reach@, w) || #[trigger] queued_at(queue@, head as int, w),
                    forall|e2: int| first <= e2 < e && #[trigger] carries_owner(*g, u as int, e2) ==> passed_on(*g, fixed@, reach@, u as int, e2),
                    rank.len() == n,
                    current != NO_NATIVE_CONTEXT_ID,
                    forall|w: int| 0 <= w < n && fixed@[w] == NO_NATIVE_CONTEXT_ID && #[trigger] reach@[w] != NO_NATIVE_CONTEXT_ID ==> rank[w] < clock,
                    forall|c: int|
                        0 <= c < n && fixed@[c] == NO_NATIVE_CONTEXT_ID && #[trigger] reach@[c] != NO_NATIVE_CONTEXT_ID ==> exists|u2: int, e3: int|
                            0 <= u2 < n && #[trigger] carries_owner(*g, u2, e3) && g.edge_target(e3) == c && outgoing_owner(fixed@, reach@, u2)
                                != NO_NATIVE_CONTEXT_ID && (fixed@[u2] != NO_NATIVE_CONTEXT_ID || rank[u2] < rank[c]),
                decreases last - e,
            {
                let ghost r0 = reach@;
                let ghost q0 = queue@;
                if g.edge_type_raw(e) != g.types.edge_shortcut {
                    let c = g.edge_to_node(e);
                    if c != u && fixed[c] == NO_NATIVE_CONTEXT_ID {
                        let merged = merge_native_context_owner(reach[c], current);
                        if merged != reach[c] {
                            proof {
                                lemma_potential_update(reach@, c as int, merged);
                            }
                            let ghost r_prev = reach@;
                            let ghost rank_prev = rank;
                            reach.set(c, merged);
                            queue.push(c);
                            proof {
                                lemma_merge_facts(r_prev[c as int], current, current);
                                if r_prev[c as int] == NO_NATIVE_CONTEXT_ID {
                                    rank = rank.update(c as int, clock);
                                    clock = clock + 1;
                                }
                                assert(carries_owner(*g, u as int, e as int));
                                assert forall|w: int| 0 <= w < n && fixed@[w] == NO_NATIVE_CONTEXT_ID && #[trigger] reach@[w] != NO_NATIVE_CONTEXT_ID implies rank[w] < clock by {
                                    if w != c {
                                        assert(r_prev[w] == reach@[w]);
                                    }
                                }
                                assert forall|c2: int|
                                    0 <= c2 < n && fixed@[c2] == NO_NATIVE_CONTEXT_ID && #[trigger] reach@[c2] != NO_NATIVE_CONTEXT_ID implies exists|u2: int, e3: int|
                                        0 <= u2 < n && #[trigger] carries_owner(*g, u2, e3) && g.edge_target(e3) == c2 && outgoing_owner(fixed@, reach@, u2)
                                            != NO_NATIVE_CONTEXT_ID && (fixed@[u2] != NO_NATIVE_CONTEXT_ID || rank[u2] < rank[c2]) by {
                                    if c2 == c && r_prev[c as int] == NO_NATIVE_CONTEXT_ID {
                                        assert(outgoing_owner(fixed@, reach@, u as int) == current);
                                        if fixed@[u as int] == NO_NATIVE_CONTEXT_ID {
                                            assert(r_prev[u as int] != NO_NATIVE_CONTEXT_ID);
                                            assert(rank_prev[u as int] < clock - 1);
                                            assert(rank[u as int] == rank_prev[u as int]);
                                        }
                                    } else {
                                        assert(r_prev[c2] != NO_NATIVE_CONTEXT_ID) by {
                                            if c2 == c {
                                            } else {
                                                assert(r_prev[c2] == reach@[c2]);
                                            }
                                        }
                                        let (u2, e3) = choose|u2: int, e3: int|
                                            0 <= u2 < n && #[trigger] carries_owner(*g, u2, e3) && g.edge_target(e3) == c2 && outgoing_owner(fixed@, r_prev, u2)
                                                != NO_NATIVE_CONTEXT_ID && (fixed@[u2] != NO_NATIVE_CONTEXT_ID || rank_prev[u2] < rank_prev[c2]);
                                        lemma_merge_facts(r_prev[u2], current, current);
                                        assert(outgoing_owner(fixed@, reach@, u2) != NO_NATIVE_CONTEXT_ID);
                                        if fixed@[u2] == NO_NATIVE_CONTEXT_ID {
                                            assert(r_prev[u2] != NO_NATIVE_CONTEXT_ID);
                                            assert(rank[u2] == rank_prev[u2]);
                                            assert(rank[c2] == rank_prev[c2]);
                                        }
                                        assert(carries_owner(*g, u2, e3) && g.edge_target(e3) == c2);
                                    }
                                }
                                assert(queued_at(queue@, head as int, c as int)) by {
                                    assert(queue@[queue@.len() - 1] == c);
                                }
                                assert forall|w: int| 0 <= w < n && w != u implies spread_from(*g, fixed@, reach@, w) || #[trigger] queued_at(queue@, head as int, w) by {
                                    if w != c {
                                        if queued_at(q0, head as int, w) {
                                            let j = choose|j: int| head <= j < q0.len() && q0[j] == w;
                                            assert(queue@[j] == w);
                                        } else {
                                            lemma_spread_after_raise(*g, fixed@, r0, c as int, current, w);
                                        }
                                    }
                                }
                                assert forall|e2: int| first <= e2 < e + 1 && #[trigger] carries_owner(*g, u as int, e2) implies passed_on(*g, fixed@, reach@, u as int, e2) by {
                                    assert(g.edge_target(e2) < n);
                                    if e2 < e {
                                        assert(passed_on(*g, fixed@, r0, u as int, e2));
                                    }
                                    lemma_merge_facts(r0[c as int], current, current);
                                }
                            }
                        }
                    }
                }
                proof {
                    assert forall|e2: int| first <= e2 < e + 1 && #[trigger] carries_owner(*g, u as int, e2) implies passed_on(*g, fixed@, reach@, u as int, e2) by {
                    }
                }
                e += 1;
            }
            proof {
                assert forall|e2: int| #[trigger] carries_owner(*g, u as int, e2) implies passed_on(*g, fixed@, reach@, u as int, e2) by {
                }
            }
        } else {
            proof {
                assert forall|e2: int| #[trigger] carries_owner(*g, u as int, e2) implies passed_on(*g, fixed@, reach@, u as int, e2) by {
                    assert(g.edge_target(e2) < n);
                    lemma_merge_facts(reach@[g.edge_target(e2)], 0, 0);
                }
            }
        }
        proof {
            assert forall|w: int| 0 <= w < n implies spread_from(*g, fixed@, reach@, w) || #[trigger] queued_at(queue@, head as int, w) by {
            }
        }
    }
    let ghost final_reach = reach@;
    let ghost final_rank = rank;
    proof {
        assert forall|w: int| 0 <= w < n implies spread_from(*g, fixed@, reach@, w) by {
            if !spread_from(*g, fixed@, reach@, w) {
                assert(queued_at(queue@, head as int, w));
            }
        }
    }
    let mut buckets: Vec<NativeContextBucket> = Vec::with_capacity(n);
    let mut v: usize = 0;
    while v < n
        invariant
            n == g.node_count(),
            v <= n,
            fixed@.len() == n,
            iv.len() == n,
            forall|u: int| 0 <= u < n && iv[u] != NO_NATIVE_CONTEXT_ID ==> #[trigger] fixed@[u] == iv[u],
            forall|u: int| 0 <= u < n ==> owner_ok(#[trigger] iv[u], nctx as int) && iv[u] != SHARED_NATIVE_CONTEXT_ID,
            forall|u: int| 0 <= u < v && iv[u] != NO_NATIVE_CONTEXT_ID ==> #[trigger] buckets@[u] == NativeContextBucket::Context(NativeContextId(iv[u])),
            reach@.len() == n,
            forall|u: int| 0 <= u < n ==> owner_ok(#[trigger] fixed@[u], nctx as int) && fixed@[u] != SHARED_NATIVE_CONTEXT_ID,
            forall|u: int| 0 <= u < n ==> owner_ok(#[trigger] reach@[u], nctx as int),
            buckets@.len() == v,
            forall|u: int| 0 <= u < v ==> match #[trigger] buckets@[u] {
                NativeContextBucket::Context(id) => id.0 < nctx,
                _ => true,
            },
            forall|u: int| 0 <= u < v ==> bucket_owner(#[trigger] buckets@[u]) == outgoing_owner(fixed@, reach@, u),
        decreases n - v,
    {
        let owner = if fixed[v] != NO_NATIVE_CONTEXT_ID && fixed[v] != SHARED_NATIVE_CONTEXT_ID { fixed[v] } else { reach[v] };
        let b = if owner == SHARED_NATIVE_CONTEXT_ID {
            NativeContextBucket::Shared
        } else if owner == NO_NATIVE_CONTEXT_ID {
            NativeContextBucket::Unattributed
        } else {
            NativeContextBucket::Context(NativeContextId(owner))
        };
        buckets.push(b);
        v += 1;
    }
    proof {
        assert forall|i: int| 0 <= i < nctx implies buckets@[(#[trigger] contexts@[i]).ordinal.0 as int] == NativeContextBucket::Context(NativeContextId(i as u32)) by {
            let o = contexts@[i].ordinal.0 as int;
            assert(iv[o] == i);
        }
        let o = Seq::new(g.node_count(), |v: int| bucket_owner(buckets@[v]));
        assert forall|v: int| 0 <= v < n && fx[v] != NO_NATIVE_CONTEXT_ID implies #[trigger] bucket_owner(buckets@[v]) == fx[v] by {
            assert(bucket_owner(buckets@[v]) == outgoing_owner(fixed@, reach@, v));
        }
        assert(owners_supported(*g, fx, o, final_rank)) by {
            assert forall|c: int|
                0 <= c < g.node_count() && fx[c] == NO_NATIVE_CONTEXT_ID && #[trigger] o[c] != NO_NATIVE_CONTEXT_ID implies exists|u: int, e: int|
                    0 <= u < g.node_count() && #[trigger] carries_owner(*g, u, e) && g.edge_target(e) == c && o[u]
                        != NO_NATIVE_CONTEXT_ID && (fx[u] != NO_NATIVE_CONTEXT_ID || final_rank[u] < final_rank[c]) by {
                assert(bucket_owner(buckets@[c]) == outgoing_owner(fixed@, reach@, c));
                assert(reach@[c] != NO_NATIVE_CONTEXT_ID);
                let (u, e) = choose|u: int, e: int|
                    0 <= u < n && #[trigger] carries_owner(*g, u, e) && g.edge_target(e) == c && outgoing_owner(fixed@, reach@, u)
                        != NO_NATIVE_CONTEXT_ID && (fixed@[u] != NO_NATIVE_CONTEXT_ID || final_rank[u] < final_rank[c]);
                assert(bucket_owner(buckets@[u]) == outgoing_owner(fixed@, reach@, u));
                assert(o[u] == bucket_owner(buckets@[u]));
                assert(carries_owner(*g, u, e) && g.edge_target(e) == c);
            }
        }
        assert forall|u: int, e: int|
            0 <= u < g.node_count() && #[trigger] carries_owner(*g, u, e) && fx[g.edge_target(e)] == NO_NATIVE_CONTEXT_ID
                implies merge_owner(o[g.edge_target(e)], o[u]) == o[g.edge_target(e)] by {
            assert(spread_from(*g, fixed@, reach@, u));
            assert(passed_on(*g, fixed@, reach@, u, e));
            assert(g.edge_target(e) < n);
            assert(o[u] == outgoing_owner(fixed@, reach@, u));
            assert(o[g.edge_target(e)] == outgoing_owner(fixed@, reach@, g.edge_target(e)));
        }
    }
    buckets
}

/// Node `w` is among queue entries from `from` on.
pub open spec fn queued_at(q: Seq<usize>, from: int, w: int) -> bool {
    exists|j: int| from <= j < q.len() && q[j] == w
}

/// Self size of node `v` when its bucket is `b`.
pub open spec fn size_in_bucket(g: Graph, buckets: Seq<NativeContextBucket>, v: int, b: NativeContextBucket) -> int {
    if buckets[v] == b {
        g.self_size(v) as int
    } else {
        0
    }
}

/// The bytes attributed to each native context, the shared bytes and the
/// unattributed bytes: sums of self sizes by bucket, reading the buckets of
/// the graph's nodes from the start of the list.
pub fn compute_native_context_attributable_sizes(g: &Graph, buckets: &Vec<NativeContextBucket>, nctx: usize) -> (r: (Vec<u64>, u64, u64))
    requires
        g.wf(),
        nctx < SHARED_NATIVE_CONTEXT_ID,
        buckets@.len() >= g.node_count(),
        forall|v: int| 0 <= v < g.node_count() ==> match #[trigger] buckets@[v] {
            NativeContextBucket::Context(id) => id.0 < nctx,
            _ => true,
        },
    ensures
        r.0@.len() == nctx,
        forall|i: int| 0 <= i < nctx ==> #[trigger] r.0@[i] == node_sum(
            g.node_count() as int,
            |v: int| size_in_bucket(*g, buckets@, v, NativeContextBucket::Context(NativeContextId(i as u32))),
        ),
        r.1 == node_sum(g.node_count() as int, |v: int| size_in_bucket(*g, buckets@, v, NativeContextBucket::Shared)),
        r.2 == node_sum(g.node_count() as int, |v: int| size_in_bucket(*g, buckets@, v, NativeContextBucket::Unattributed)),
{
    let n = g.nodes.len();
    let ghost gg = *g;
    let ghost bs = buckets@;
    let mut sizes: Vec<u64> = vec![0u64; nctx];
    let mut shared: u64 = 0;
    let mut unattributed: u64 = 0;
    let mut v: usize = 0;
    while v < n
        invariant
            g.wf(),
            gg == *g,
            bs == buckets@,
            nctx < SHARED_NATIVE_CONTEXT_ID,
            n == g.node_count(),
            v <= n,
            buckets@.len() >= n,
            forall|u: int| 0 <= u < n ==> match #[trigger] buckets@[u] {
                NativeContextBucket::Context(id) => id.0 < nctx,
                _ => true,
            },
            sizes@.len() == nctx,
            forall|i: int| 0 <= i < nctx ==> #[trigger] sizes@[i] == node_sum(
                v as int,
                |u: int| size_in_bucket(gg, bs, u, NativeContextBucket::Context(NativeContextId(i as u32))),
            ),
            forall|i: int| 0 <= i < nctx ==> #[trigger] sizes@[i] <= v * 0xffff_ffff,
            shared == node_sum(v as int, |u: int| size_in_bucket(gg, bs, u, NativeContextBucket::Shared)),
            unattributed == node_sum(v as int, |u: int| size_in_bucket(gg, bs, u, NativeContextBucket::Unattributed)),
            shared <= v * 0xffff_ffff,
            unattributed <= v * 0xffff_ffff,
        decreases n - v,
    {
        let size = g.nodes[v].self_size as u64;
        let ghost old_sizes = sizes@;
        match buckets[v] {
            NativeContextBucket::Context(id) => {
                let k = id.0 as usize;
                let cur = sizes[k];
                sizes.set(k, cur + size);
            },
            NativeContextBucket::Shared => {
                shared = shared + size;
            },
            NativeContextBucket::Unattributed => {
                unattributed = unattributed + size;
            },
        }
        proof {
            assert forall|i: int| 0 <= i < nctx implies #[trigger] sizes@[i] == node_sum(
                v + 1,
                |u: int| size_in_bucket(gg, bs, u, NativeContextBucket::Context(NativeContextId(i as u32))),
            ) by {
                assert(node_sum(v + 1, |u: int| size_in_bucket(gg, bs, u, NativeContextBucket::Context(NativeContextId(i as u32))))
                    == node_sum(v as int, |u: int| size_in_bucket(gg, bs, u, NativeContextBucket::Context(NativeContextId(i as u32))))
                        + size_in_bucket(gg, bs, v as int, NativeContextBucket::Context(NativeContextId(i as u32))));
            }
            assert forall|i: int| 0 <= i < nctx implies #[trigger] sizes@[i] <= (v + 1) * 0xffff_ffff by {
                assert(old_sizes[i] <= v * 0xffff_ffff);
            }
        }
        v += 1;
    }
    (sizes, shared, unattributed)
}

} // verus!
