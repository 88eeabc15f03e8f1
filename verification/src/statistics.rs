use vstd::prelude::*;
use vstd::string::StringSliceAdditionalSpecFns;
use crate::graph::Graph;
use crate::types::{Distance, Statistics, DISTANCE_UNREACHABLE_BASE};
use crate::retainers::{RetainerIndex, lemma_retainer_range};
use crate::edge_search::{first_named_edge, is_first_match, no_match, lemma_first_match_unique};
use crate::bytes::{bytes_eq, starts_with};
use crate::types::{RetainedByContext, ContextRetention};
use crate::globals::is_context_spec;
use crate::reach::{should_traverse_edge, structural_edge, maybe_paired_edge};
use crate::fxcoll::byte_set_new;
use crate::reach_size::{count_marked, lemma_count_marked_set, lemma_count_marked_zero, lemma_count_marked_le, lemma_count_marked_bound, includes, marks_starts};

verus! {

/// Sum of `f(v)` over the first `k` nodes.
pub open spec fn node_sum(k: int, f: spec_fn(int) -> int) -> int
    decreases k,
{
    if k <= 0 {
        0
    } else {
        node_sum(k - 1, f) + f(k - 1)
    }
}

/// Sums of two functions that agree on the first `k` nodes are equal.
pub proof fn lemma_node_sum_agree(k: int, f: spec_fn(int) -> int, h: spec_fn(int) -> int)
    requires
        forall|v: int| 0 <= v < k ==> #[trigger] f(v) == h(v),
    ensures
        node_sum(k, f) == node_sum(k, h),
    decreases k,
{
    if k > 0 {
        lemma_node_sum_agree(k - 1, f, h);
    }
}

/// The statistics category of a node: hidden nodes are system, then native
/// nodes, code, and the three string types; anything else is "other".
pub open spec fn is_system(g: Graph, v: int) -> bool {
    g.node_type(v) == g.types.node_hidden
}

pub open spec fn is_native(g: Graph, v: int) -> bool {
    !is_system(g, v) && g.node_type(v) == g.types.node_native
}

pub open spec fn is_code(g: Graph, v: int) -> bool {
    !is_system(g, v) && !is_native(g, v) && g.node_type(v) == g.types.node_code
}

pub open spec fn is_string(g: Graph, v: int) -> bool {
    let t = g.node_type(v);
    !is_system(g, v) && !is_native(g, v) && !is_code(g, v) && (t == g.types.node_cons_string || t
        == g.types.node_sliced_string || t == g.types.node_string)
}

pub open spec fn is_other(g: Graph, v: int) -> bool {
    !is_system(g, v) && !is_native(g, v) && !is_code(g, v) && !is_string(g, v)
}

/// The size of a JS array node: its own size, plus that of the node its
/// internal "elements" edge (the first one) leads to when nothing else
/// retains that node.
pub open spec fn array_size(g: Graph, ri: RetainerIndex, v: int) -> int {
    let elements = "elements".spec_bytes();
    if exists|e: int| is_first_match(g, v, e, elements, true) {
        let e = choose|e: int| is_first_match(g, v, e, elements, true);
        let t = g.edge_target(e);
        g.self_size(v) + if ri.range_end(t) - ri.range_begin(t) == 1 {
            g.self_size(t) as int
        } else {
            0
        }
    } else {
        g.self_size(v) as int
    }
}

/// Size of a JS array: the array and, when it alone retains it, the
/// backing store behind its internal "elements" edge.
pub fn calculate_array_size(g: &Graph, ri: &RetainerIndex, v: usize) -> (r: u64)
    requires
        g.wf(),
        ri.wf_for(*g),
        v < g.node_count(),
    ensures
        r == array_size(*g, *ri, v as int),
{
    let size = g.nodes[v].self_size as u64;
    match first_named_edge(g, v, "elements".as_bytes(), true) {
        Some(e) => {
            let t = g.edge_to_node(e);
            proof {
                lemma_retainer_range(*g, *ri, t as int);
                let e2 = choose|e2: int| is_first_match(*g, v as int, e2, "elements".spec_bytes(), true);
                lemma_first_match_unique(*g, v as int, e as int, e2, "elements".spec_bytes(), true);
            }
            let count = ri.first_retainer_index[t + 1] - ri.first_retainer_index[t];
            if count == 1 {
                size + g.nodes[t].self_size as u64
            } else {
                size
            }
        },
        None => {
            proof {
                if exists|e2: int| is_first_match(*g, v as int, e2, "elements".spec_bytes(), true) {
                    let e2 = choose|e2: int| is_first_match(*g, v as int, e2, "elements".spec_bytes(), true);
                    assert(g.is_out_edge(v as int, e2));
                }
            }
            size
        },
    }
}

/// Self size of node `v` if it is in `cat`, else 0.
pub open spec fn size_if(g: Graph, v: int, cat: bool) -> int {
    if cat {
        g.self_size(v) as int
    } else {
        0
    }
}

/// The statistics that `calculate_statistics` reports for the graph: the
/// category sums of self sizes, the saturating native total (extra native
/// bytes included) and the array buffer bytes among native nodes, the
/// unreachable count and size, the saturating total and what of it is not
/// native, and the context figures as given.
pub open spec fn statistics_ok(
    g: Graph,
    ri: RetainerIndex,
    distances: Seq<Distance>,
    gc_retained: u64,
    extra_native_bytes: u64,
    by_context: RetainedByContext,
    r: Statistics,
) -> bool {
    &&& r.system == node_sum(g.node_count() as int, |v: int| size_if(g, v, is_system(g, v)))
    &&& r.code == node_sum(g.node_count() as int, |v: int| size_if(g, v, is_code(g, v)))
    &&& r.strings == node_sum(g.node_count() as int, |v: int| size_if(g, v, is_string(g, v)))
    &&& r.js_arrays == node_sum(
        g.node_count() as int,
        |v: int| if is_other(g, v) && g.node_name(v) == "Array".spec_bytes() { array_size(g, ri, v) } else { 0 },
    )
    &&& r.native_total == saturated(extra_native_bytes + node_sum(g.node_count() as int, |v: int| size_if(g, v, is_native(g, v))))
    &&& r.typed_arrays == node_sum(
        g.node_count() as int,
        |v: int| size_if(g, v, is_native(g, v) && g.node_name(v) == "system / JSArrayBufferData".spec_bytes()),
    )
    &&& r.extra_native_bytes == extra_native_bytes
    &&& r.context_count == by_context.context_count
    &&& r.retained_by_context_size == by_context.retained_by_context_size
    &&& r.not_retained_by_context_size == by_context.not_retained_by_context_size
    &&& r.total == saturated(gc_retained + extra_native_bytes)
    &&& r.v8heap_total == if r.total >= r.native_total { r.total - r.native_total } else { 0 }
    &&& r.unreachable_count == node_sum(
        g.node_count() as int,
        |v: int| if distances[v].0 >= DISTANCE_UNREACHABLE_BASE && g.self_size(v) > 0 { 1int } else { 0int },
    )
    &&& r.unreachable_size == node_sum(
        g.node_count() as int,
        |v: int| if distances[v].0 >= DISTANCE_UNREACHABLE_BASE { g.self_size(v) as int } else { 0 },
    )
}

/// `x`, or `u64::MAX` where it is larger.
pub open spec fn saturated(x: int) -> int {
    if x <= u64::MAX { x } else { u64::MAX as int }
}

/// Heap totals: the self sizes of system (hidden), native, code, string
/// and JS array nodes ("Array" nodes of other types, with their element
/// store), native array buffers among the native nodes, the count and size
/// of unreachable nodes with a size, and the total: the GC roots' retained
/// size plus the extra native bytes, and the totals of what only context
/// objects keep alive. Sums saturate at `u64::MAX`.
pub fn calculate_statistics(
    g: &Graph,
    ri: &RetainerIndex,
    distances: &Vec<Distance>,
    gc_retained: u64,
    extra_native_bytes: u64,
    by_context: RetainedByContext,
) -> (r: Statistics)
    requires
        g.wf(),
        ri.wf_for(*g),
        distances@.len() == g.node_count(),
    ensures
        statistics_ok(*g, *ri, distances@, gc_retained, extra_native_bytes, by_context, r),
{
    let n = g.nodes.len();
    let ghost gg = *g;
    let ghost f_sys = |v: int| size_if(gg, v, is_system(gg, v));
    let ghost f_code = |v: int| size_if(gg, v, is_code(gg, v));
    let ghost f_str = |v: int| size_if(gg, v, is_string(gg, v));
    let ghost f_arr = |v: int| if is_other(gg, v) && gg.node_name(v) == "Array".spec_bytes() { array_size(gg, *ri, v) } else { 0 };
    let ghost f_ucount = |v: int| if distances@[v].0 >= DISTANCE_UNREACHABLE_BASE && gg.self_size(v) > 0 { 1int } else { 0int };
    let ghost f_usize = |v: int| if distances@[v].0 >= DISTANCE_UNREACHABLE_BASE { gg.self_size(v) as int } else { 0 };
    let ghost f_nat = |v: int| size_if(gg, v, is_native(gg, v));
    let ghost f_typed = |v: int| size_if(gg, v, is_native(gg, v) && gg.node_name(v) == "system / JSArrayBufferData".spec_bytes());
    let mut size_native: u64 = extra_native_bytes;
    let mut size_typed: u64 = 0;
    let mut size_code: u64 = 0;
    let mut size_strings: u64 = 0;
    let mut size_arrays: u64 = 0;
    let mut size_system: u64 = 0;
    let mut unreachable_count: u32 = 0;
    let mut unreachable_size: u64 = 0;
    proof {
        reveal_strlit("Array");
        reveal_strlit("system / JSArrayBufferData");
    }
    let mut v: usize = 0;
    while v < n
        invariant
            g.wf(),
            gg == *g,
            ri.wf_for(*g),
            n == g.node_count(),
            distances@.len() == n,
            v <= n,
            size_system == node_sum(v as int, f_sys),
            size_code == node_sum(v as int, f_code),
            size_strings == node_sum(v as int, f_str),
            size_arrays == node_sum(v as int, f_arr),
            unreachable_count == node_sum(v as int, f_ucount),
            unreachable_size == node_sum(v as int, f_usize),
            size_native == saturated(extra_native_bytes + node_sum(v as int, f_nat)),
            size_typed == node_sum(v as int, f_typed),
            node_sum(v as int, f_nat) >= 0,
            size_system <= v * 0xffff_ffff,
            size_code <= v * 0xffff_ffff,
            size_typed <= v * 0xffff_ffff,
            size_strings <= v * 0xffff_ffff,
            size_arrays <= v * 2 * 0xffff_ffff,
            unreachable_count <= v,
            unreachable_size <= v * 0xffff_ffff,
            f_sys == (|u: int| size_if(gg, u, is_system(gg, u))),
            f_code == (|u: int| size_if(gg, u, is_code(gg, u))),
            f_str == (|u: int| size_if(gg, u, is_string(gg, u))),
            f_arr == (|u: int| if is_other(gg, u) && gg.node_name(u) == "Array".spec_bytes() { array_size(gg, *ri, u) } else { 0 }),
            f_ucount == (|u: int| if distances@[u].0 >= DISTANCE_UNREACHABLE_BASE && gg.self_size(u) > 0 { 1int } else { 0int }),
            f_usize == (|u: int| if distances@[u].0 >= DISTANCE_UNREACHABLE_BASE { gg.self_size(u) as int } else { 0 }),
            f_nat == (|u: int| size_if(gg, u, is_native(gg, u))),
            f_typed == (|u: int| size_if(gg, u, is_native(gg, u) && gg.node_name(u) == "system / JSArrayBufferData".spec_bytes())),
        decreases n - v,
    {
        let node_size = g.nodes[v].self_size as u64;
        let t = g.node_type_raw(v);
        if distances[v].0 >= DISTANCE_UNREACHABLE_BASE && node_size > 0 {
            unreachable_count = unreachable_count + 1;
        }
        if distances[v].0 >= DISTANCE_UNREACHABLE_BASE {
            unreachable_size = unreachable_size + node_size;
        }
        if t == g.types.node_hidden {
            size_system = size_system + node_size;
        } else if t == g.types.node_native {
            size_native = size_native.saturating_add(node_size);
            if bytes_eq(g.node_name_bytes(v), "system / JSArrayBufferData".as_bytes()) {
                size_typed = size_typed + node_size;
            }
        } else if t == g.types.node_code {
            size_code = size_code + node_size;
        } else if t == g.types.node_cons_string || t == g.types.node_sliced_string || t == g.types.node_string {
            size_strings = size_strings + node_size;
        } else if bytes_eq(g.node_name_bytes(v), "Array".as_bytes()) {
            let a = calculate_array_size(g, ri, v);
            size_arrays = size_arrays + a;
        }
        proof {
            assert(size_arrays <= (v + 1) * 2 * 0xffff_ffff) by (nonlinear_arith)
                requires size_arrays <= v * 2 * 0xffff_ffff + 2 * 0xffff_ffff;
        }
        v += 1;
    }
    let total = gc_retained.saturating_add(extra_native_bytes);
    let v8 = if total >= size_native { total - size_native } else { 0 };
    Statistics {
        total,
        native_total: size_native,
        typed_arrays: size_typed,
        v8heap_total: v8,
        code: size_code,
        js_arrays: size_arrays,
        strings: size_strings,
        system: size_system,
        extra_native_bytes,
        unreachable_count,
        unreachable_size,
        context_count: by_context.context_count,
        retained_by_context_size: by_context.retained_by_context_size,
        not_retained_by_context_size: by_context.not_retained_by_context_size,
    }
}

/// Edge `e` of `u` may carry what the system roots keep alive without
/// entering a blocked node: it is not weak, the reachability filter does
/// not exclude it, and it leads to a node that is not blocked.
pub open spec fn open_edge(g: Graph, blocked: Seq<bool>, u: int, e: int) -> bool {
    g.edge_type(e) != g.types.edge_weak && structural_edge(g, u, e) && !blocked[g.edge_target(e)]
}

/// Every open edge of a node that `m` marks leads to a marked node.
pub open spec fn closed_under_open_edges(g: Graph, blocked: Seq<bool>, m: Seq<bool>) -> bool {
    forall|u: int, e: int|
        0 <= u < g.node_count() && m[u] && #[trigger] g.is_out_edge(u, e) && open_edge(g, blocked, u, e)
            ==> m[g.edge_target(e)]
}

/// `r` marks what the roots reach without entering blocked nodes: the
/// roots are marked, open edges that cannot belong to a WeakMap pair lead
/// from marked nodes to marked nodes, and `r` lies inside every marking of
/// the roots that is closed under all open edges. (Of a WeakMap pair only
/// the second edge met is followed, so which of them count depends on the
/// order of the walk.)
pub open spec fn reached_without_blocked(g: Graph, roots: Seq<usize>, blocked: Seq<bool>, r: Seq<bool>) -> bool {
    &&& r.len() == g.node_count()
    &&& marks_starts(r, roots)
    &&& forall|u: int, e: int|
        0 <= u < g.node_count() && r[u] && #[trigger] g.is_out_edge(u, e) && open_edge(g, blocked, u, e)
            && !maybe_paired_edge(g, e) ==> r[g.edge_target(e)]
    &&& forall|m: Seq<bool>|
        m.len() == g.node_count() && marks_starts(m, roots) && closed_under_open_edges(g, blocked, m)
            ==> #[trigger] includes(m, r)
}

/// The nodes that the system roots reach over edges that are not weak and
/// that the reachability filter lets through, without entering blocked
/// nodes.
pub fn reachable_without_blocked(g: &Graph, system_roots: &Vec<usize>, blocked: &Vec<bool>) -> (r: Vec<bool>)
    requires
        g.wf(),
        blocked@.len() == g.node_count(),
        forall|i: int| 0 <= i < system_roots@.len() ==> #[trigger] system_roots@[i] < g.node_count(),
    ensures
        reached_without_blocked(*g, system_roots@, blocked@, r@),
{
    let n = g.nodes.len();
    let mut visited: Vec<bool> = vec![false; n];
    let mut queue: Vec<usize> = Vec::new();
    let mut pending = byte_set_new();
    proof {
        lemma_count_marked_zero(visited@);
    }
    let mut k: usize = 0;
    while k < system_roots.len()
        invariant
            g.wf(),
            n == g.node_count(),
            blocked@.len() == n,
            visited@.len() == n,
            k <= system_roots@.len(),
            forall|i: int| 0 <= i < system_roots@.len() ==> #[trigger] system_roots@[i] < n,
            forall|i: int| 0 <= i < k ==> visited@[#[trigger] system_roots@[i] as int],
            forall|i: int| 0 <= i < queue@.len() ==> #[trigger] queue@[i] < n && visited@[queue@[i] as int],
            forall|v: int| 0 <= v < n && #[trigger] visited@[v] ==> exists|i: int| 0 <= i < queue@.len() && queue@[i] == v,
            forall|v: int| 0 <= v < n && #[trigger] visited@[v] ==> exists|i: int|
                0 <= i < system_roots@.len() && system_roots@[i] == v,
            queue@.len() == count_marked(visited@),
        decreases system_roots@.len() - k,
    {
        let r0 = system_roots[k];
        if !visited[r0] {
            proof {
                lemma_count_marked_set(visited@, r0 as int);
            }
            let ghost before = visited@;
            let ghost qbefore = queue@;
            visited.set(r0, true);
            queue.push(r0);
            proof {
                assert forall|v: int| 0 <= v < n && #[trigger] visited@[v] implies exists|i: int|
                    0 <= i < queue@.len() && queue@[i] == v by {
                    if v == r0 {
                        assert(queue@[queue@.len() - 1] == v);
                    } else {
                        assert(before[v]);
                        let i = choose|i: int| 0 <= i < qbefore.len() && qbefore[i] == v;
                        assert(queue@[i] == v);
                    }
                }
                assert forall|v: int| 0 <= v < n && #[trigger] visited@[v] implies exists|i: int|
                    0 <= i < system_roots@.len() && system_roots@[i] == v by {
                    if v == r0 {
                        assert(system_roots@[k as int] == v);
                    } else {
                        assert(before[v]);
                    }
                }
            }
        }
        proof {
            assert forall|i: int| 0 <= i < k + 1 implies visited@[#[trigger] system_roots@[i] as int] by {
                if i < k {
                    assert(visited@[system_roots@[i] as int]);
                }
            }
        }
        k += 1;
    }
    proof {
        assert forall|m: Seq<bool>|
            m.len() == g.node_count() && marks_starts(m, system_roots@) && closed_under_open_edges(*g, blocked@, m)
                implies #[trigger] includes(m, visited@) by {
            assert forall|v: int| 0 <= v < visited@.len() && #[trigger] visited@[v] implies m[v] by {
                let i = choose|i: int| 0 <= i < system_roots@.len() && system_roots@[i] == v;
                assert(m[system_roots@[i] as int]);
            }
        }
    }
    let mut head: usize = 0;
    while head < queue.len()
        invariant
            g.wf(),
            n == g.node_count(),
            blocked@.len() == n,
            visited@.len() == n,
            head <= queue@.len(),
            queue@.len() == count_marked(visited@),
            forall|i: int| 0 <= i < system_roots@.len() ==> #[trigger] system_roots@[i] < n,
            marks_starts(visited@, system_roots@),
            forall|i: int| 0 <= i < queue@.len() ==> #[trigger] queue@[i] < n && visited@[queue@[i] as int],
            forall|v: int| 0 <= v < n && #[trigger] visited@[v] ==> exists|i: int| 0 <= i < queue@.len() && queue@[i] == v,
            forall|i: int, f: int|
                0 <= i < head && #[trigger] g.is_out_edge(queue@[i] as int, f) && open_edge(*g, blocked@, queue@[i] as int, f)
                    && !maybe_paired_edge(*g, f) ==> visited@[g.edge_target(f)],
            forall|m: Seq<bool>|
                m.len() == g.node_count() && marks_starts(m, system_roots@) && closed_under_open_edges(*g, blocked@, m)
                    ==> #[trigger] includes(m, visited@),
        decreases n - head, n - queue@.len(),
    {
        proof {
            lemma_count_marked_le(visited@);
        }
        let u = queue[head];
        let (first, last) = g.node_edge_range(u);
        let mut e = first;
        while e < last
            invariant
                g.wf(),
                n == g.node_count(),
                head < queue@.len(),
                u == queue@[head as int],
                u < n,
                visited@[u as int],
                first == g.edge_begin(u as int),
                last == g.edge_end(u as int),
                last <= g.edge_count(),
                first <= e <= last,
                blocked@.len() == n,
                visited@.len() == n,
                queue@.len() == count_marked(visited@),
                forall|i: int| 0 <= i < system_roots@.len() ==> #[trigger] system_roots@[i] < n,
                marks_starts(visited@, system_roots@),
                forall|i: int| 0 <= i < queue@.len() ==> #[trigger] queue@[i] < n && visited@[queue@[i] as int],
                forall|v: int| 0 <= v < n && #[trigger] visited@[v] ==> exists|i: int| 0 <= i < queue@.len() && queue@[i] == v,
                forall|i: int, f: int|
                    0 <= i < head && #[trigger] g.is_out_edge(queue@[i] as int, f) && open_edge(*g, blocked@, queue@[i] as int, f)
                        && !maybe_paired_edge(*g, f) ==> visited@[g.edge_target(f)],
                forall|f: int|
                    first <= f < e && open_edge(*g, blocked@, u as int, f) && !maybe_paired_edge(*g, f)
                        ==> visited@[#[trigger] g.edge_target(f)],
                forall|m: Seq<bool>|
                    m.len() == g.node_count() && marks_starts(m, system_roots@) && closed_under_open_edges(*g, blocked@, m)
                        ==> #[trigger] includes(m, visited@),
            decreases last - e,
        {
            if g.edge_type_raw(e) != g.types.edge_weak {
                let c = g.edge_to_node(e);
                if !blocked[c] && !visited[c] && should_traverse_edge(g, u, e, &mut pending) {
                    proof {
                        lemma_count_marked_bound(visited@, c as int);
                        lemma_count_marked_set(visited@, c as int);
                    }
                    let ghost before = visited@;
                    let ghost qbefore = queue@;
                    visited.set(c, true);
                    queue.push(c);
                    proof {
                        assert forall|i: int| 0 <= i < system_roots@.len() implies visited@[#[trigger] system_roots@[i] as int] by {
                            assert(before[system_roots@[i] as int]);
                        }
                        assert forall|v: int| 0 <= v < n && #[trigger] visited@[v] implies exists|i: int|
                            0 <= i < queue@.len() && queue@[i] == v by {
                            if v == c {
                                assert(queue@[queue@.len() - 1] == v);
                            } else {
                                let i = choose|i: int| 0 <= i < qbefore.len() && qbefore[i] == v;
                                assert(queue@[i] == v);
                            }
                        }
                        assert forall|m: Seq<bool>|
                            m.len() == g.node_count() && marks_starts(m, system_roots@) && closed_under_open_edges(*g, blocked@, m)
                                implies #[trigger] includes(m, visited@) by {
                            assert(includes(m, before));
                            assert(g.is_out_edge(u as int, e as int));
                            assert(m[u as int]);
                        }
                    }
                }
            }
            e += 1;
        }
        proof {
            assert forall|i: int, f: int|
                0 <= i < head + 1 && #[trigger] g.is_out_edge(queue@[i] as int, f) && open_edge(*g, blocked@, queue@[i] as int, f)
                    && !maybe_paired_edge(*g, f) implies visited@[g.edge_target(f)] by {
                if i == head {
                    assert(first <= f < last);
                }
            }
        }
        head += 1;
    }
    proof {
        assert forall|w: int, f: int|
            0 <= w < g.node_count() && visited@[w] && #[trigger] g.is_out_edge(w, f) && open_edge(*g, blocked@, w, f)
                && !maybe_paired_edge(*g, f) implies visited@[g.edge_target(f)] by {
            let i = choose|i: int| 0 <= i < queue@.len() && queue@[i] == w;
            assert(g.is_out_edge(queue@[i] as int, f));
        }
    }
    visited
}

/// The context objects, marked by ordinal.
pub open spec fn context_marks(g: Graph) -> Seq<bool> {
    Seq::new(g.node_count(), |v: int| is_context_spec(g, v))
}

/// Where node `v` stands, given distances and the marks `w` of what the
/// system roots reach without entering context objects.
pub open spec fn retention_of(distances: Seq<Distance>, w: Seq<bool>, v: int) -> ContextRetention {
    if distances[v].0 >= DISTANCE_UNREACHABLE_BASE {
        ContextRetention::Unreachable
    } else if w[v] {
        ContextRetention::NotRetained
    } else {
        ContextRetention::Retained
    }
}

/// `retention` gives each node where it stands with respect to context
/// objects, for marks of what the system roots reach without entering one.
pub open spec fn retention_ok(g: Graph, system_roots: Seq<usize>, distances: Seq<Distance>, retention: Seq<ContextRetention>) -> bool {
    &&& retention.len() == g.node_count()
    &&& exists|w: Seq<bool>| {
        &&& #[trigger] reached_without_blocked(g, system_roots, context_marks(g), w)
        &&& forall|v: int| 0 <= v < g.node_count() ==> #[trigger] retention[v] == retention_of(distances, w, v)
    }
}

/// The number of context objects and the self sizes of the nodes that
/// `retention` counts as retained and as not retained by them.
pub open spec fn by_context_of(g: Graph, retention: Seq<ContextRetention>) -> RetainedByContext {
    RetainedByContext {
        context_count: node_sum(g.node_count() as int, |v: int| if is_context_spec(g, v) { 1int } else { 0int }) as u32,
        retained_by_context_size: node_sum(
            g.node_count() as int,
            |v: int| if retention[v] == ContextRetention::Retained { g.self_size(v) as int } else { 0 },
        ) as u64,
        not_retained_by_context_size: node_sum(
            g.node_count() as int,
            |v: int| if retention[v] == ContextRetention::NotRetained { g.self_size(v) as int } else { 0 },
        ) as u64,
    }
}

/// Whether each node is kept alive only through context objects: nodes the
/// GC roots do not reach are unreachable, nodes the system roots reach
/// without entering a context object are not retained by contexts, the
/// others are. Also returns the number of context objects and the self
/// sizes of the retained and the not retained nodes.
pub fn compute_retained_by_context(g: &Graph, system_roots: &Vec<usize>, distances: &Vec<Distance>) -> (r: (RetainedByContext, Vec<ContextRetention>))
    requires
        g.wf(),
        distances@.len() == g.node_count(),
        forall|i: int| 0 <= i < system_roots@.len() ==> #[trigger] system_roots@[i] < g.node_count(),
    ensures
        retention_ok(*g, system_roots@, distances@, r.1@),
        r.0 == by_context_of(*g, r.1@),
{
    let n = g.nodes.len();
    let ghost gg = *g;
    let ghost f_ctx = |v: int| if is_context_spec(gg, v) { 1int } else { 0int };
    let mut blocked: Vec<bool> = Vec::with_capacity(n);
    let mut count: u32 = 0;
    let mut v: usize = 0;
    while v < n
        invariant
            g.wf(),
            gg == *g,
            n == g.node_count(),
            v <= n,
            blocked@.len() == v,
            forall|u: int| 0 <= u < v ==> #[trigger] blocked@[u] == is_context_spec(gg, u),
            count <= v,
            count == node_sum(v as int, f_ctx),
            f_ctx == (|u: int| if is_context_spec(gg, u) { 1int } else { 0int }),
        decreases n - v,
    {
        let is_ctx = starts_with(g.node_name_bytes(v), "system / Context".as_bytes());
        if is_ctx {
            count = count + 1;
        }
        blocked.push(is_ctx);
        v += 1;
    }
    let reachable = reachable_without_blocked(g, system_roots, &blocked);
    let mut retention: Vec<ContextRetention> = Vec::with_capacity(n);
    let mut v: usize = 0;
    while v < n
        invariant
            n == g.node_count(),
            v <= n,
            reachable@.len() == n,
            distances@.len() == n,
            retention@.len() == v,
            forall|u: int| 0 <= u < v ==> #[trigger] retention@[u] == retention_of(distances@, reachable@, u),
        decreases n - v,
    {
        let r = if distances[v].0 >= DISTANCE_UNREACHABLE_BASE {
            ContextRetention::Unreachable
        } else if reachable[v] {
            ContextRetention::NotRetained
        } else {
            ContextRetention::Retained
        };
        retention.push(r);
        v += 1;
    }
    proof {
        assert(blocked@ =~= context_marks(*g));
        assert(reached_without_blocked(*g, system_roots@, context_marks(*g), reachable@));
    }
    let ghost ret = retention@;
    let ghost f_ret = |u: int| if ret[u] == ContextRetention::Retained { gg.self_size(u) as int } else { 0 };
    let ghost f_not = |u: int| if ret[u] == ContextRetention::NotRetained { gg.self_size(u) as int } else { 0 };
    let mut retained_size: u64 = 0;
    let mut not_retained_size: u64 = 0;
    let mut v: usize = 0;
    while v < n
        invariant
            g.wf(),
            gg == *g,
            n == g.node_count(),
            v <= n,
            retention@ == ret,
            ret.len() == n,
            retained_size == node_sum(v as int, f_ret),
            not_retained_size == node_sum(v as int, f_not),
            retained_size <= v * 0xffff_ffff,
            not_retained_size <= v * 0xffff_ffff,
            f_ret == (|u: int| if ret[u] == ContextRetention::Retained { gg.self_size(u) as int } else { 0 }),
            f_not == (|u: int| if ret[u] == ContextRetention::NotRetained { gg.self_size(u) as int } else { 0 }),
        decreases n - v,
    {
        let size = g.nodes[v].self_size as u64;
        match retention[v] {
            ContextRetention::Retained => {
                retained_size = retained_size + size;
            },
            ContextRetention::NotRetained => {
                not_retained_size = not_retained_size + size;
            },
            ContextRetention::Unreachable => {},
        }
        v += 1;
    }
    (RetainedByContext { context_count: count, retained_by_context_size: retained_size, not_retained_by_context_size: not_retained_size }, retention)
}

} // verus!
