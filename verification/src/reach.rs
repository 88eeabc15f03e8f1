use vstd::prelude::*;
use vstd::string::StringSliceAdditionalSpecFns;
use crate::graph::Graph;
use crate::bytes::{starts_with, seq_starts_with, bytes_eq};
use crate::ephemeron::{ephemeron_match, is_ephemeron_name, leading_digits, leading_digit_count, is_digit, part_of_key};
use crate::fxcoll::{ByteSet, byte_set, byte_set_insert, byte_set_remove};

verus! {

/// Node `v` is a native context: its name starts with `system / NativeContext`.
pub open spec fn is_native_context_spec(g: Graph, v: int) -> bool {
    seq_starts_with(g.node_name(v), "system / NativeContext".spec_bytes())
}

pub fn is_native_context(g: &Graph, v: usize) -> (r: bool)
    requires
        g.wf(),
        v < g.node_count(),
    ensures
        r == is_native_context_spec(*g, v as int),
{
    starts_with(g.node_name_bytes(v), "system / NativeContext".as_bytes())
}

/// Edge `e` leaving `src` may carry reachability: it is not the
/// `sloppy_function_map` edge of a native context, and not one of the
/// descriptor-array entries of a `(map descriptors)` array that only
/// describe the map (element or hidden entries at index `i >= 2` with
/// `i % 3 == 1`).
pub open spec fn structural_edge(g: Graph, src: int, e: int) -> bool {
    let sloppy = is_native_context_spec(g, src) && g.edge_is_named(e) && g.edge_name(e)
        == "sloppy_function_map".spec_bytes();
    let idx = g.edges@[e].name_or_index;
    let descriptor = g.node_type(src) == g.types.node_array && g.node_name(src)
        == "(map descriptors)".spec_bytes() && !g.edge_is_named(e) && !(idx < 2 || idx % 3 != 1);
    !sloppy && !descriptor
}

pub fn is_structural_edge(g: &Graph, src: usize, e: usize) -> (r: bool)
    requires
        g.wf(),
        src < g.node_count(),
        e < g.edge_count(),
    ensures
        r == structural_edge(*g, src as int, e as int),
{
    if is_native_context(g, src) {
        if g.edge_is_named_exec(e) {
            if bytes_eq(g.edge_name_bytes(e), "sloppy_function_map".as_bytes()) {
                return false;
            }
        }
    }
    if g.node_type_raw(src) == g.types.node_array {
        if bytes_eq(g.node_name_bytes(src), "(map descriptors)".as_bytes()) {
            if !g.edge_is_named_exec(e) {
                let index = g.edge_name_or_index(e);
                if !(index < 2 || index % 3 != 1) {
                    return false;
                }
            }
        }
    }
    true
}

/// A name that may be a WeakMap ephemeron edge: digits, then
/// `" / part of key ("`.
pub open spec fn maybe_ephemeron_name(s: Seq<u8>) -> bool {
    let d = leading_digits(s) as int;
    d > 0 && seq_starts_with(s.subrange(d, s.len() as int), part_of_key())
}

pub fn maybe_weak_map_ephemeron_edge_name(name: &[u8]) -> (r: bool)
    ensures
        r == maybe_ephemeron_name(name@),
{
    let d = leading_digit_count(name);
    if d == 0 {
        return false;
    }
    let rest = vstd::slice::slice_subrange(name, d, name.len());
    let lit = " / part of key (";
    proof {
        reveal_strlit(" / part of key (");
        vstd::string::is_ascii_spec_bytes(lit);
        assert(lit.spec_bytes() =~= part_of_key());
    }
    starts_with(rest, lit.as_bytes())
}

/// Edge `e` may belong to a WeakMap pair: an internal edge whose name
/// looks like an ephemeron name.
pub open spec fn maybe_paired_edge(g: Graph, e: int) -> bool {
    let idx = g.edges@[e].name_or_index;
    g.edge_type(e) == g.types.edge_internal && idx < g.strings@.len() && maybe_ephemeron_name(g.edge_name(e))
}

/// An internal edge whose name is a WeakMap ephemeron name: it belongs to
/// a key/value pair.
pub open spec fn paired_edge(g: Graph, e: int) -> bool {
    maybe_paired_edge(g, e) && is_ephemeron_name(g.edge_name(e))
}

/// The part of a paired edge's name that both edges of its pair share:
/// everything after the leading id digits.
pub open spec fn pair_part(g: Graph, e: int) -> Seq<u8> {
    let name = g.edge_name(e);
    name.subrange(leading_digits(name) as int, name.len() as int)
}

/// Edges between WeakMap entries and their values come in pairs with the
/// same duplicated name part; the first edge of a pair seen during one
/// traversal is held back and the second is followed. Structural edges
/// that cannot belong to a pair are always followed.
pub fn should_traverse_edge(g: &Graph, src: usize, e: usize, pending: &mut ByteSet) -> (r: bool)
    requires
        g.wf(),
        src < g.node_count(),
        e < g.edge_count(),
    ensures
        r ==> structural_edge(*g, src as int, e as int),
        structural_edge(*g, src as int, e as int) && !maybe_paired_edge(*g, e as int) ==> r,
        !structural_edge(*g, src as int, e as int) ==> byte_set(*final(pending)) == byte_set(
            *old(pending),
        ),
        r == (structural_edge(*g, src as int, e as int) && (!paired_edge(*g, e as int) || byte_set(*old(pending)).contains(
            pair_part(*g, e as int),
        ))),
        byte_set(*final(pending)) == if structural_edge(*g, src as int, e as int) && paired_edge(*g, e as int) {
            if byte_set(*old(pending)).contains(pair_part(*g, e as int)) {
                byte_set(*old(pending)).remove(pair_part(*g, e as int))
            } else {
                byte_set(*old(pending)).insert(pair_part(*g, e as int))
            }
        } else {
            byte_set(*old(pending))
        },
{
    if !is_structural_edge(g, src, e) {
        return false;
    }
    if g.edge_type_raw(e) == g.types.edge_internal {
        let name_index = g.edge_name_or_index(e) as usize;
        if name_index < g.strings.len() {
            let name = g.strings[name_index].as_slice();
            if maybe_weak_map_ephemeron_edge_name(name) {
                if let Some((d, _t0, _t1)) = ephemeron_match(name) {
                    let dup = vstd::slice::slice_subrange(name, d, name.len());
                    if !byte_set_remove(pending, dup) {
                        byte_set_insert(pending, vstd::slice::slice_to_vec(dup));
                        return false;
                    }
                }
            }
        }
    }
    true
}

/// Decimal value of a digit string.
pub open spec fn decimal_value(s: Seq<u8>) -> nat
    decreases s.len(),
{
    if s.len() == 0 {
        0
    } else {
        decimal_value(s.drop_last()) * 10 + (s.last() - 48) as nat
    }
}

/// `str::parse::<u32>` on a run of ASCII digits: the value, or `None` when
/// it does not fit.
pub fn parse_decimal_u32(s: &[u8]) -> (r: Option<u32>)
    requires
        s@.len() > 0,
        forall|i: int| 0 <= i < s@.len() ==> is_digit(s@[i]),
    ensures
        r matches Some(v) ==> v == decimal_value(s@),
        r is None ==> decimal_value(s@) > u32::MAX,
{
    let mut v: u64 = 0;
    let mut i: usize = 0;
    while i < s.len()
        invariant
            i <= s@.len(),
            forall|j: int| 0 <= j < s@.len() ==> is_digit(s@[j]),
            v == decimal_value(s@.subrange(0, i as int)),
            v <= u32::MAX,
        decreases s@.len() - i,
    {
        let d = (s[i] - 48u8) as u64;
        assert(s@.subrange(0, i + 1).drop_last() =~= s@.subrange(0, i as int));
        let nv = v * 10 + d;
        if nv > 0xffff_ffffu64 {
            proof {
                lemma_decimal_prefix_bound(s@, i as int + 1);
            }
            return None;
        }
        v = nv;
        i += 1;
    }
    assert(s@.subrange(0, s@.len() as int) =~= s@);
    Some(v as u32)
}

proof fn lemma_decimal_prefix_bound(s: Seq<u8>, k: int)
    requires
        0 <= k <= s.len(),
        forall|j: int| 0 <= j < s.len() ==> is_digit(s[j]),
    ensures
        decimal_value(s) >= decimal_value(s.subrange(0, k)),
    decreases s.len() - k,
{
    if k < s.len() {
        lemma_decimal_prefix_bound(s, k + 1);
        assert(s.subrange(0, k + 1).drop_last() =~= s.subrange(0, k));
    } else {
        assert(s.subrange(0, k) =~= s);
    }
}

} // verus!
