use vstd::prelude::*;
use vstd::string::StringSliceAdditionalSpecFns;
use crate::graph::Graph;
use crate::bytes::{bytes_eq, starts_with, seq_starts_with, occurs_in, find_from, concat};
use crate::fxcoll::{ByteSet, byte_set, byte_set_new, byte_set_insert, byte_set_contains, byte_set_elements};
use crate::reach::{is_native_context, is_native_context_spec};
use crate::edge_search::{first_named_edge, is_first_match, no_match, lemma_first_match_unique};

verus! {

/// `s` ends with `suffix`.
pub open spec fn seq_ends_with(s: Seq<u8>, suffix: Seq<u8>) -> bool {
    suffix.len() <= s.len() && s.subrange(s.len() - suffix.len(), s.len() as int) == suffix
}

pub fn ends_with(s: &[u8], suffix: &[u8]) -> (r: bool)
    ensures
        r == seq_ends_with(s@, suffix@),
{
    if suffix.len() > s.len() {
        return false;
    }
    let off = s.len() - suffix.len();
    let sl = s.len();
    let mut i: usize = 0;
    while i < suffix.len()
        invariant
            sl == s@.len(),
            off == s@.len() - suffix@.len(),
            suffix@.len() <= s@.len(),
            i <= suffix@.len(),
            forall|j: int| 0 <= j < i ==> s@[off + j] == suffix@[j],
        decreases suffix@.len() - i,
    {
        if s[off + i] != suffix[i] {
            assert(s@.subrange(off as int, s@.len() as int)[i as int] != suffix@[i as int]);
            return false;
        }
        i += 1;
    }
    assert(s@.subrange(off as int, s@.len() as int) =~= suffix@);
    true
}

/// The separator between the segments of a display name.
pub open spec fn segment_sep() -> Seq<u8> {
    seq![32u8, 47u8, 32u8]
}

/// `j` is where the first separator of `name` starts.
pub open spec fn is_first_sep(name: Seq<u8>, j: int) -> bool {
    occurs_in(name, j, segment_sep()) && forall|k: int| 0 <= k < j ==> !occurs_in(name, k, segment_sep())
}

/// Where the first segment of a display name ends: at its first " / ", or
/// at its end.
pub open spec fn first_segment_len(name: Seq<u8>) -> int {
    if exists|j: int| is_first_sep(name, j) {
        choose|j: int| is_first_sep(name, j)
    } else {
        name.len() as int
    }
}

proof fn lemma_first_sep_unique(name: Seq<u8>, i: int, j: int)
    requires
        is_first_sep(name, i),
        is_first_sep(name, j),
    ensures
        i == j,
{
    if i < j {
        assert(!occurs_in(name, i, segment_sep()));
    } else if j < i {
        assert(!occurs_in(name, j, segment_sep()));
    }
}

/// The first segment of a display name: the part before its first " / ",
/// or the whole name.
pub fn first_segment_end(name: &[u8]) -> (r: usize)
    ensures
        r <= name@.len(),
        r == first_segment_len(name@),
{
    let sep: [u8; 3] = [32u8, 47u8, 32u8];
    assert(sep@ =~= segment_sep());
    match find_from(name, sep.as_slice(), 0) {
        Some(i) => {
            proof {
                assert(is_first_sep(name@, i as int));
                let j = choose|j: int| is_first_sep(name@, j);
                lemma_first_sep_unique(name@, i as int, j);
            }
            i
        },
        None => {
            proof {
                if exists|j: int| is_first_sep(name@, j) {
                    let j = choose|j: int| is_first_sep(name@, j);
                    assert(occurs_in(name@, j, segment_sep()));
                }
            }
            name.len()
        },
    }
}

/// The marker of a JS global object's constructor name.
pub open spec fn object_marker() -> Seq<u8> {
    " (global*)".spec_bytes()
}

/// The marker of a JS global proxy's constructor name.
pub open spec fn proxy_marker() -> Seq<u8> {
    " (global)".spec_bytes()
}

/// The first segment of a display name.
pub open spec fn name_head(name: Seq<u8>) -> Seq<u8> {
    name.subrange(0, first_segment_len(name))
}

/// Which JS global a constructor name denotes: a first segment ending in
/// " (global*)" is the global object, one ending in " (global)" the global
/// proxy.
pub fn normalize_constructor_type_bytes(name: &[u8]) -> (r: Option<&'static str>)
    ensures
        seq_ends_with(name_head(name@), object_marker()) ==> r == Some("[JSGlobalObject]"),
        !seq_ends_with(name_head(name@), object_marker()) && seq_ends_with(name_head(name@), proxy_marker())
            ==> r == Some("[JSGlobalProxy]"),
        !seq_ends_with(name_head(name@), object_marker()) && !seq_ends_with(name_head(name@), proxy_marker())
            ==> r is None,
{
    let end = first_segment_end(name);
    let head = vstd::slice::slice_subrange(name, 0, end);
    if ends_with(head, " (global*)".as_bytes()) {
        Some("[JSGlobalObject]")
    } else if ends_with(head, " (global)".as_bytes()) {
        Some("[JSGlobalProxy]")
    } else {
        None
    }
}

/// A display name with its JS global marker spelled as the tag: a first
/// segment ending in " (global*)" ends in " [JSGlobalObject]" instead, one
/// ending in " (global)" in " [JSGlobalProxy]"; other names are kept.
pub open spec fn normalized_display_name(name: Seq<u8>) -> Seq<u8> {
    let head = name_head(name);
    let rest = name.subrange(first_segment_len(name), name.len() as int);
    if seq_ends_with(head, object_marker()) {
        head.subrange(0, head.len() - object_marker().len()) + " [JSGlobalObject]".spec_bytes() + rest
    } else if seq_ends_with(head, proxy_marker()) {
        head.subrange(0, head.len() - proxy_marker().len()) + " [JSGlobalProxy]".spec_bytes() + rest
    } else {
        name
    }
}

/// A display name with its JS global marker spelled as the tag: "(global*)"
/// becomes "[JSGlobalObject]" and "(global)" becomes "[JSGlobalProxy]".
pub fn normalize_display_name_bytes(name: &[u8]) -> (r: Vec<u8>)
    ensures
        r@ == normalized_display_name(name@),
{
    let end = first_segment_end(name);
    let head = vstd::slice::slice_subrange(name, 0, end);
    let rest = vstd::slice::slice_subrange(name, end, name.len());
    let object_suffix = " (global*)".as_bytes();
    let proxy_suffix = " (global)".as_bytes();
    if ends_with(head, object_suffix) {
        let base = vstd::slice::slice_subrange(head, 0, head.len() - object_suffix.len());
        let a = concat(base, " [JSGlobalObject]".as_bytes());
        concat(a.as_slice(), rest)
    } else if ends_with(head, proxy_suffix) {
        let base = vstd::slice::slice_subrange(head, 0, head.len() - proxy_suffix.len());
        let a = concat(base, " [JSGlobalProxy]".as_bytes());
        concat(a.as_slice(), rest)
    } else {
        vstd::slice::slice_to_vec(name)
    }
}

/// Whether `tag` occurs in `name`.
pub fn contains_bytes(name: &[u8], tag: &[u8]) -> (r: bool)
    ensures
        r == exists|i: int| 0 <= i && #[trigger] occurs_in(name@, i, tag@),
{
    match find_from(name, tag, 0) {
        Some(_) => true,
        None => false,
    }
}

/// `tag` occurs somewhere in `s`.
pub open spec fn has_tag(s: Seq<u8>, tag: Seq<u8>) -> bool {
    exists|i: int| 0 <= i && #[trigger] occurs_in(s, i, tag)
}

/// Node `v` is a JS global object: its normalized name carries
/// "[JSGlobalObject]".
pub open spec fn is_js_global_object_node(g: Graph, v: int) -> bool {
    has_tag(normalized_display_name(g.node_name(v)), "[JSGlobalObject]".spec_bytes())
}

/// Node `v` is a JS global proxy: its normalized name carries
/// "[JSGlobalProxy]" and it is no JS global object.
pub open spec fn is_js_global_proxy_node(g: Graph, v: int) -> bool {
    !is_js_global_object_node(g, v) && has_tag(normalized_display_name(g.node_name(v)), "[JSGlobalProxy]".spec_bytes())
}

proof fn lemma_tag_prefix(s: Seq<u8>, tag: Seq<u8>, pre: Seq<u8>)
    requires
        has_tag(s, tag),
        pre.len() <= tag.len(),
        tag.subrange(0, pre.len() as int) == pre,
    ensures
        has_tag(s, pre),
{
    let i = choose|i: int| 0 <= i && #[trigger] occurs_in(s, i, tag);
    assert(s.subrange(i, i + pre.len()) =~= tag.subrange(0, pre.len() as int));
    assert(occurs_in(s, i, pre));
}

/// The JS global objects and the JS global proxies, in ordinal order: nodes
/// whose normalized name carries "[JSGlobalObject]" or "[JSGlobalProxy]".
pub fn find_js_globals(g: &Graph) -> (r: (Vec<usize>, Vec<usize>))
    requires
        g.wf(),
    ensures
        forall|i: int| 0 <= i < r.0@.len() ==> #[trigger] r.0@[i] < g.node_count(),
        forall|i: int| 0 <= i < r.1@.len() ==> #[trigger] r.1@[i] < g.node_count(),
        forall|i: int, j: int| 0 <= i < j < r.0@.len() ==> r.0@[i] < r.0@[j],
        forall|i: int, j: int| 0 <= i < j < r.1@.len() ==> r.1@[i] < r.1@[j],
        forall|v: int| 0 <= v < g.node_count() ==> (r.0@.contains(v as usize) <==> #[trigger] is_js_global_object_node(*g, v)),
        forall|v: int| 0 <= v < g.node_count() ==> (r.1@.contains(v as usize) <==> #[trigger] is_js_global_proxy_node(*g, v)),
{
    let n = g.nodes.len();
    let mut objects: Vec<usize> = Vec::new();
    let mut proxies: Vec<usize> = Vec::new();
    proof {
        reveal_strlit("[JSGlobal");
        reveal_strlit("[JSGlobalObject]");
        reveal_strlit("[JSGlobalProxy]");
        vstd::string::is_ascii_spec_bytes("[JSGlobal");
        vstd::string::is_ascii_spec_bytes("[JSGlobalObject]");
        vstd::string::is_ascii_spec_bytes("[JSGlobalProxy]");
        assert("[JSGlobalObject]".spec_bytes().subrange(0, 9) =~= "[JSGlobal".spec_bytes());
        assert("[JSGlobalProxy]".spec_bytes().subrange(0, 9) =~= "[JSGlobal".spec_bytes());
    }
    let mut v: usize = 0;
    while v < n
        invariant
            g.wf(),
            n == g.node_count(),
            v <= n,
            "[JSGlobalObject]".spec_bytes().subrange(0, 9) == "[JSGlobal".spec_bytes(),
            "[JSGlobalProxy]".spec_bytes().subrange(0, 9) == "[JSGlobal".spec_bytes(),
            "[JSGlobal".spec_bytes().len() == 9,
            "[JSGlobalObject]".spec_bytes().len() == 16,
            "[JSGlobalProxy]".spec_bytes().len() == 15,
            forall|i: int| 0 <= i < objects@.len() ==> #[trigger] objects@[i] < v,
            forall|i: int| 0 <= i < proxies@.len() ==> #[trigger] proxies@[i] < v,
            forall|i: int, j: int| 0 <= i < j < objects@.len() ==> objects@[i] < objects@[j],
            forall|i: int, j: int| 0 <= i < j < proxies@.len() ==> proxies@[i] < proxies@[j],
            forall|u: int| 0 <= u < v ==> (objects@.contains(u as usize) <==> #[trigger] is_js_global_object_node(*g, u)),
            forall|u: int| 0 <= u < v ==> (proxies@.contains(u as usize) <==> #[trigger] is_js_global_proxy_node(*g, u)),
        decreases n - v,
    {
        let name = normalize_display_name_bytes(g.node_name_bytes(v));
        let ghost objects0 = objects@;
        let ghost proxies0 = proxies@;
        if contains_bytes(name.as_slice(), "[JSGlobal".as_bytes()) {
            if contains_bytes(name.as_slice(), "[JSGlobalObject]".as_bytes()) {
                objects.push(v);
            } else if contains_bytes(name.as_slice(), "[JSGlobalProxy]".as_bytes()) {
                proxies.push(v);
            }
        } else {
            proof {
                if has_tag(name@, "[JSGlobalObject]".spec_bytes()) {
                    lemma_tag_prefix(name@, "[JSGlobalObject]".spec_bytes(), "[JSGlobal".spec_bytes());
                }
                if has_tag(name@, "[JSGlobalProxy]".spec_bytes()) {
                    lemma_tag_prefix(name@, "[JSGlobalProxy]".spec_bytes(), "[JSGlobal".spec_bytes());
                }
            }
        }
        proof {
            assert forall|u: int| 0 <= u < v + 1 implies (objects@.contains(u as usize) <==> #[trigger] is_js_global_object_node(*g, u)) by {
                if u < v {
                    if objects@.contains(u as usize) && u as usize != v {
                        let k = choose|k: int| 0 <= k < objects@.len() && objects@[k] == u as usize;
                        if k < objects0.len() {
                            assert(objects0.contains(u as usize));
                        } else {
                            assert(objects@[k] == v);
                        }
                    }
                    if objects0.contains(u as usize) {
                        let k = choose|k: int| 0 <= k < objects0.len() && objects0[k] == u as usize;
                        assert(objects@[k] == u as usize);
                    }
                } else {
                    if objects@.contains(v) && !objects0.contains(v) {
                        assert(objects@[objects@.len() - 1] == v);
                    }
                    if objects0.contains(v) {
                        let k = choose|k: int| 0 <= k < objects0.len() && objects0[k] == v;
                        assert(objects0[k] < v);
                    }
                    if objects@.len() > objects0.len() {
                        assert(objects@[objects@.len() - 1] == v);
                    }
                }
            }
            assert forall|u: int| 0 <= u < v + 1 implies (proxies@.contains(u as usize) <==> #[trigger] is_js_global_proxy_node(*g, u)) by {
                if u < v {
                    if proxies@.contains(u as usize) && u as usize != v {
                        let k = choose|k: int| 0 <= k < proxies@.len() && proxies@[k] == u as usize;
                        if k < proxies0.len() {
                            assert(proxies0.contains(u as usize));
                        } else {
                            assert(proxies@[k] == v);
                        }
                    }
                    if proxies0.contains(u as usize) {
                        let k = choose|k: int| 0 <= k < proxies0.len() && proxies0[k] == u as usize;
                        assert(proxies@[k] == u as usize);
                    }
                } else {
                    if proxies@.contains(v) && !proxies0.contains(v) {
                        assert(proxies@[proxies@.len() - 1] == v);
                    }
                    if proxies0.contains(v) {
                        let k = choose|k: int| 0 <= k < proxies0.len() && proxies0[k] == v;
                        assert(proxies0[k] < v);
                    }
                    if proxies@.len() > proxies0.len() {
                        assert(proxies@[proxies@.len() - 1] == v);
                    }
                }
            }
        }
        v += 1;
    }
    (objects, proxies)
}

/// Edge `e` has a field name: not an element, hidden or invisible edge.
pub open spec fn field_edge(g: Graph, e: int) -> bool {
    g.edge_is_named(e) && g.edge_type(e) != g.types.edge_invisible
}

/// Node `v` has an outgoing field edge named `x`.
pub open spec fn has_field(g: Graph, v: int, x: Seq<u8>) -> bool {
    exists|e: int| g.is_out_edge(v, e) && field_edge(g, e) && g.edge_name(e) == x
}

/// The field names of a node's outgoing edges.
fn field_names(g: &Graph, v: usize) -> (r: ByteSet)
    requires
        g.wf(),
        v < g.node_count(),
    ensures
        forall|x: Seq<u8>| #[trigger] byte_set(r).contains(x) <==> has_field(*g, v as int, x),
{
    let mut set = byte_set_new();
    let (first, last) = g.node_edge_range(v);
    let mut e = first;
    while e < last
        invariant
            g.wf(),
            v < g.node_count(),
            first == g.edge_begin(v as int),
            last == g.edge_end(v as int),
            first <= e <= last,
            last <= g.edge_count(),
            forall|x: Seq<u8>| #[trigger] byte_set(set).contains(x) ==> has_field(*g, v as int, x),
            forall|f: int| first <= f < e && field_edge(*g, f) ==> #[trigger] byte_set(set).contains(g.edge_name(f)),
        decreases last - e,
    {
        if g.edge_is_named_exec(e) && g.edge_type_raw(e) != g.types.edge_invisible {
            let name = vstd::slice::slice_to_vec(g.edge_name_bytes(e));
            let ghost before = byte_set(set);
            byte_set_insert(&mut set, name);
            proof {
                assert forall|x: Seq<u8>| #[trigger] byte_set(set).contains(x) implies has_field(*g, v as int, x) by {
                    if x != name@ {
                        assert(before.contains(x));
                    } else {
                        assert(g.is_out_edge(v as int, e as int));
                    }
                }
            }
        }
        e += 1;
    }
    proof {
        assert forall|x: Seq<u8>| has_field(*g, v as int, x) implies #[trigger] byte_set(set).contains(x) by {
            let f = choose|f: int| g.is_out_edge(v as int, f) && field_edge(*g, f) && g.edge_name(f) == x;
            assert(byte_set(set).contains(g.edge_name(f)));
        }
    }
    set
}

/// The field names that all the given nodes have; empty for no nodes.
pub fn common_edge_names(g: &Graph, ordinals: &Vec<usize>) -> (r: ByteSet)
    requires
        g.wf(),
        forall|i: int| 0 <= i < ordinals@.len() ==> #[trigger] ordinals@[i] < g.node_count(),
    ensures
        forall|x: Seq<u8>| #[trigger] byte_set(r).contains(x) <==> (ordinals@.len() > 0 && forall|i: int|
            0 <= i < ordinals@.len() ==> has_field(*g, #[trigger] ordinals@[i] as int, x)),
{
    if ordinals.len() == 0 {
        return byte_set_new();
    }
    let mut acc = field_names(g, ordinals[0]);
    let mut k: usize = 1;
    while k < ordinals.len()
        invariant
            g.wf(),
            1 <= k <= ordinals@.len(),
            forall|i: int| 0 <= i < ordinals@.len() ==> #[trigger] ordinals@[i] < g.node_count(),
            forall|x: Seq<u8>| #[trigger] byte_set(acc).contains(x) <==> forall|i: int|
                0 <= i < k ==> has_field(*g, #[trigger] ordinals@[i] as int, x),
        decreases ordinals@.len() - k,
    {
        let here = field_names(g, ordinals[k]);
        let items = byte_set_elements(&acc);
        let mut next = byte_set_new();
        let mut j: usize = 0;
        while j < items.len()
            invariant
                j <= items@.len(),
                forall|i: int| 0 <= i < items@.len() ==> byte_set(acc).contains(#[trigger] items@[i]@),
                forall|x: Seq<u8>| #[trigger] byte_set(next).contains(x) ==> byte_set(acc).contains(x) && byte_set(here).contains(x),
                forall|i: int| 0 <= i < j && byte_set(here).contains(#[trigger] items@[i]@) ==> byte_set(next).contains(items@[i]@),
            decreases items@.len() - j,
        {
            if byte_set_contains(&here, items[j].as_slice()) {
                let ghost before = byte_set(next);
                let item = vstd::slice::slice_to_vec(items[j].as_slice());
                byte_set_insert(&mut next, item);
                proof {
                    assert forall|x: Seq<u8>| #[trigger] byte_set(next).contains(x) implies byte_set(acc).contains(x)
                        && byte_set(here).contains(x) by {
                        if x != item@ {
                            assert(before.contains(x));
                        } else {
                            assert(byte_set(acc).contains(items@[j as int]@));
                        }
                    }
                }
            }
            j += 1;
        }
        proof {
            assert forall|x: Seq<u8>| forall|i: int| 0 <= i < k + 1 ==> has_field(*g, #[trigger] ordinals@[i] as int, x)
                implies #[trigger] byte_set(next).contains(x) by {
                assert forall|i: int| 0 <= i < k implies has_field(*g, #[trigger] ordinals@[i] as int, x) by {
                    assert(has_field(*g, ordinals@[i] as int, x));
                }
                assert(byte_set(acc).contains(x));
                assert(has_field(*g, ordinals@[k as int] as int, x));
                assert(byte_set(here).contains(x));
                let i = choose|i: int| 0 <= i < items@.len() && items@[i]@ == x;
                assert(byte_set(here).contains(items@[i]@));
            }
            assert forall|x: Seq<u8>| #[trigger] byte_set(next).contains(x) implies forall|i: int|
                0 <= i < k + 1 ==> has_field(*g, #[trigger] ordinals@[i] as int, x) by {
                assert(byte_set(acc).contains(x));
                assert(byte_set(here).contains(x));
            }
        }
        acc = next;
        k += 1;
    }
    acc
}

/// A context object: a node whose name starts with "system / Context".
pub open spec fn is_context_spec(g: Graph, v: int) -> bool {
    seq_starts_with(g.node_name(v), "system / Context".spec_bytes())
}

/// The node that the first "previous" edge of `v` leads to, if `v` has one.
pub open spec fn previous_of(g: Graph, v: int) -> Option<int> {
    let name = "previous".spec_bytes();
    if exists|e: int| is_first_match(g, v, e, name, false) {
        Some(g.edge_target(choose|e: int| is_first_match(g, v, e, name, false)))
    } else {
        None
    }
}

/// Following "previous" edges from `v` for at most `fuel` steps: the first
/// native context met; none when a step finds no "previous" edge or leads
/// to a node that is neither a context nor a native context.
pub open spec fn context_chain(g: Graph, v: int, fuel: nat) -> Option<int>
    decreases fuel,
{
    if fuel == 0 {
        None
    } else {
        match previous_of(g, v) {
            None => None,
            Some(next) => if is_native_context_spec(g, next) {
                Some(next)
            } else if !is_context_spec(g, next) {
                None
            } else {
                context_chain(g, next, (fuel - 1) as nat)
            },
        }
    }
}

/// The native context a node belongs to: a native context is its own; a
/// context follows its "previous" edges (at most once per node of the
/// graph) until it meets one; any other node has none.
pub open spec fn native_context_of_context(g: Graph, v: int) -> Option<int> {
    if is_native_context_spec(g, v) {
        Some(v)
    } else if !is_context_spec(g, v) {
        None
    } else {
        context_chain(g, v, g.node_count())
    }
}

/// The native context a context belongs to: a native context is its own;
/// a context follows its "previous" edges until it reaches one; any other
/// node, or a chain that ends elsewhere, has none.
pub fn find_native_context_for_context(g: &Graph, v: usize) -> (r: Option<usize>)
    requires
        g.wf(),
        v < g.node_count(),
    ensures
        r matches Some(c) ==> c < g.node_count() && is_native_context_spec(*g, c as int),
        r == match native_context_of_context(*g, v as int) {
            Some(c) => Some(c as usize),
            None => None::<usize>,
        },
{
    if is_native_context(g, v) {
        return Some(v);
    }
    if !starts_with(g.node_name_bytes(v), "system / Context".as_bytes()) {
        return None;
    }
    let n = g.nodes.len();
    let mut cur = v;
    let mut steps: usize = 0;
    while steps < n
        invariant
            g.wf(),
            n == g.node_count(),
            cur < n,
            steps <= n,
            v < n,
            !is_native_context_spec(*g, v as int),
            is_context_spec(*g, v as int),
            context_chain(*g, v as int, n as nat) == context_chain(*g, cur as int, (n - steps) as nat),
        decreases n - steps,
    {
        match first_named_edge(g, cur, "previous".as_bytes(), false) {
            Some(e) => {
                let next = g.edge_to_node(e);
                proof {
                    let e2 = choose|e2: int| is_first_match(*g, cur as int, e2, "previous".spec_bytes(), false);
                    lemma_first_match_unique(*g, cur as int, e as int, e2, "previous".spec_bytes(), false);
                    assert(previous_of(*g, cur as int) == Some(next as int));
                }
                if is_native_context(g, next) {
                    return Some(next);
                }
                if !starts_with(g.node_name_bytes(next), "system / Context".as_bytes()) {
                    return None;
                }
                cur = next;
            },
            None => {
                proof {
                    assert(previous_of(*g, cur as int) is None);
                }
                return None;
            },
        }
        steps += 1;
    }
    None
}

} // verus!
