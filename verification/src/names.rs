use vstd::prelude::*;
use vstd::string::StringSliceAdditionalSpecFns;
use crate::graph::Graph;
use crate::bytes::{bytes_eq, starts_with, seq_starts_with, occurs_in, find_from, concat};
use crate::fxcoll::{ByteMap, byte_map, byte_map_new, byte_map_get, byte_map_insert};
use crate::text::{decimal_bytes, decimal_of};
use crate::reach::decimal_value;
use crate::ephemeron::is_digit;

verus! {

/// `i` is the first position at or after `from` where `pat` occurs.
pub open spec fn is_first_occ(s: Seq<u8>, pat: Seq<u8>, from: int, i: int) -> bool {
    &&& from <= i
    &&& occurs_in(s, i, pat)
    &&& forall|j: int| from <= j < i ==> !occurs_in(s, j, pat)
}

proof fn lemma_first_occ_unique(s: Seq<u8>, pat: Seq<u8>, from: int, i: int, j: int)
    requires
        is_first_occ(s, pat, from, i),
        is_first_occ(s, pat, from, j),
    ensures
        i == j,
{
}

pub open spec fn sep() -> Seq<u8> {
    seq![32u8, 47u8, 32u8]
}

/// `i` and `j` are the first and second separator positions of `name`.
pub open spec fn two_seps(name: Seq<u8>, i: int, j: int) -> bool {
    is_first_occ(name, sep(), 0, i) && is_first_occ(name, sep(), i + 3, j)
}

/// The class of a "system / ..." name: the name up to its second " / ",
/// or the whole name when it has fewer.
pub open spec fn system_class(name: Seq<u8>) -> Seq<u8> {
    if exists|i: int, j: int| #[trigger] two_seps(name, i, j) {
        let (i, j) = choose|i: int, j: int| #[trigger] two_seps(name, i, j);
        name.subrange(0, j)
    } else {
        name
    }
}

/// The class of a name that starts with `<`: the name up to its first
/// space, closed with `>`, or the whole name when it has no space.
pub open spec fn angle_class(name: Seq<u8>) -> Seq<u8> {
    if exists|p: int| #[trigger] is_first_occ(name, seq![32u8], 0, p) {
        let p = choose|p: int| is_first_occ(name, seq![32u8], 0, p);
        name.subrange(0, p) + seq![62u8]
    } else {
        name
    }
}

/// `(type)` for a type id: the type's name in brackets, or
/// `(unknown_<id>)` for an id that the type list lacks.
pub open spec fn type_class(g: Graph, t: u32) -> Seq<u8> {
    if (t as int) < g.node_types@.len() {
        "(".spec_bytes() + g.node_types@[t as int]@ + ")".spec_bytes()
    } else {
        "(unknown_".spec_bytes() + decimal_of(t) + ")".spec_bytes()
    }
}

/// The class name of a node before interface inference: hidden and code
/// nodes by their name ("system / " names shortened, empty names as
/// "(hidden)" or "(code)"), objects and native nodes by their name ("<...>"
/// names shortened), closures as "Function", regexps as "RegExp", any other
/// node by its type in brackets.
pub open spec fn base_class_name(g: Graph, v: int) -> Seq<u8> {
    let t = g.node_type(v);
    let name = g.node_name(v);
    if t == g.types.node_hidden || t == g.types.node_code {
        if name.len() == 0 {
            if t == g.types.node_hidden {
                "(hidden)".spec_bytes()
            } else {
                "(code)".spec_bytes()
            }
        } else if seq_starts_with(name, "system / ".spec_bytes()) {
            system_class(name)
        } else {
            name
        }
    } else if t == g.types.node_object || t == g.types.node_native {
        if seq_starts_with(name, "<".spec_bytes()) {
            angle_class(name)
        } else {
            name
        }
    } else if t == g.types.node_closure {
        "Function".spec_bytes()
    } else if t == g.types.node_regexp {
        "RegExp".spec_bytes()
    } else {
        type_class(g, t)
    }
}

fn system_class_exec(name: &[u8]) -> (r: Vec<u8>)
    ensures
        r@ == system_class(name@),
{
    let sep_bytes: [u8; 3] = [32u8, 47u8, 32u8];
    let pat = sep_bytes.as_slice();
    assert(pat@ =~= sep());
    match find_from(name, pat, 0) {
        Some(i) => {
            if name.len() - i < 3 {
                assert(false);
            }
            match find_from(name, pat, i + 3) {
                Some(j) => {
                    proof {
                        assert(two_seps(name@, i as int, j as int));
                        let (i2, j2) = choose|i2: int, j2: int|
                            two_seps(name@, i2, j2);
                        lemma_first_occ_unique(name@, sep(), 0, i as int, i2);
                        lemma_first_occ_unique(name@, sep(), i + 3, j as int, j2);
                    }
                    vstd::slice::slice_to_vec(vstd::slice::slice_subrange(name, 0, j))
                },
                None => {
                    proof {
                        if exists|i2: int, j2: int| two_seps(name@, i2, j2) {
                            let (i2, j2) = choose|i2: int, j2: int|
                                two_seps(name@, i2, j2);
                            lemma_first_occ_unique(name@, sep(), 0, i as int, i2);
                        }
                    }
                    vstd::slice::slice_to_vec(name)
                },
            }
        },
        None => {
            proof {
                if exists|i2: int, j2: int| two_seps(name@, i2, j2) {
                    let (i2, j2) = choose|i2: int, j2: int|
                        two_seps(name@, i2, j2);
                    assert(occurs_in(name@, i2, sep()));
                }
            }
            vstd::slice::slice_to_vec(name)
        },
    }
}

fn angle_class_exec(name: &[u8]) -> (r: Vec<u8>)
    ensures
        r@ == angle_class(name@),
{
    let space: [u8; 1] = [32u8];
    let pat = space.as_slice();
    assert(pat@ =~= seq![32u8]);
    match find_from(name, pat, 0) {
        Some(p) => {
            proof {
                assert(is_first_occ(name@, seq![32u8], 0, p as int));
                let p2 = choose|p2: int| is_first_occ(name@, seq![32u8], 0, p2);
                lemma_first_occ_unique(name@, seq![32u8], 0, p as int, p2);
            }
            let close: [u8; 1] = [62u8];
            let r = concat(vstd::slice::slice_subrange(name, 0, p), close.as_slice());
            assert(close@ =~= seq![62u8]);
            r
        },
        None => {
            proof {
                if exists|p2: int| is_first_occ(name@, seq![32u8], 0, p2) {
                    let p2 = choose|p2: int| is_first_occ(name@, seq![32u8], 0, p2);
                    assert(occurs_in(name@, p2, seq![32u8]));
                }
            }
            vstd::slice::slice_to_vec(name)
        },
    }
}

/// The class name of node `v` before interface inference, with the
/// decimal digits of its type id.
pub fn base_class_name_exec(g: &Graph, v: usize) -> (r: Vec<u8>)
    requires
        g.wf(),
        v < g.node_count(),
    ensures
        r@ == base_class_name(*g, v as int),
{
    let t = g.node_type_raw(v);
    let name = g.node_name_bytes(v);
    proof {
        reveal_strlit("(hidden)");
        reveal_strlit("(code)");
        reveal_strlit("system / ");
        reveal_strlit("<");
        reveal_strlit("Function");
        reveal_strlit("RegExp");
        reveal_strlit("(");
        reveal_strlit(")");
        reveal_strlit("(unknown_");
    }
    let out = if t == g.types.node_hidden || t == g.types.node_code {
        if name.len() == 0 {
            if t == g.types.node_hidden {
                vstd::slice::slice_to_vec("(hidden)".as_bytes())
            } else {
                vstd::slice::slice_to_vec("(code)".as_bytes())
            }
        } else if starts_with(name, "system / ".as_bytes()) {
            system_class_exec(name)
        } else {
            vstd::slice::slice_to_vec(name)
        }
    } else if t == g.types.node_object || t == g.types.node_native {
        if starts_with(name, "<".as_bytes()) {
            angle_class_exec(name)
        } else {
            vstd::slice::slice_to_vec(name)
        }
    } else if t == g.types.node_closure {
        vstd::slice::slice_to_vec("Function".as_bytes())
    } else if t == g.types.node_regexp {
        vstd::slice::slice_to_vec("RegExp".as_bytes())
    } else if (t as usize) < g.node_types.len() {
        let a = concat("(".as_bytes(), g.node_types[t as usize].as_slice());
        concat(a.as_slice(), ")".as_bytes())
    } else {
        let digits = decimal_bytes(t);
        let a = concat("(unknown_".as_bytes(), digits.as_slice());
        concat(a.as_slice(), ")".as_bytes())
    };
    out
}

/// The strings that class indices point into: the snapshot's strings, then
/// the appended ones.
pub open spec fn table_entry(strings: Seq<Vec<u8>>, appended: Seq<Vec<u8>>, i: int) -> Seq<u8> {
    if i < strings.len() {
        strings[i]@
    } else {
        appended[i - strings.len()]@
    }
}

/// The appended strings and their lookup map agree: each key maps to an
/// index whose string is the key.
pub open spec fn table_ok(strings: Seq<Vec<u8>>, appended: Seq<Vec<u8>>, m: Map<Seq<u8>, usize>) -> bool {
    forall|k: Seq<u8>|
        #[trigger] m.contains_key(k) ==> strings.len() <= m[k] < strings.len() + appended.len() && table_entry(
            strings,
            appended,
            m[k] as int,
        ) == k
}

/// The index of `s` in the table, appending it (and recording it in the
/// lookup map) when the map does not hold it yet.
pub fn intern(strings_len: usize, appended: &mut Vec<Vec<u8>>, map: &mut ByteMap, s: Vec<u8>, Ghost(strings): Ghost<Seq<Vec<u8>>>) -> (r: usize)
    requires
        strings_len == strings.len(),
        strings_len + old(appended)@.len() < usize::MAX,
        table_ok(strings, old(appended)@, byte_map(*old(map))),
    ensures
        table_ok(strings, final(appended)@, byte_map(*final(map))),
        byte_map(*final(map)) == byte_map(*old(map)) || byte_map(*final(map)) == byte_map(*old(map)).insert(s@, r),
        final(appended)@.len() <= old(appended)@.len() + 1,
        final(appended)@.len() >= old(appended)@.len(),
        final(appended)@.subrange(0, old(appended)@.len() as int) == old(appended)@,
        strings.len() <= r < strings.len() + final(appended)@.len(),
        table_entry(strings, final(appended)@, r as int) == s@,
{
    match byte_map_get(map, s.as_slice()) {
        Some(i) => {
            assert(final(appended)@.subrange(0, old(appended)@.len() as int) =~= old(appended)@);
            i
        },
        None => {
            let idx = strings_len + appended.len();
            let ghost old_app = appended@;
            let key = vstd::slice::slice_to_vec(s.as_slice());
            appended.push(s);
            byte_map_insert(map, key, idx);
            proof {
                assert(appended@.subrange(0, old_app.len() as int) =~= old_app);
                assert forall|k: Seq<u8>| #[trigger] byte_map(*map).contains_key(k) implies strings.len() <= byte_map(*map)[k]
                    < strings.len() + appended@.len() && table_entry(strings, appended@, byte_map(*map)[k] as int) == k by {
                    if k != key@ {
                        assert(byte_map(*old(map)).contains_key(k));
                        assert(table_entry(strings, old_app, byte_map(*old(map))[k] as int) == k);
                    }
                }
            }
            idx
        },
    }
}

/// The class index of every node before interface inference, with the
/// strings appended for class names that are not in the string table.
pub fn compute_base_classes(g: &Graph) -> (r: (Vec<usize>, Vec<Vec<u8>>))
    requires
        g.wf(),
        g.strings@.len() + g.node_count() < usize::MAX,
    ensures
        r.0@.len() == g.node_count(),
        r.1@.len() + plain_count(*g, g.node_count() as int) <= g.node_count(),
        forall|v: int| 0 <= v < g.node_count() ==> (#[trigger] r.0@[v]) < g.strings@.len() + r.1@.len(),
        forall|v: int| 0 <= v < g.node_count() ==> table_entry(g.strings@, r.1@, #[trigger] r.0@[v] as int) == base_class_name(*g, v),
{
    let n = g.nodes.len();
    let sl = g.strings.len();
    let mut appended: Vec<Vec<u8>> = Vec::new();
    let mut map = byte_map_new();
    let mut classes: Vec<usize> = Vec::new();
    let mut v: usize = 0;
    while v < n
        invariant
            g.wf(),
            n == g.node_count(),
            sl == g.strings@.len(),
            sl + n < usize::MAX,
            v <= n,
            classes@.len() == v,
            appended@.len() + plain_count(*g, v as int) <= v,
            table_ok(g.strings@, appended@, byte_map(map)),
            forall|u: int| 0 <= u < v ==> (#[trigger] classes@[u]) < g.strings@.len() + appended@.len(),
            forall|u: int| 0 <= u < v ==> table_entry(g.strings@, appended@, #[trigger] classes@[u] as int) == base_class_name(*g, u),
        decreases n - v,
    {
        let t = g.node_type_raw(v);
        let plain = plain_object(g, v) || (t != g.types.node_hidden && t != g.types.node_code && (t == g.types.node_object
            || t == g.types.node_native) && !starts_with(g.node_name_bytes(v), "<".as_bytes()));
        proof {
            reveal_strlit("Object");
            reveal_strlit("system / ");
            reveal_strlit("<");
            vstd::string::is_ascii_spec_bytes("Object");
            vstd::string::is_ascii_spec_bytes("system / ");
            vstd::string::is_ascii_spec_bytes("<");
        }
        let c = if plain {
            let i = g.nodes[v].name as usize;
            proof {
                if is_plain_object(*g, v as int) {
                    let nm = g.node_name(v as int);
                    assert(nm.len() == 6);
                    assert(!seq_starts_with(nm, "system / ".spec_bytes()));
                    assert(nm.subrange(0, 1)[0] == 79u8);
                    assert(!seq_starts_with(nm, "<".spec_bytes()));
                }
                assert(table_entry(g.strings@, appended@, i as int) == base_class_name(*g, v as int));
            }
            i
        } else {
            let cls = base_class_name_exec(g, v);
            let ghost before = appended@;
            let i = intern(sl, &mut appended, &mut map, cls, Ghost(g.strings@));
            proof {
                lemma_table_prefix(g.strings@, before, appended@, classes@, v as int, *g);
                assert(table_entry(g.strings@, appended@, i as int) == base_class_name(*g, v as int));
            }
            i
        };
        classes.push(c);
        v += 1;
    }
    (classes, appended)
}

/// Entries below the old table length keep their strings when strings are
/// appended.
proof fn lemma_table_prefix(strings: Seq<Vec<u8>>, before: Seq<Vec<u8>>, after: Seq<Vec<u8>>, classes: Seq<usize>, v: int, g: Graph)
    requires
        after.len() >= before.len(),
        after.subrange(0, before.len() as int) == before,
        classes.len() == v,
        forall|u: int| 0 <= u < v ==> (#[trigger] classes[u]) < strings.len() + before.len(),
        forall|u: int| 0 <= u < v ==> table_entry(strings, before, #[trigger] classes[u] as int) == base_class_name(g, u),
    ensures
        forall|u: int| 0 <= u < v ==> (#[trigger] classes[u]) < strings.len() + after.len(),
        forall|u: int| 0 <= u < v ==> table_entry(strings, after, #[trigger] classes[u] as int) == base_class_name(g, u),
{
    assert forall|u: int| 0 <= u < v implies table_entry(strings, after, #[trigger] classes[u] as int) == base_class_name(g, u) by {
        let i = classes[u] as int;
        if i >= strings.len() {
            assert(after.subrange(0, before.len() as int)[i - strings.len()] == before[i - strings.len()]);
            assert(after[i - strings.len()] == before[i - strings.len()]);
        }
        assert(table_entry(strings, after, classes[u] as int) == base_class_name(g, u));
    }
}


/// The bytes of "Symbol(".
pub open spec fn symbol_prefix() -> Seq<u8> {
    seq![83u8, 121u8, 109u8, 98u8, 111u8, 108u8, 40u8]
}

/// How a property name shows in an interface name: accessor names ("get
/// x", "set x") as they are, "Symbol(...)" as "<symbol ...>", others as
/// they are.
pub open spec fn format_property(name: Seq<u8>) -> Seq<u8> {
    if seq_starts_with(name, "get ".spec_bytes()) || seq_starts_with(name, "set ".spec_bytes()) {
        name
    } else if seq_starts_with(name, symbol_prefix()) {
        "<symbol ".spec_bytes() + name.subrange(7, if name.len() >= 8 { name.len() - 1 } else { 7 }) + ">".spec_bytes()
    } else {
        name
    }
}

/// Formats a property name for an interface name.
pub fn format_property_name(name: &[u8]) -> (r: Vec<u8>)
    ensures
        r@ == format_property(name@),
{
    proof {
        reveal_strlit("get ");
        reveal_strlit("set ");
        reveal_strlit("Symbol(");
        reveal_strlit("<symbol ");
        reveal_strlit(">");
    }
    if starts_with(name, "get ".as_bytes()) || starts_with(name, "set ".as_bytes()) {
        return vstd::slice::slice_to_vec(name);
    }
    let sym: [u8; 7] = [83u8, 121u8, 109u8, 98u8, 111u8, 108u8, 40u8];
    assert(sym@ =~= symbol_prefix());
    if starts_with(name, sym.as_slice()) {
        let end = if name.len() >= 8 { name.len() - 1 } else { 7 };
        let inner = vstd::slice::slice_subrange(name, 7, end);
        let a = concat("<symbol ".as_bytes(), inner);
        return concat(a.as_slice(), ">".as_bytes());
    }
    vstd::slice::slice_to_vec(name)
}

/// Interface names stop growing at this length.
pub const MAX_INTERFACE_NAME_LENGTH: usize = 60;

/// Node `v` is an object named "Object".
pub open spec fn is_plain_object(g: Graph, v: int) -> bool {
    g.node_type(v) == g.types.node_object && g.node_name(v) == "Object".spec_bytes()
}

fn plain_object(g: &Graph, v: usize) -> (r: bool)
    requires
        g.wf(),
        v < g.node_count(),
    ensures
        r == is_plain_object(*g, v as int),
{
    g.node_type_raw(v) == g.types.node_object && bytes_eq(g.node_name_bytes(v), "Object".as_bytes())
}

/// Edge `e` is a property edge with a name.
pub open spec fn is_property_edge(g: Graph, e: int) -> bool {
    g.edge_type(e) == g.types.edge_property && g.edge_is_named(e)
}

/// The byte strings that a list of byte vectors holds.
pub open spec fn views(s: Seq<Vec<u8>>) -> Seq<Seq<u8>> {
    s.map_values(|p: Vec<u8>| p@)
}

/// The interface name of node `v` so far (without its closing brace), the
/// properties it names, and whether it has stopped growing, after the edges
/// of `v` before edge `e`: each property edge other than `__proto__` adds
/// its formatted name, after ", " once the name holds something, until a
/// name that already holds a property would pass the length limit.
pub open spec fn iface_upto(g: Graph, v: int, e: int) -> (Seq<u8>, Seq<Seq<u8>>, bool)
    decreases e - g.edge_begin(v),
{
    if e <= g.edge_begin(v) {
        (seq![123u8], Seq::empty(), false)
    } else {
        let prev = iface_upto(g, v, e - 1);
        let x = e - 1;
        if prev.2 || !is_property_edge(g, x) || g.edge_name(x) == "__proto__".spec_bytes() {
            prev
        } else {
            let f = format_property(g.edge_name(x));
            if prev.0.len() > 1 && prev.0.len() + f.len() > MAX_INTERFACE_NAME_LENGTH {
                (prev.0, prev.1, true)
            } else if prev.0.len() != 1 {
                (prev.0 + seq![44u8, 32u8] + f, prev.1.push(g.edge_name(x)), false)
            } else {
                (prev.0 + f, prev.1.push(g.edge_name(x)), false)
            }
        }
    }
}

/// The interface name of node `v`: "{", its formatted property names, "}".
pub open spec fn interface_name(g: Graph, v: int) -> Seq<u8> {
    iface_upto(g, v, g.edge_end(v)).0.push(125u8)
}

/// The properties that the interface name of node `v` names.
pub open spec fn interface_props(g: Graph, v: int) -> Seq<Seq<u8>> {
    iface_upto(g, v, g.edge_end(v)).1
}

/// Node `v` is a plain object whose interface names a property.
pub open spec fn has_shape(g: Graph, v: int) -> bool {
    is_plain_object(g, v) && interface_props(g, v).len() > 0
}

/// The number of plain objects among the nodes before `v`.
pub open spec fn plain_count(g: Graph, v: int) -> nat
    decreases v,
{
    if v <= 0 {
        0
    } else {
        plain_count(g, v - 1) + if is_plain_object(g, v - 1) { 1nat } else { 0nat }
    }
}

/// The number of nodes before `v` with a shape whose interface name is
/// `name`.
pub open spec fn shape_count(g: Graph, name: Seq<u8>, v: int) -> nat
    decreases v,
{
    if v <= 0 {
        0
    } else {
        shape_count(g, name, v - 1) + if has_shape(g, v - 1) && interface_name(g, v - 1) == name { 1nat } else { 0nat }
    }
}

/// How many plain objects must share an interface name for it to become a
/// definition: 2, or a thousandth of the plain objects when that is more.
pub open spec fn min_shape_count(g: Graph) -> nat {
    let t = plain_count(g, g.node_count() as int);
    if t / 1000 > 2 { t / 1000 } else { 2 }
}

/// How many nodes share the interface name of node `r`.
pub open spec fn definition_count(g: Graph, r: int) -> nat {
    shape_count(g, interface_name(g, r), g.node_count() as int)
}

/// Node `r` is the first node with its interface name, and enough nodes
/// share that name: the name and `r`'s properties make a definition.
pub open spec fn is_definition(g: Graph, r: int) -> bool {
    &&& 0 <= r < g.node_count()
    &&& has_shape(g, r)
    &&& forall|u: int| 0 <= u < r && #[trigger] has_shape(g, u) ==> interface_name(g, u) != interface_name(g, r)
    &&& definition_count(g, r) >= min_shape_count(g)
}

/// The names of the property edges of node `v` before edge `e`.
pub open spec fn props_upto(g: Graph, v: int, e: int) -> Seq<Seq<u8>>
    decreases e - g.edge_begin(v),
{
    if e <= g.edge_begin(v) {
        Seq::empty()
    } else {
        let prev = props_upto(g, v, e - 1);
        if is_property_edge(g, e - 1) {
            prev.push(g.edge_name(e - 1))
        } else {
            prev
        }
    }
}

/// The names of all property edges of node `v`.
pub open spec fn all_properties(g: Graph, v: int) -> Seq<Seq<u8>> {
    props_upto(g, v, g.edge_end(v))
}

/// How often `x` occurs in `s`.
pub open spec fn occurrences(s: Seq<Seq<u8>>, x: Seq<u8>) -> nat
    decreases s.len(),
{
    if s.len() == 0 {
        0
    } else {
        occurrences(s.drop_last(), x) + if s.last() == x { 1nat } else { 0nat }
    }
}

/// Every string of `sub`, as often as it occurs there, occurs in `sup`.
pub open spec fn includes_all(sup: Seq<Seq<u8>>, sub: Seq<Seq<u8>>) -> bool {
    forall|i: int| 0 <= i < sub.len() ==> occurrences(sub, #[trigger] sub[i]) <= occurrences(sup, sub[i])
}

/// Node `v` has every property of definition `r`.
pub open spec fn fits(g: Graph, v: int, r: int) -> bool {
    is_definition(g, r) && includes_all(all_properties(g, v), interface_props(g, r))
}

/// Definition `a` goes before definition `b`: it has more properties, or
/// as many and more nodes sharing it, or the same and was seen first.
pub open spec fn preferred(g: Graph, a: int, b: int) -> bool {
    let la = interface_props(g, a).len();
    let lb = interface_props(g, b).len();
    ||| a == b
    ||| la > lb
    ||| la == lb && definition_count(g, a) > definition_count(g, b)
    ||| la == lb && definition_count(g, a) == definition_count(g, b) && a < b
}

/// `r` is the definition that node `v` takes: it fits `v` and goes before
/// every other definition that fits.
pub open spec fn best_definition(g: Graph, v: int, r: int) -> bool {
    fits(g, v, r) && forall|r2: int| #[trigger] fits(g, v, r2) ==> preferred(g, r, r2)
}

/// The definition whose interface name a plain object takes, if any fits.
pub open spec fn interface_match(g: Graph, v: int) -> Option<int> {
    if is_plain_object(g, v) && exists|r: int| #[trigger] best_definition(g, v, r) {
        Some(choose|r: int| best_definition(g, v, r))
    } else {
        None
    }
}

/// The class name of node `v`: the interface name of the definition it
/// takes, or else its base class name.
pub open spec fn class_name(g: Graph, v: int) -> Seq<u8> {
    match interface_match(g, v) {
        Some(r) => interface_name(g, r),
        None => base_class_name(g, v),
    }
}

proof fn lemma_preferred_trans(g: Graph, a: int, b: int, c: int)
    requires
        preferred(g, a, b),
        preferred(g, b, c),
    ensures
        preferred(g, a, c),
{
}

proof fn lemma_best_unique(g: Graph, v: int, a: int, b: int)
    requires
        best_definition(g, v, a),
        best_definition(g, v, b),
    ensures
        a == b,
{
    assert(preferred(g, a, b));
    assert(preferred(g, b, a));
}

pub proof fn lemma_plain_count_bounds(g: Graph, a: int, b: int)
    requires
        0 <= a <= b,
    ensures
        plain_count(g, a) <= plain_count(g, b),
        plain_count(g, b) <= plain_count(g, a) + (b - a),
    decreases b - a,
{
    if a < b {
        lemma_plain_count_bounds(g, a, b - 1);
    }
}

/// A first node with its name is the only one.
proof fn lemma_first_unique(g: Graph, a: int, b: int)
    requires
        0 <= a,
        0 <= b,
        has_shape(g, a),
        has_shape(g, b),
        interface_name(g, a) == interface_name(g, b),
        forall|u: int| 0 <= u < a && #[trigger] has_shape(g, u) ==> interface_name(g, u) != interface_name(g, a),
        forall|u: int| 0 <= u < b && #[trigger] has_shape(g, u) ==> interface_name(g, u) != interface_name(g, b),
    ensures
        a == b,
{
    if a < b {
        assert(has_shape(g, a));
    } else if b < a {
        assert(has_shape(g, b));
    }
}

/// The interface name of node `v` and the properties it names.
fn interface_of(g: &Graph, v: usize) -> (r: (Vec<u8>, Vec<Vec<u8>>))
    requires
        g.wf(),
        v < g.node_count(),
    ensures
        r.0@ == interface_name(*g, v as int),
        views(r.1@) == interface_props(*g, v as int),
{
    let mut name: Vec<u8> = Vec::new();
    name.push(123u8);
    let mut props: Vec<Vec<u8>> = Vec::new();
    let mut stopped = false;
    let (first, last) = g.node_edge_range(v);
    let mut e = first;
    proof {
        assert(name@ =~= seq![123u8]);
        assert(views(props@) =~= Seq::<Seq<u8>>::empty());
    }
    while e < last
        invariant
            g.wf(),
            v < g.node_count(),
            first == g.edge_begin(v as int),
            last == g.edge_end(v as int),
            first <= e <= last,
            last <= g.edge_count(),
            name@ == iface_upto(*g, v as int, e as int).0,
            views(props@) == iface_upto(*g, v as int, e as int).1,
            stopped == iface_upto(*g, v as int, e as int).2,
        decreases last - e,
    {
        let ghost prev = iface_upto(*g, v as int, e as int);
        if !stopped && g.edge_type_raw(e) == g.types.edge_property && g.edge_is_named_exec(e) {
            let en = g.edge_name_bytes(e);
            if !bytes_eq(en, "__proto__".as_bytes()) {
                let formatted = format_property_name(en);
                if name.len() > 1 && (name.len() > MAX_INTERFACE_NAME_LENGTH || formatted.len() > MAX_INTERFACE_NAME_LENGTH
                    - name.len()) {
                    stopped = true;
                } else {
                    if name.len() != 1 {
                        let sep: [u8; 2] = [44u8, 32u8];
                        assert(sep@ =~= seq![44u8, 32u8]);
                        name = concat(name.as_slice(), sep.as_slice());
                    }
                    name = concat(name.as_slice(), formatted.as_slice());
                    let ghost before = props@;
                    props.push(vstd::slice::slice_to_vec(en));
                    proof {
                        assert(views(props@) =~= views(before).push(en@));
                    }
                }
            }
        }
        e += 1;
    }
    name.push(125u8);
    (name, props)
}

/// The names of all property edges of node `v`.
fn all_properties_exec(g: &Graph, v: usize) -> (r: Vec<Vec<u8>>)
    requires
        g.wf(),
        v < g.node_count(),
    ensures
        views(r@) == all_properties(*g, v as int),
{
    let mut props: Vec<Vec<u8>> = Vec::new();
    let (first, last) = g.node_edge_range(v);
    let mut e = first;
    proof {
        assert(views(props@) =~= Seq::<Seq<u8>>::empty());
    }
    while e < last
        invariant
            g.wf(),
            v < g.node_count(),
            first == g.edge_begin(v as int),
            last == g.edge_end(v as int),
            first <= e <= last,
            last <= g.edge_count(),
            views(props@) == props_upto(*g, v as int, e as int),
        decreases last - e,
    {
        if g.edge_type_raw(e) == g.types.edge_property && g.edge_is_named_exec(e) {
            let ghost before = props@;
            props.push(vstd::slice::slice_to_vec(g.edge_name_bytes(e)));
            proof {
                assert(views(props@) =~= views(before).push(g.edge_name(e as int)));
            }
        }
        e += 1;
    }
    props
}

/// How often `x` occurs in `s`.
fn count_occurrences(s: &Vec<Vec<u8>>, x: &[u8]) -> (r: usize)
    ensures
        r == occurrences(views(s@), x@),
{
    let mut c: usize = 0;
    let mut j: usize = 0;
    proof {
        assert(views(s@).take(0) =~= Seq::<Seq<u8>>::empty());
    }
    while j < s.len()
        invariant
            j <= s@.len(),
            c <= j,
            c == occurrences(views(s@).take(j as int), x@),
        decreases s@.len() - j,
    {
        proof {
            assert(views(s@).take(j + 1).drop_last() =~= views(s@).take(j as int));
        }
        if bytes_eq(s[j].as_slice(), x) {
            c += 1;
        }
        j += 1;
    }
    proof {
        assert(views(s@).take(s@.len() as int) =~= views(s@));
    }
    c
}

/// Every string of `sub`, as often as it occurs there, occurs in `sup`.
fn includes_all_exec(sup: &Vec<Vec<u8>>, sub: &Vec<Vec<u8>>) -> (r: bool)
    ensures
        r == includes_all(views(sup@), views(sub@)),
{
    let mut i: usize = 0;
    while i < sub.len()
        invariant
            i <= sub@.len(),
            forall|k: int| 0 <= k < i ==> occurrences(views(sub@), #[trigger] views(sub@)[k]) <= occurrences(views(sup@), views(sub@)[k]),
        decreases sub@.len() - i,
    {
        let a = count_occurrences(sub, sub[i].as_slice());
        let b = count_occurrences(sup, sub[i].as_slice());
        proof {
            assert(views(sub@)[i as int] == sub@[i as int]@);
        }
        if a > b {
            return false;
        }
        i += 1;
    }
    true
}

/// Some node in `firsts` has interface name `name`.
spec fn shape_listed(g: Graph, firsts: Seq<usize>, name: Seq<u8>) -> bool {
    exists|i: int| 0 <= i < firsts.len() && #[trigger] interface_name(g, firsts[i] as int) == name
}

/// The plain objects with at least one named property, grouped by interface
/// name: for each name the first node that has it and how many have it, in
/// the order the names are first seen; and the number of plain objects.
#[verifier::spinoff_prover]
fn collect_shapes(g: &Graph) -> (r: (Vec<usize>, Vec<u64>, u64))
    requires
        g.wf(),
    ensures
        r.0@.len() == r.1@.len(),
        r.2 == plain_count(*g, g.node_count() as int),
        forall|i: int| 0 <= i < r.0@.len() ==> {
            let f = #[trigger] r.0@[i] as int;
            &&& f < g.node_count()
            &&& has_shape(*g, f)
            &&& forall|u: int| 0 <= u < f && #[trigger] has_shape(*g, u) ==> interface_name(*g, u) != interface_name(*g, f)
            &&& r.1@[i] == definition_count(*g, f)
        },
        forall|u: int| 0 <= u < g.node_count() && #[trigger] has_shape(*g, u) ==> shape_listed(*g, r.0@, interface_name(*g, u)),
{
    let n = g.nodes.len();
    let mut firsts: Vec<usize> = Vec::new();
    let mut counts: Vec<u64> = Vec::new();
    let mut index = byte_map_new();
    let mut total: u64 = 0;
    let mut v: usize = 0;
    while v < n
        invariant
            g.wf(),
            n == g.node_count(),
            v <= n,
            total == plain_count(*g, v as int),
            total <= v,
            firsts@.len() == counts@.len(),
            forall|k: Seq<u8>| #[trigger] byte_map(index).contains_key(k) ==> byte_map(index)[k] < firsts@.len()
                && interface_name(*g, firsts@[byte_map(index)[k] as int] as int) == k,
            forall|i: int| 0 <= i < firsts@.len() ==> {
                let f = #[trigger] firsts@[i] as int;
                &&& f < v
                &&& has_shape(*g, f)
                &&& forall|u: int| 0 <= u < f && #[trigger] has_shape(*g, u) ==> interface_name(*g, u) != interface_name(*g, f)
                &&& counts@[i] == shape_count(*g, interface_name(*g, f), v as int)
                &&& counts@[i] <= v
                &&& byte_map(index).contains_key(interface_name(*g, f))
                &&& byte_map(index)[interface_name(*g, f)] == i
            },
            forall|u: int| 0 <= u < v && #[trigger] has_shape(*g, u) ==> byte_map(index).contains_key(interface_name(*g, u)),
            forall|k: Seq<u8>| !byte_map(index).contains_key(k) ==> #[trigger] shape_count(*g, k, v as int) == 0,
        decreases n - v,
    {
        let ghost vi = v as int;
        let plain = plain_object(g, v);
        if plain {
            total = total + 1;
        }
        let mut shaped = false;
        let mut name: Vec<u8> = Vec::new();
        if plain {
            let (nm, props) = interface_of(g, v);
            shaped = props.len() > 0;
            name = nm;
        }
        assert(shaped == has_shape(*g, vi));
        assert(shaped ==> name@ == interface_name(*g, vi));
        assert(forall|k: Seq<u8>| #[trigger] shape_count(*g, k, vi + 1) == shape_count(*g, k, vi) + if shaped && name@ == k { 1nat } else { 0nat });
        if shaped {
            let ghost old_map = byte_map(index);
            let ghost old_firsts = firsts@;
            let ghost old_counts = counts@;
            match byte_map_get(&index, name.as_slice()) {
                Some(ci) => {
                    let c = counts[ci];
                    counts.set(ci, c + 1);
                    proof {
                        assert forall|i: int| 0 <= i < firsts@.len() implies {
                            let f = #[trigger] firsts@[i] as int;
                            &&& f < vi + 1
                            &&& has_shape(*g, f)
                            &&& forall|u: int| 0 <= u < f && #[trigger] has_shape(*g, u) ==> interface_name(*g, u) != interface_name(*g, f)
                            &&& counts@[i] == shape_count(*g, interface_name(*g, f), vi + 1)
                            &&& counts@[i] <= vi + 1
                            &&& byte_map(index).contains_key(interface_name(*g, f))
                            &&& byte_map(index)[interface_name(*g, f)] == i
                        } by {
                            let f = firsts@[i] as int;
                            assert(shape_count(*g, interface_name(*g, f), vi + 1) == shape_count(*g, interface_name(*g, f), vi)
                                + if name@ == interface_name(*g, f) { 1nat } else { 0nat });
                            if i != ci {
                                assert(name@ != interface_name(*g, f));
                            }
                        }
                    }
                },
                None => {
                    let len = firsts.len();
                    firsts.push(v);
                    counts.push(1);
                    let key = vstd::slice::slice_to_vec(name.as_slice());
                    byte_map_insert(&mut index, key, len);
                    proof {
                        assert(shape_count(*g, name@, vi) == 0);
                        assert forall|u: int| 0 <= u < vi && #[trigger] has_shape(*g, u) implies interface_name(*g, u)
                            != interface_name(*g, vi) by {
                            assert(old_map.contains_key(interface_name(*g, u)));
                        }
                        assert forall|i: int| 0 <= i < firsts@.len() implies {
                            let f = #[trigger] firsts@[i] as int;
                            &&& f < vi + 1
                            &&& has_shape(*g, f)
                            &&& forall|u: int| 0 <= u < f && #[trigger] has_shape(*g, u) ==> interface_name(*g, u) != interface_name(*g, f)
                            &&& counts@[i] == shape_count(*g, interface_name(*g, f), vi + 1)
                            &&& counts@[i] <= vi + 1
                            &&& byte_map(index).contains_key(interface_name(*g, f))
                            &&& byte_map(index)[interface_name(*g, f)] == i
                        } by {
                            let f = firsts@[i] as int;
                            if i < len {
                                assert(old_firsts[i] == firsts@[i]);
                                assert(old_map.contains_key(interface_name(*g, f)));
                                assert(interface_name(*g, f) != name@);
                                assert(shape_count(*g, interface_name(*g, f), vi + 1) == shape_count(*g, interface_name(*g, f), vi));
                            }
                        }
                        assert forall|k: Seq<u8>| #[trigger] byte_map(index).contains_key(k) implies byte_map(index)[k] < firsts@.len()
                            && interface_name(*g, firsts@[byte_map(index)[k] as int] as int) == k by {
                            if k != name@ {
                                assert(old_map.contains_key(k));
                                assert(old_firsts[old_map[k] as int] == firsts@[old_map[k] as int]);
                            }
                        }
                    }
                },
            }
        }
        proof {
            assert forall|u: int| 0 <= u < vi + 1 && #[trigger] has_shape(*g, u) implies byte_map(index).contains_key(interface_name(*g, u)) by {
                if u < vi {
                    assert(byte_map(index).contains_key(interface_name(*g, u)));
                }
            }
        }
        v += 1;
    }
    proof {
        assert forall|u: int| 0 <= u < n && #[trigger] has_shape(*g, u) implies shape_listed(*g, firsts@, interface_name(*g, u)) by {
            let k = interface_name(*g, u);
            assert(byte_map(index).contains_key(k));
            let i = byte_map(index)[k] as int;
            assert(interface_name(*g, firsts@[i] as int) == k);
        }
    }
    (firsts, counts, total)
}

/// An interface definition: its name, its properties, how many nodes share
/// it, and the first node that has it.
struct Definition {
    name: Vec<u8>,
    properties: Vec<Vec<u8>>,
    count: u64,
    first: usize,
}

/// Some definition in `defs` starts at node `x`.
spec fn listed(defs: Seq<Definition>, x: int) -> bool {
    exists|d: int| 0 <= d < defs.len() && #[trigger] defs[d].first == x
}

proof fn lemma_listed_push(defs: Seq<Definition>, y: Definition, x: int)
    requires
        listed(defs, x),
    ensures
        listed(defs.push(y), x),
{
    let d = choose|d: int| 0 <= d < defs.len() && #[trigger] defs[d].first == x;
    assert(defs.push(y)[d].first == x);
}

/// The definition agrees with the spec of its first node.
spec fn definition_ok(g: Graph, d: Definition) -> bool {
    &&& is_definition(g, d.first as int)
    &&& d.name@ == interface_name(g, d.first as int)
    &&& views(d.properties@) == interface_props(g, d.first as int)
    &&& d.count == definition_count(g, d.first as int)
}

/// The interface definitions: one for each name shared by enough plain
/// objects.
#[verifier::spinoff_prover]
fn collect_definitions(g: &Graph) -> (r: Vec<Definition>)
    requires
        g.wf(),
    ensures
        forall|d: int| 0 <= d < r@.len() ==> definition_ok(*g, #[trigger] r@[d]),
        forall|x: int| #[trigger] is_definition(*g, x) ==> listed(r@, x),
{
    let (firsts, counts, total) = collect_shapes(g);
    let min_count: u64 = if total / 1000 > 2 { total / 1000 } else { 2 };
    assert(min_count == min_shape_count(*g));
    let mut defs: Vec<Definition> = Vec::new();
    let mut i: usize = 0;
    while i < firsts.len()
        invariant
            g.wf(),
            firsts@.len() == counts@.len(),
            min_count == min_shape_count(*g),
            i <= firsts@.len(),
            forall|j: int| 0 <= j < firsts@.len() ==> {
                let f = #[trigger] firsts@[j] as int;
                &&& f < g.node_count()
                &&& has_shape(*g, f)
                &&& forall|u: int| 0 <= u < f && #[trigger] has_shape(*g, u) ==> interface_name(*g, u) != interface_name(*g, f)
                &&& counts@[j] == definition_count(*g, f)
            },
            forall|d: int| 0 <= d < defs@.len() ==> definition_ok(*g, #[trigger] defs@[d]),
            forall|j: int| 0 <= j < i && counts@[j] >= min_count ==> listed(defs@, #[trigger] firsts@[j] as int),
        decreases firsts@.len() - i,
    {
        if counts[i] >= min_count {
            let f = firsts[i];
            let (name, props) = interface_of(g, f);
            let ghost before = defs@;
            defs.push(Definition { name, properties: props, count: counts[i], first: f });
            proof {
                assert(defs@[before.len() as int].first == firsts@[i as int]);
                assert forall|j: int| 0 <= j < i + 1 && counts@[j] >= min_count implies listed(defs@, #[trigger] firsts@[j] as int) by {
                    if j < i {
                        lemma_listed_push(before, defs@.last(), firsts@[j] as int);
                        assert(before.push(defs@.last()) == defs@);
                    }
                }
            }
        }
        i += 1;
    }
    proof {
        assert forall|x: int| #[trigger] is_definition(*g, x) implies listed(defs@, x) by {
            assert(shape_listed(*g, firsts@, interface_name(*g, x)));
            let j = choose|j: int| 0 <= j < firsts@.len() && #[trigger] interface_name(*g, firsts@[j] as int) == interface_name(*g, x);
            lemma_first_unique(*g, firsts@[j] as int, x);
            assert(counts@[j] >= min_count);
        }
    }
    defs
}

/// The entries of a string table below its old length stay when strings
/// are appended.
proof fn lemma_entry_kept(strings: Seq<Vec<u8>>, before: Seq<Vec<u8>>, after: Seq<Vec<u8>>, i: int)
    requires
        after.len() >= before.len(),
        after.subrange(0, before.len() as int) == before,
        0 <= i < strings.len() + before.len(),
    ensures
        table_entry(strings, after, i) == table_entry(strings, before, i),
{
    if i >= strings.len() {
        assert(after.subrange(0, before.len() as int)[i - strings.len()] == before[i - strings.len()]);
    }
}

/// The definition that plain object `v` takes, as an index into `defs`, or
/// `defs.len()` when none fits.
#[verifier::spinoff_prover]
fn best_definition_exec(g: &Graph, defs: &Vec<Definition>, v: usize) -> (r: usize)
    requires
        g.wf(),
        v < g.node_count(),
        is_plain_object(*g, v as int),
        forall|d: int| 0 <= d < defs@.len() ==> definition_ok(*g, #[trigger] defs@[d]),
        forall|x: int| #[trigger] is_definition(*g, x) ==> listed(defs@, x),
    ensures
        r <= defs@.len(),
        r < defs@.len() ==> interface_match(*g, v as int) == Some(defs@[r as int].first as int),
        r == defs@.len() ==> interface_match(*g, v as int) is None,
{
    let props = all_properties_exec(g, v);
    let mut best: usize = defs.len();
    let mut d: usize = 0;
    while d < defs.len()
        invariant
            g.wf(),
            views(props@) == all_properties(*g, v as int),
            forall|d: int| 0 <= d < defs@.len() ==> definition_ok(*g, #[trigger] defs@[d]),
            d <= defs@.len(),
            best <= defs@.len(),
            best == defs@.len() ==> forall|d2: int| 0 <= d2 < d ==> !fits(*g, v as int, (#[trigger] defs@[d2]).first as int),
            best < defs@.len() ==> best < d && fits(*g, v as int, defs@[best as int].first as int),
            best < defs@.len() ==> forall|d2: int| 0 <= d2 < d && fits(*g, v as int, (#[trigger] defs@[d2]).first as int)
                ==> preferred(*g, defs@[best as int].first as int, defs@[d2].first as int),
        decreases defs@.len() - d,
    {
        let fit = includes_all_exec(&props, &defs[d].properties);
        proof {
            assert(definition_ok(*g, defs@[d as int]));
        }
        assert(fit == fits(*g, v as int, defs@[d as int].first as int));
        if fit {
            let better = if best == defs.len() {
                true
            } else {
                let a = &defs[d];
                let b = &defs[best];
                a.properties.len() > b.properties.len() || (a.properties.len() == b.properties.len() && (a.count > b.count || (
                a.count == b.count && a.first < b.first)))
            };
            proof {
                if best < defs@.len() {
                    assert(definition_ok(*g, defs@[best as int]));
                    let fa = defs@[d as int].first as int;
                    let fb = defs@[best as int].first as int;
                    assert(views(defs@[d as int].properties@).len() == defs@[d as int].properties@.len());
                    assert(views(defs@[best as int].properties@).len() == defs@[best as int].properties@.len());
                    if better {
                        assert(preferred(*g, fa, fb));
                        assert forall|d2: int| 0 <= d2 < d + 1 && fits(*g, v as int, (#[trigger] defs@[d2]).first as int) implies preferred(
                            *g,
                            fa,
                            defs@[d2].first as int,
                        ) by {
                            if d2 < d {
                                lemma_preferred_trans(*g, fa, fb, defs@[d2].first as int);
                            }
                        }
                    } else {
                        assert(preferred(*g, fb, fa));
                    }
                }
            }
            if better {
                best = d;
            }
        }
        d += 1;
    }
    proof {
        if best < defs@.len() {
            let fb = defs@[best as int].first as int;
            assert forall|r2: int| #[trigger] fits(*g, v as int, r2) implies preferred(*g, fb, r2) by {
                assert(is_definition(*g, r2));
                assert(listed(defs@, r2));
                let d2 = choose|d2: int| 0 <= d2 < defs@.len() && #[trigger] defs@[d2].first == r2;
                assert(preferred(*g, fb, defs@[d2].first as int));
            }
            assert(best_definition(*g, v as int, fb));
            let c = choose|r: int| best_definition(*g, v as int, r);
            lemma_best_unique(*g, v as int, c, fb);
        } else {
            assert forall|r: int| !best_definition(*g, v as int, r) by {
                if best_definition(*g, v as int, r) {
                    assert(is_definition(*g, r));
                    assert(listed(defs@, r));
                    let d2 = choose|d2: int| 0 <= d2 < defs@.len() && #[trigger] defs@[d2].first == r;
                    assert(!fits(*g, v as int, defs@[d2].first as int));
                }
            }
        }
    }
    best
}

/// Gives each plain object the interface name of the definition it takes
/// (see `interface_match`): plain objects that share an interface name
/// with enough others define it, and a plain object takes the definition
/// with the most properties, all of which it has, then the one most nodes
/// share, then the one seen first. The names are appended to the table;
/// other nodes, and plain objects that no definition fits, keep their
/// class.
#[verifier::spinoff_prover]
pub fn apply_interface_definitions(g: &Graph, classes: &mut Vec<usize>, appended: &mut Vec<Vec<u8>>)
    requires
        g.wf(),
        old(classes)@.len() == g.node_count(),
        old(appended)@.len() + plain_count(*g, g.node_count() as int) <= g.node_count(),
        g.strings@.len() + g.node_count() < usize::MAX,
        forall|v: int| 0 <= v < g.node_count() ==> (#[trigger] old(classes)@[v]) < g.strings@.len() + old(appended)@.len(),
    ensures
        final(classes)@.len() == g.node_count(),
        final(appended)@.len() >= old(appended)@.len(),
        final(appended)@.len() <= old(appended)@.len() + plain_count(*g, g.node_count() as int),
        final(appended)@.subrange(0, old(appended)@.len() as int) == old(appended)@,
        forall|v: int| 0 <= v < g.node_count() ==> (#[trigger] final(classes)@[v]) < g.strings@.len() + final(appended)@.len(),
        forall|v: int| 0 <= v < g.node_count() ==> match interface_match(*g, v) {
            Some(r) => table_entry(g.strings@, final(appended)@, #[trigger] final(classes)@[v] as int) == interface_name(*g, r),
            None => final(classes)@[v] == old(classes)@[v],
        },
{
    let defs = collect_definitions(g);
    let n = g.nodes.len();
    let sl = g.strings.len();
    let ghost old_classes = classes@;
    let ghost old_app = appended@;
    let mut iface = byte_map_new();
    let mut v: usize = 0;
    proof {
        assert(appended@.subrange(0, old_app.len() as int) =~= old_app);
        lemma_plain_count_bounds(*g, 0, n as int);
    }
    while v < n
        invariant
            g.wf(),
            n == g.node_count(),
            sl == g.strings@.len(),
            sl + n < usize::MAX,
            v <= n,
            old_classes == old(classes)@,
            old_app == old(appended)@,
            old_app.len() + plain_count(*g, n as int) <= n,
            forall|d: int| 0 <= d < defs@.len() ==> definition_ok(*g, #[trigger] defs@[d]),
            forall|x: int| #[trigger] is_definition(*g, x) ==> listed(defs@, x),
            classes@.len() == n,
            appended@.len() >= old_app.len(),
            appended@.len() <= old_app.len() + plain_count(*g, v as int),
            appended@.subrange(0, old_app.len() as int) == old_app,
            table_ok(g.strings@, appended@, byte_map(iface)),
            forall|u: int| 0 <= u < n ==> (#[trigger] classes@[u]) < sl + appended@.len(),
            forall|u: int| v <= u < n ==> #[trigger] classes@[u] == old_classes[u],
            forall|u: int| 0 <= u < v ==> match interface_match(*g, u) {
                Some(r) => table_entry(g.strings@, appended@, #[trigger] classes@[u] as int) == interface_name(*g, r),
                None => classes@[u] == old_classes[u],
            },
        decreases n - v,
    {
        let ghost vi = v as int;
        proof {
            lemma_plain_count_bounds(*g, vi, n as int);
            lemma_plain_count_bounds(*g, vi, vi + 1);
        }
        if plain_object(g, v) {
            let b = best_definition_exec(g, &defs, v);
            if b < defs.len() {
                let nm = vstd::slice::slice_to_vec(defs[b].name.as_slice());
                let ghost before = appended@;
                let ghost cls_before = classes@;
                proof {
                    assert(definition_ok(*g, defs@[b as int]));
                }
                let idx = intern(sl, appended, &mut iface, nm, Ghost(g.strings@));
                classes.set(v, idx);
                proof {
                    assert forall|x: int| 0 <= x < old_app.len() implies appended@[x] == old_app[x] by {
                        assert(appended@.subrange(0, before.len() as int)[x] == before[x]);
                        assert(before.subrange(0, old_app.len() as int)[x] == old_app[x]);
                    }
                    assert(appended@.subrange(0, old_app.len() as int) =~= old_app);
                    assert forall|u: int| 0 <= u < vi + 1 implies match interface_match(*g, u) {
                        Some(r) => table_entry(g.strings@, appended@, #[trigger] classes@[u] as int) == interface_name(*g, r),
                        None => classes@[u] == old_classes[u],
                    } by {
                        if u < vi {
                            lemma_entry_kept(g.strings@, before, appended@, cls_before[u] as int);
                        }
                    }
                }
            } else {
                assert(interface_match(*g, vi) is None);
            }
        } else {
            assert(interface_match(*g, vi) is None);
        }
        v += 1;
    }
}

} // verus!
