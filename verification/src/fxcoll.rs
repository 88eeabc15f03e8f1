use vstd::prelude::*;
use rustc_hash::{FxBuildHasher, FxHashMap, FxHashSet};

verus! {

/// A `rustc_hash` set of byte strings.
pub type ByteSet = FxHashSet<Vec<u8>>;

/// A `rustc_hash` map from byte strings to indices.
pub type ByteMap = FxHashMap<Vec<u8>, usize>;

/// A `rustc_hash` map from node ordinals to context ids.
pub type IdMap = FxHashMap<usize, u32>;

/// The hasher that `rustc_hash` builds its maps and sets with.
#[verifier::external_type_specification]
#[verifier::external_body]
pub struct ExFxBuildHasher(FxBuildHasher);

/// The byte strings a `ByteSet` holds.
pub uninterp spec fn byte_set(s: ByteSet) -> Set<Seq<u8>>;

/// The entries a `ByteMap` holds, keyed by byte string.
pub uninterp spec fn byte_map(m: ByteMap) -> Map<Seq<u8>, usize>;

/// The entries an `IdMap` holds.
pub uninterp spec fn id_map(m: IdMap) -> Map<usize, u32>;

/// `FxHashSet::default`: a new set is empty.
#[verifier::external_body]
pub fn byte_set_new() -> (s: ByteSet)
    ensures
        byte_set(s) == Set::<Seq<u8>>::empty(),
{
    FxHashSet::default()
}

/// `HashSet::insert` on a `ByteSet`: adds the bytes; returns
/// whether they were absent.
#[verifier::external_body]
pub fn byte_set_insert(s: &mut ByteSet, v: Vec<u8>) -> (r: bool)
    ensures
        byte_set(*final(s)) == byte_set(*old(s)).insert(v@),
        r == !byte_set(*old(s)).contains(v@),
{
    s.insert(v)
}

/// `HashSet::remove` on a `ByteSet`: drops the bytes; returns
/// whether they were present.
#[verifier::external_body]
pub fn byte_set_remove(s: &mut ByteSet, v: &[u8]) -> (r: bool)
    ensures
        byte_set(*final(s)) == byte_set(*old(s)).remove(v@),
        r == byte_set(*old(s)).contains(v@),
{
    s.remove(v)
}

/// `HashSet::contains` on a `ByteSet`.
#[verifier::external_body]
pub fn byte_set_contains(s: &ByteSet, v: &[u8]) -> (r: bool)
    ensures
        r == byte_set(*s).contains(v@),
{
    s.contains(v)
}

/// `HashSet::iter` on a `ByteSet`, collected: every element once,
/// in the order the set walks them (which this contract leaves open).
#[verifier::external_body]
pub fn byte_set_elements(s: &ByteSet) -> (r: Vec<Vec<u8>>)
    ensures
        forall|i: int| 0 <= i < r@.len() ==> byte_set(*s).contains(#[trigger] r@[i]@),
        forall|x: Seq<u8>| #[trigger] byte_set(*s).contains(x) ==> exists|i: int|
            0 <= i < r@.len() && r@[i]@ == x,
        forall|i: int, j: int| 0 <= i < j < r@.len() ==> r@[i]@ != r@[j]@,
{
    s.iter().cloned().collect()
}

/// `FxHashMap::default`: a new map is empty.
#[verifier::external_body]
pub fn byte_map_new() -> (r: ByteMap)
    ensures
        byte_map(r).dom() == Set::<Seq<u8>>::empty(),
{
    FxHashMap::default()
}

/// `HashMap::get` on a `ByteMap`.
#[verifier::external_body]
pub fn byte_map_get(m: &ByteMap, k: &[u8]) -> (r: Option<usize>)
    ensures
        match r {
            Some(v) => byte_map(*m).contains_key(k@) && byte_map(*m)[k@] == v,
            None => !byte_map(*m).contains_key(k@),
        },
{
    m.get(k).copied()
}

/// `HashMap::insert` on a `ByteMap`.
#[verifier::external_body]
pub fn byte_map_insert(m: &mut ByteMap, k: Vec<u8>, v: usize)
    ensures
        byte_map(*final(m)) == byte_map(*old(m)).insert(k@, v),
{
    m.insert(k, v);
}

/// `FxHashMap::default`: a new map is empty.
#[verifier::external_body]
pub fn id_map_new() -> (r: IdMap)
    ensures
        id_map(r).dom() == Set::<usize>::empty(),
{
    FxHashMap::default()
}

/// `HashMap::get` on an `IdMap`.
#[verifier::external_body]
pub fn id_map_get(m: &IdMap, k: usize) -> (r: Option<u32>)
    ensures
        match r {
            Some(v) => id_map(*m).contains_key(k) && id_map(*m)[k] == v,
            None => !id_map(*m).contains_key(k),
        },
{
    m.get(&k).copied()
}

/// `HashMap::insert` on an `IdMap`.
#[verifier::external_body]
pub fn id_map_insert(m: &mut IdMap, k: usize, v: u32)
    ensures
        id_map(*final(m)) == id_map(*old(m)).insert(k, v),
{
    m.insert(k, v);
}

} // verus!
