//! Trusted bindings to the `im` crate's persistent collections.
//!
//! The tree stores its vertex table in an `im::HashMap` and its
//! deepest-vertex order in an `im::OrdSet`; both are persistent structures
//! with structural sharing, so every mutation returns a new value and old
//! snapshots stay independently readable.  Verus sees these types as opaque;
//! the uninterpreted view functions below name their contents, and each
//! wrapper states over those views what the called method does, as the `im`
//! source shows it.

use crate::tree_lib::Vertex;
use vstd::prelude::*;

verus! {

#[verifier::external_type_specification]
#[verifier::external_body]
#[verifier::reject_recursive_types(K)]
#[verifier::reject_recursive_types(V)]
#[verifier::reject_recursive_types(S)]
pub struct ExImHashMap<K, V, S>(im::HashMap<K, V, S>);

#[verifier::external_type_specification]
#[verifier::external_body]
#[verifier::reject_recursive_types(A)]
pub struct ExImOrdSet<A>(im::OrdSet<A>);

/// The persistent vertex table and the persistent deepest-order set.
pub type VertexMap = im::HashMap<u32, Vertex>;

pub type DepthKey = (u32, u32);

pub type DepthSet = im::OrdSet<DepthKey>;

/// The key/value contents of a persistent vertex table.
pub uninterp spec fn vertex_map_view(m: VertexMap) -> Map<u32, Vertex>;

pub open spec fn vertex_map_empty() -> Map<u32, Vertex> {
    Map::empty()
}

/// The element contents of a persistent set of `(depth, flipped index)` keys.
pub uninterp spec fn depth_set_view(s: DepthSet) -> Set<DepthKey>;

pub open spec fn depth_set_empty() -> Set<DepthKey> {
    Set::empty()
}

/// Lexicographic order on `(depth, flipped index)` keys; `std` documents this
/// as the derived `Ord` of a pair of integers.
pub open spec fn key_le(a: DepthKey, b: DepthKey) -> bool {
    a.0 < b.0 || (a.0 == b.0 && a.1 <= b.1)
}

/// Strict lexicographic order on `(depth, flipped index)` keys.
pub open spec fn key_lt(a: DepthKey, b: DepthKey) -> bool {
    a.0 < b.0 || (a.0 == b.0 && a.1 < b.1)
}

/// Relies on `im::OrdSet::iter`: traverses the set's elements in ascending
/// order under the derived lexicographic order of `(u32, u32)`, each element
/// exactly once.
#[verifier::external_body]
pub(crate) fn depth_set_to_vec(s: &DepthSet) -> (r: Vec<DepthKey>)
    ensures
        forall|i: int| 0 < i < r@.len() ==> key_lt(r@[i - 1], #[trigger] r@[i]),
        forall|x: DepthKey| r@.contains(x) <==> depth_set_view(*s).contains(x),
{
    s.iter().copied().collect()
}

/// Relies on `im::HashMap`'s `Clone`: an O(1) copy that shares the whole
/// structure with the original, so it holds the same contents.
pub assume_specification<K, V, S>[ <im::HashMap<K, V, S> as Clone>::clone ](
    m: &im::HashMap<K, V, S>,
) -> (r: im::HashMap<K, V, S>)
    where
        K: Clone,
        V: Clone,
    ensures
        r == *m,
;

/// Relies on `im::OrdSet`'s `Clone`: an O(1) copy that shares the whole
/// structure with the original, so it holds the same contents.
pub assume_specification<A>[ <im::OrdSet<A> as Clone>::clone ](s: &im::OrdSet<A>) -> (r: im::OrdSet<
    A,
>)
    ensures
        r == *s,
;

/// Relies on `im::HashMap::new`: constructs an empty map.
#[verifier::external_body]
pub(crate) fn vertex_map_new() -> (r: VertexMap)
    ensures
        vertex_map_view(r) == vertex_map_empty(),
{
    im::HashMap::new()
}

/// Relies on `im::HashMap::update`: returns a copy of the map with the key
/// bound to the value, sharing unchanged structure with the original.
#[verifier::external_body]
pub(crate) fn vertex_map_update(m: &VertexMap, k: u32, v: Vertex) -> (r: VertexMap)
    ensures
        vertex_map_view(r) == vertex_map_view(*m).insert(k, v),
{
    m.update(k, v)
}

/// Relies on `im::HashMap::get`: returns the value bound to the key, if any.
#[verifier::external_body]
pub(crate) fn vertex_map_get(m: &VertexMap, k: u32) -> (r: Option<Vertex>)
    ensures
        r == if vertex_map_view(*m).dom().contains(k) {
            Some(vertex_map_view(*m)[k])
        } else {
            None::<Vertex>
        },
{
    m.get(&k).copied()
}

/// Relies on `im::OrdSet::new`: constructs an empty set.
#[verifier::external_body]
pub(crate) fn depth_set_new() -> (r: DepthSet)
    ensures
        depth_set_view(r) == depth_set_empty(),
{
    im::OrdSet::new()
}

/// Relies on `im::OrdSet::update`: returns a copy of the set with the element
/// added, sharing unchanged structure with the original.
#[verifier::external_body]
pub(crate) fn depth_set_update(s: &DepthSet, a: DepthKey) -> (r: DepthSet)
    ensures
        depth_set_view(r) == depth_set_view(*s).insert(a),
{
    s.update(a)
}

/// Relies on `im::OrdSet::get_max`: returns the largest element under the
/// derived lexicographic order of `(u32, u32)`, or `None` when empty.
#[verifier::external_body]
pub(crate) fn depth_set_get_max(s: &DepthSet) -> (r: Option<DepthKey>)
    ensures
        match r {
            Some(m) => depth_set_view(*s).contains(m) && forall|x: DepthKey|
                depth_set_view(*s).contains(x) ==> key_le(x, m),
            None => forall|x: DepthKey| !depth_set_view(*s).contains(x),
        },
{
    s.get_max().copied()
}

} // verus!
