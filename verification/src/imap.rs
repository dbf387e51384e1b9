//! Trusted boundary around `indexmap::IndexMap`, the insertion-ordered map
//! that backs the builder's adjacency lists and the graph's name-to-index
//! table.
//!
//! The map itself is opaque to the verifier. Its contents are named by
//! uninterpreted spec functions: the key sequence (in insertion order) and
//! the key-to-value map. Every method the crate calls goes through a wrapper
//! below whose contract states, over those names, what the indexmap
//! documentation promises.

use vstd::prelude::*;

use indexmap::IndexMap;

use crate::graph::str_views;

verus! {

/// An insertion-ordered map from node name to accumulated neighbour names.
pub type LinksMap = IndexMap<String, Vec<String>>;

/// An insertion-ordered map from node name to dense index.
pub type NameIndexMap = IndexMap<String, usize>;

/// One accumulated entry: a node name and its neighbour names.
pub type LinkEntry = (String, Vec<String>);

#[verifier::external_type_specification]
#[verifier::external_body]
#[verifier::reject_recursive_types(K)]
#[verifier::reject_recursive_types(V)]
#[verifier::reject_recursive_types(S)]
pub struct ExIndexMap<K, V, S>(IndexMap<K, V, S>);

/// The keys of an adjacency-list map, in insertion order.
pub uninterp spec fn links_keys(m: LinksMap) -> Seq<Seq<char>>;

/// The key-to-neighbour-list contents of an adjacency-list map.
pub uninterp spec fn links_map(m: LinksMap) -> Map<Seq<char>, Seq<Seq<char>>>;

/// The key-to-index contents of a name-to-index map.
pub uninterp spec fn index_map(m: NameIndexMap) -> Map<Seq<char>, usize>;

/// An empty adjacency-list contents map.
pub open spec fn empty_links() -> Map<Seq<char>, Seq<Seq<char>>> {
    Map::empty()
}

/// An empty name-to-index contents map.
pub open spec fn empty_index() -> Map<Seq<char>, usize> {
    Map::empty()
}

/// The key sequence and key-value map of an `IndexMap` always agree: the map
/// is defined exactly on the keys, and no key repeats.
pub open spec fn links_wf(m: LinksMap) -> bool {
    &&& links_keys(m).no_duplicates()
    &&& links_keys(m).to_set() == links_map(m).dom()
}

/// Relies on `IndexMap::new`: makes an empty map.
#[verifier::external_body]
pub(crate) fn links_new() -> (m: LinksMap)
    ensures
        links_keys(m) == Seq::<Seq<char>>::empty(),
        links_map(m) == empty_links(),
{
    IndexMap::new()
}

/// Relies on `IndexMap::len`: the number of entries.
#[verifier::external_body]
pub(crate) fn links_len(m: &LinksMap) -> (r: usize)
    ensures
        r == links_keys(*m).len(),
{
    m.len()
}

/// Relies on `IndexMap::get`: the value stored for the key, if present.
#[verifier::external_body]
pub(crate) fn links_get(m: &LinksMap, k: &String) -> (r: Option<Vec<String>>)
    ensures
        r is Some <==> links_map(*m).dom().contains(k@),
        r matches Some(v) ==> str_views(v@) == links_map(*m)[k@],
{
    m.get(k).cloned()
}

/// Relies on `IndexMap::insert`: a new key is appended at the end of the
/// order, an existing key keeps its place and has its value replaced.
#[verifier::external_body]
pub(crate) fn links_insert(m: &mut LinksMap, k: String, v: Vec<String>)
    ensures
        links_map(*final(m)) == links_map(*old(m)).insert(k@, str_views(v@)),
        links_keys(*final(m)) == (if links_map(*old(m)).dom().contains(k@) {
            links_keys(*old(m))
        } else {
            links_keys(*old(m)).push(k@)
        }),
        links_wf(*old(m)) ==> links_wf(*final(m)),
{
    m.insert(k, v);
}

/// Relies on `IndexMap::get_index`: the entry at the given place in the
/// insertion order, if the place is within bounds.
#[verifier::external_body]
pub(crate) fn links_get_index(m: &LinksMap, i: usize) -> (r: Option<LinkEntry>)
    ensures
        r is Some <==> i < links_keys(*m).len(),
        r matches Some(p) ==> p.0@ == links_keys(*m)[i as int] && str_views(p.1@) == links_map(
            *m,
        )[links_keys(*m)[i as int]],
{
    m.get_index(i).map(|(k, v)| (k.clone(), v.clone()))
}

/// Relies on `IndexMap::new`: makes an empty map.
#[verifier::external_body]
pub(crate) fn idx_new() -> (m: NameIndexMap)
    ensures
        index_map(m) == empty_index(),
{
    IndexMap::new()
}

/// Relies on `IndexMap::insert`: the value stored for the key becomes `v`,
/// other keys are untouched.
#[verifier::external_body]
pub(crate) fn idx_insert(m: &mut NameIndexMap, k: String, v: usize)
    ensures
        index_map(*final(m)) == index_map(*old(m)).insert(k@, v),
{
    m.insert(k, v);
}

/// Relies on `IndexMap::get`: the value stored for the key, if present.
#[verifier::external_body]
pub(crate) fn idx_get(m: &NameIndexMap, k: &str) -> (r: Option<usize>)
    ensures
        r is Some <==> index_map(*m).dom().contains(k@),
        r matches Some(i) ==> i == index_map(*m)[k@],
{
    m.get(k).copied()
}

} // verus!
