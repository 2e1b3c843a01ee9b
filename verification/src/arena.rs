//! The storage of the quadtree: the slab that holds the node records and the
//! map that finds a node by its children.

use vstd::prelude::*;
use crate::node::{ChildKey, NodeData};
use rustc_hash::FxHashMap;
use slab::Slab;

verus! {

/// `Slab` of slab: storage that hands out a key for each value put into it.
/// What a slab of node records holds is named by `slab_entries`.
#[verifier::external_type_specification]
#[verifier::external_body]
#[verifier::reject_recursive_types(T)]
pub struct ExSlab<T>(Slab<T>);

/// `FxBuildHasher` of rustc_hash: the builder of the hasher of the
/// canonicalization map. It has no state.
#[verifier::external_type_specification]
#[verifier::external_body]
pub struct ExFxBuildHasher(rustc_hash::FxBuildHasher);

/// The canonicalization map: from the key of a child tuple to the arena key
/// of the node with these children.
pub type NodeTable = FxHashMap<ChildKey, usize>;

/// The occupied slots of a slab of node records: which key holds which
/// record.
pub uninterp spec fn slab_entries(slab: Slab<NodeData>) -> Map<usize, NodeData>;

/// `Slab::new`: a slab without entries.
#[verifier::external_body]
pub(crate) fn slab_new() -> (slab: Slab<NodeData>)
    ensures
        forall|key: usize| !slab_entries(slab).contains_key(key),
{
    Slab::new()
}

/// `Slab::len`: the number of occupied slots.
#[verifier::external_body]
pub(crate) fn slab_len(slab: &Slab<NodeData>) -> (count: usize)
    ensures
        count == slab_entries(*slab).dom().len(),
{
    slab.len()
}

/// Indexing a slab by an occupied key: the record stored under it.
#[verifier::external_body]
pub(crate) fn slab_get(slab: &Slab<NodeData>, key: usize) -> (data: NodeData)
    requires
        slab_entries(*slab).contains_key(key),
    ensures
        data == slab_entries(*slab)[key],
{
    slab[key]
}

/// `Slab::insert`: stores the record under a key that was vacant and returns
/// the key; the other entries stay.
#[verifier::external_body]
pub(crate) fn slab_insert(slab: &mut Slab<NodeData>, data: NodeData) -> (key: usize)
    ensures
        !slab_entries(*old(slab)).contains_key(key),
        slab_entries(*final(slab)) == slab_entries(*old(slab)).insert(key, data),
{
    slab.insert(data)
}

/// Assigning through the mutable index of a slab at an occupied key: the
/// record under that key is replaced; the other entries stay.
#[verifier::external_body]
pub(crate) fn slab_replace(slab: &mut Slab<NodeData>, key: usize, data: NodeData)
    requires
        slab_entries(*old(slab)).contains_key(key),
    ensures
        slab_entries(*final(slab)) == slab_entries(*old(slab)).insert(key, data),
{
    slab[key] = data;
}

/// `Slab::clear`: no entry is left.
#[verifier::external_body]
pub(crate) fn slab_clear(slab: &mut Slab<NodeData>)
    ensures
        forall|key: usize| !slab_entries(*final(slab)).contains_key(key),
{
    slab.clear();
}

/// The keys that `Slab::iter` yields: each occupied key once.
#[verifier::external_body]
pub(crate) fn slab_keys(slab: &Slab<NodeData>) -> (keys: Vec<usize>)
    ensures
        keys@.no_duplicates(),
        forall|key: usize| keys@.contains(key) <==> slab_entries(*slab).contains_key(key),
{
    slab.iter().map(|(key, _)| key).collect()
}

/// `Slab::retain` with `NodeData::take_mark` as the predicate: the marked
/// entries stay under their keys, with the mark cleared; the others leave.
#[verifier::external_body]
pub(crate) fn slab_retain_marked(slab: &mut Slab<NodeData>)
    ensures
        forall|key: usize|
            slab_entries(*final(slab)).contains_key(key) <==> slab_entries(*old(slab)).contains_key(
                key,
            ) && slab_entries(*old(slab))[key].gc_mark,
        forall|key: usize| #[trigger]
            slab_entries(*final(slab)).contains_key(key) ==> slab_entries(*final(slab))[key] == (
            NodeData { gc_mark: false, ..slab_entries(*old(slab))[key] }),
{
    slab.retain(|_, data| data.take_mark());
}

/// `FxHashMap::default`: an empty map.
#[verifier::external_body]
pub(crate) fn table_new() -> (table: NodeTable)
    ensures
        forall|key: ChildKey| !table@.contains_key(key),
{
    FxHashMap::default()
}

/// `HashMap::get`, copied: the value stored under the key, if there is one.
#[verifier::external_body]
pub(crate) fn table_get(table: &NodeTable, key: ChildKey) -> (value: Option<usize>)
    ensures
        value == (if table@.contains_key(key) {
            Some(table@[key])
        } else {
            None
        }),
{
    table.get(&key).copied()
}

/// `HashMap::insert`: the key now maps to the value; the other entries stay.
#[verifier::external_body]
pub(crate) fn table_insert(table: &mut NodeTable, key: ChildKey, value: usize)
    ensures
        final(table)@ == old(table)@.insert(key, value),
{
    table.insert(key, value);
}

/// `HashMap::clear`: no entry is left.
#[verifier::external_body]
pub(crate) fn table_clear(table: &mut NodeTable)
    ensures
        forall|key: ChildKey| !final(table)@.contains_key(key),
{
    table.clear();
}

} // verus!
