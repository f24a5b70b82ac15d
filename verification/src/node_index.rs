//! The mapping from node identifier to the slot of its entry.
//!
//! The table is a `hashbrown::HashMap<u32, usize>`. Verus cannot declare
//! that type (its allocator parameter is bounded by a crate-private trait),
//! so the map sits in a field of an opaque struct, and the trusted
//! functions below give each call a contract over the abstract
//! `Map<u32, usize>` the table represents.

use vstd::prelude::*;

verus! {

/// An index from node identifier to entry slot, backed by a hash table.
#[verifier::external_body]
pub struct NodeIndex {
    table: hashbrown::HashMap<u32, usize>,
}

/// The key-to-slot mapping a `NodeIndex` holds.
pub uninterp spec fn index_entries(m: NodeIndex) -> Map<u32, usize>;

/// Relies on `hashbrown::HashMap::with_capacity`: the new table is empty.
#[verifier::external_body]
pub fn index_with_capacity(capacity: usize) -> (r: NodeIndex)
    ensures
        index_entries(r).dom() == Set::<u32>::empty(),
{
    NodeIndex { table: hashbrown::HashMap::with_capacity(capacity) }
}

/// Relies on `hashbrown::HashMap::get`: the slot stored under the key, if
/// the key is present.
#[verifier::external_body]
pub fn index_get(m: &NodeIndex, key: u32) -> (r: Option<usize>)
    ensures
        match r {
            Some(slot) => index_entries(*m).dom().contains(key)
                && index_entries(*m)[key] == slot,
            None => !index_entries(*m).dom().contains(key),
        },
{
    m.table.get(&key).copied()
}

/// Relies on `hashbrown::HashMap::insert`: stores the slot under the key,
/// replacing any earlier slot.
#[verifier::external_body]
pub fn index_insert(m: &mut NodeIndex, key: u32, slot: usize)
    ensures
        index_entries(*final(m)) == index_entries(*old(m)).insert(key, slot),
{
    m.table.insert(key, slot);
}

} // verus!
