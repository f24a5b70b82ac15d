//! Compressed ordered sets of node identifiers.
//!
//! The storage is `roaring::RoaringBitmap`; the small trusted layer below
//! gives each call a contract over the abstract set of values the bitmap
//! holds, and the verified `AdjacencySet` type builds on those contracts.

use vstd::prelude::*;
use roaring::RoaringBitmap;

verus! {

#[verifier::external_type_specification]
#[verifier::external_body]
pub struct ExRoaringBitmap(RoaringBitmap);

/// The set of 32-bit values a `RoaringBitmap` holds.
pub uninterp spec fn bitmap_elems(b: RoaringBitmap) -> Set<u32>;

/// Relies on `RoaringBitmap::new`: the new bitmap holds no values.
#[verifier::external_body]
fn bitmap_new() -> (r: RoaringBitmap)
    ensures
        bitmap_elems(r) == Set::<u32>::empty(),
{
    RoaringBitmap::new()
}

/// Relies on `RoaringBitmap::insert`: adds the value to the set and
/// returns whether it was absent.
#[verifier::external_body]
fn bitmap_insert(b: &mut RoaringBitmap, value: u32) -> (r: bool)
    ensures
        bitmap_elems(*final(b)) == bitmap_elems(*old(b)).insert(value),
        r == !bitmap_elems(*old(b)).contains(value),
{
    b.insert(value)
}

/// Relies on `RoaringBitmap::remove`: takes the value out of the set and
/// returns whether it was present.
#[verifier::external_body]
fn bitmap_remove(b: &mut RoaringBitmap, value: u32) -> (r: bool)
    ensures
        bitmap_elems(*final(b)) == bitmap_elems(*old(b)).remove(value),
        r == bitmap_elems(*old(b)).contains(value),
{
    b.remove(value)
}

/// Relies on `RoaringBitmap::contains`: membership test.
#[verifier::external_body]
fn bitmap_contains(b: &RoaringBitmap, value: u32) -> (r: bool)
    ensures
        r == bitmap_elems(*b).contains(value),
{
    b.contains(value)
}

/// Relies on `RoaringBitmap`'s `Clone`: the copy holds the same values.
#[verifier::external_body]
fn bitmap_clone(b: &RoaringBitmap) -> (r: RoaringBitmap)
    ensures
        bitmap_elems(r) == bitmap_elems(*b),
{
    b.clone()
}

/// Relies on `RoaringBitmap::iter`: values come out ordered by value, each
/// present value exactly once.
#[verifier::external_body]
fn bitmap_to_vec(b: &RoaringBitmap) -> (r: Vec<u32>)
    ensures
        forall|i: int, j: int| 0 <= i < j < r@.len() ==> r@[i] < r@[j],
        forall|i: int| 0 <= i < r@.len() ==> bitmap_elems(*b).contains(r@[i]),
        forall|v: u32| bitmap_elems(*b).contains(v) ==> r@.contains(v),
{
    b.iter().collect()
}

/// One direction (outgoing or incoming) of a node's edges: a compressed
/// ordered set of 32-bit node identifiers.
///
/// Its view is the abstract `Set<u32>` of members.
pub struct AdjacencySet {
    bits: RoaringBitmap,
}

impl View for AdjacencySet {
    type V = Set<u32>;

    closed spec fn view(&self) -> Set<u32> {
        bitmap_elems(self.bits)
    }
}

impl AdjacencySet {
    /// The empty set.
    pub fn new() -> (r: Self)
        ensures
            r@ == Set::<u32>::empty(),
    {
        AdjacencySet { bits: bitmap_new() }
    }

    /// Inserts a value; returns whether it was newly added.
    pub fn insert(&mut self, value: u32) -> (r: bool)
        ensures
            final(self)@ == old(self)@.insert(value),
            r == !old(self)@.contains(value),
    {
        bitmap_insert(&mut self.bits, value)
    }

    /// Removes a value; returns whether it was present.
    pub fn remove(&mut self, value: u32) -> (r: bool)
        ensures
            final(self)@ == old(self)@.remove(value),
            r == old(self)@.contains(value),
    {
        bitmap_remove(&mut self.bits, value)
    }

    /// Membership test.
    pub fn contains(&self, value: u32) -> (r: bool)
        ensures
            r == self@.contains(value),
    {
        bitmap_contains(&self.bits, value)
    }

    /// An independent copy with the same members.
    pub fn snapshot(&self) -> (r: Self)
        ensures
            r@ == self@,
    {
        AdjacencySet { bits: bitmap_clone(&self.bits) }
    }

    /// The members in strictly ascending order.
    pub fn to_sorted_vec(&self) -> (r: Vec<u32>)
        ensures
            forall|i: int, j: int| 0 <= i < j < r@.len() ==> r@[i] < r@[j],
            forall|i: int| 0 <= i < r@.len() ==> self@.contains(r@[i]),
            forall|v: u32| self@.contains(v) ==> r@.contains(v),
    {
        bitmap_to_vec(&self.bits)
    }
}

} // verus!
