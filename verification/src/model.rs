use vstd::prelude::*;

verus! {

/// One stored entry: its identifier and its vector. A component is held as
/// the bit pattern of an IEEE-754 binary32 number.
pub struct Record {
    pub id: u64,
    pub vector: Seq<u32>,
}

/// What a store holds: its dimension and its entries in insertion order.
pub struct StoreModel {
    pub dimension: u64,
    pub entries: Seq<Record>,
}

/// The dimension is positive, every vector has that length, and the number
/// of entries fits a 64-bit count.
pub open spec fn well_formed(s: StoreModel) -> bool {
    &&& s.dimension > 0
    &&& s.entries.len() <= u64::MAX
    &&& forall|i: int|
        0 <= i < s.entries.len() ==> (#[trigger] s.entries[i]).vector.len() == s.dimension
}

/// The identifiers of the entries, in insertion order.
pub open spec fn ids_of(entries: Seq<Record>) -> Seq<u64> {
    entries.map_values(|r: Record| r.id)
}

} // verus!
