//! Identifiers shared by the engine: turf and mixture handles, gas and reaction ids.
use vstd::prelude::*;

verus! {

/// Dense identifier of an installed gas.
#[derive(Clone, Copy, Debug, PartialEq, Eq, Hash, PartialOrd, Ord)]
pub struct GasId(pub u16);

/// Dense identifier of an installed reaction.
#[derive(Clone, Copy, Debug, PartialEq, Eq, Hash, PartialOrd, Ord)]
pub struct ReactionId(pub u32);

/// A generation-checked reference to a turf slot.
#[derive(Clone, Copy, Debug, PartialEq, Eq, Hash, PartialOrd, Ord)]
pub struct TurfHandle {
    pub slot: u32,
    pub generation: u32,
}

/// A generation-checked reference to a mixture slot.
#[derive(Clone, Copy, Debug, PartialEq, Eq, Hash, PartialOrd, Ord)]
pub struct MixtureHandle {
    pub slot: u32,
    pub generation: u32,
}

/// Strict lexicographic order on `(slot, generation)` pairs, the order handles sort by.
pub open spec fn pair_lt(a_slot: u32, a_gen: u32, b_slot: u32, b_gen: u32) -> bool {
    a_slot < b_slot || (a_slot == b_slot && a_gen < b_gen)
}

impl TurfHandle {
    /// Whether `self` sorts strictly before `other`.
    pub open spec fn precedes(self, other: TurfHandle) -> bool {
        pair_lt(self.slot, self.generation, other.slot, other.generation)
    }

    /// Executable form of [`TurfHandle::precedes`].
    pub fn before(&self, other: &TurfHandle) -> (r: bool)
        ensures
            r == self.precedes(*other),
    {
        self.slot < other.slot || (self.slot == other.slot && self.generation < other.generation)
    }

    /// Field-wise equality.
    pub fn same(&self, other: &TurfHandle) -> (r: bool)
        ensures
            r == (*self == *other),
    {
        self.slot == other.slot && self.generation == other.generation
    }
}

impl MixtureHandle {
    /// Whether `self` sorts strictly before `other`.
    pub open spec fn precedes(self, other: MixtureHandle) -> bool {
        pair_lt(self.slot, self.generation, other.slot, other.generation)
    }

    /// Executable form of [`MixtureHandle::precedes`].
    pub fn before(&self, other: &MixtureHandle) -> (r: bool)
        ensures
            r == self.precedes(*other),
    {
        self.slot < other.slot || (self.slot == other.slot && self.generation < other.generation)
    }

    /// Field-wise equality.
    pub fn same(&self, other: &MixtureHandle) -> (r: bool)
        ensures
            r == (*self == *other),
    {
        self.slot == other.slot && self.generation == other.generation
    }
}

} // verus!
