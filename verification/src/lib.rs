//! Verified core of the Dogmos atmospherics engine: generation-checked slot storage,
//! transactional candidate sets, packed turf topology, frontier uploads, versioned
//! publication, diffusion graph validation, canonical conduction edges, lifecycle, adjacency
//! and stage admission, pending continuations and events, the world's error mappings, and the
//! game-facing text and word encodings.
use vstd::prelude::*;

pub mod adjacency;
pub mod alloc_stats;
pub mod bindings;
pub mod bitset;
pub mod byond;
pub mod component;
pub mod conduction;
pub mod continuations;
pub mod diffusion;
pub mod events;
pub mod frontier;
pub mod handles;
pub mod lifecycle;
pub mod metadata;
pub mod reactions;
pub mod slot_index;
pub mod stage_cursor;
pub mod text;
pub mod topology;
pub mod transaction;
pub mod versioned;
pub mod world;

verus! {

/// Number of gas slots tracked per mixture.
pub const MAX_GAS_SLOTS: usize = 32;

} // verus!
