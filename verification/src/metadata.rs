//! Gas and reaction metadata: how a reaction executes and why a metadata registry was
//! refused.
use vstd::prelude::*;

pub use crate::handles::{GasId, ReactionId, TurfHandle};

verus! {

/// The reactions implemented natively.
#[derive(Clone, Copy, Debug, PartialEq, Eq)]
pub enum NativeReactionKind {
    Plasma,
    Hydrogen,
    Tritium,
    Freon,
}

/// Where a reaction runs.
#[derive(Clone, Copy, Debug, PartialEq, Eq)]
pub enum ReactionExecution {
    Native(NativeReactionKind),
    Dm,
}

/// Why a gas metadata registry was refused.
#[derive(Clone, Debug, PartialEq)]
pub enum GasMetadataError {
    TooManyGases { count: u32, maximum: u32 },
    DuplicateGasId(GasId),
    NonDenseGasId { expected: GasId, actual: GasId },
    EmptyGasKey(GasId),
    DuplicateGasKey(String),
    InvalidSpecificHeat(GasId),
    InvalidFusionPower(GasId),
    InvalidMolesVisible(GasId),
    InvalidEnthalpy(GasId),
    InvalidFireRadiation(GasId),
    InvalidFireRole(GasId),
    UnknownFireProduct { gas: GasId, product: GasId },
    InvalidFireProductRatio { gas: GasId, product: GasId },
    DuplicateFireProduct { gas: GasId, product: GasId },
}

/// Why a reaction metadata registry was refused.
#[derive(Clone, Debug, PartialEq)]
pub enum ReactionMetadataError {
    DuplicateReactionId(ReactionId),
    NonDenseReactionId { expected: ReactionId, actual: ReactionId },
    EmptyReactionKey(ReactionId),
    DuplicateReactionKey(String),
    InvalidPriority(ReactionId),
    DuplicateReactionPriority { first: ReactionId, second: ReactionId },
    InvalidMinimumTemperature(ReactionId),
    InvalidMaximumTemperature(ReactionId),
    InvalidTemperatureRange(ReactionId),
    InvalidMinimumEnergy(ReactionId),
    InvalidMinimumFireReagents(ReactionId),
    UnknownRequiredGas { reaction: ReactionId, gas: GasId },
    InvalidRequiredMoles { reaction: ReactionId, gas: GasId },
    DuplicateRequiredGas { reaction: ReactionId, gas: GasId },
}

} // verus!
