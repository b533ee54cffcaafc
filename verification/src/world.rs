//! The world's public vocabulary: mutations, stages, reaction progress and errors, plus the
//! mappings of component errors onto world errors.
use vstd::prelude::*;

use crate::frontier::FrontierError;
use crate::handles::{MixtureHandle, TurfHandle};
use crate::metadata::{GasId, GasMetadataError, ReactionMetadataError};
use crate::text::{decimal, push_decimal, push_str, string_from_chars};
use crate::topology::TopologyError;
use crate::transaction::TransactionError;

verus! {

/// Reaction flag: the reaction ran.
pub const REACTION_REACTING: u32 = 1;

/// Reaction flag: no further reactions run on the mixture this tick.
pub const REACTION_STOP: u32 = 2;

/// Reaction flag: the reaction may have changed the mixture.
pub const REACTION_VOLATILE: u32 = 4;

/// Every flag a reaction may report.
pub const REACTION_FLAGS: u32 = REACTION_REACTING | REACTION_STOP | REACTION_VOLATILE;

/// Whether a mixture is registered or unregistered.
#[derive(Clone, Copy, Debug, PartialEq, Eq)]
pub enum LifecycleAction {
    Register,
    Unregister,
}

/// A mixture registration change.
#[derive(Clone, Copy, Debug, PartialEq, Eq)]
pub struct LifecycleMutation {
    pub action: LifecycleAction,
    pub handle: MixtureHandle,
}

/// A turf registration change.
#[derive(Clone, Copy, Debug, PartialEq, Eq)]
pub enum TurfLifecycleMutation {
    Register { handle: TurfHandle, mixture: Option<MixtureHandle> },
    Unregister { handle: TurfHandle },
}

/// A change of gas adjacency between two turfs.
#[derive(Clone, Copy, Debug, PartialEq, Eq)]
pub struct TurfAdjacencyMutation {
    pub left: TurfHandle,
    pub right: TurfHandle,
    pub connected: bool,
}

/// A change of the firelock between two adjacent turfs.
#[derive(Clone, Copy, Debug, PartialEq, Eq)]
pub struct TurfFirelockMutation {
    pub left: TurfHandle,
    pub right: TurfHandle,
    pub firelock: bool,
}

/// A change of heat adjacency between two turfs.
#[derive(Clone, Copy, Debug, PartialEq, Eq)]
pub struct TurfHeatAdjacencyMutation {
    pub left: TurfHandle,
    pub right: TurfHandle,
    pub connected: bool,
}

/// The stages of a simulation tick.
#[derive(Clone, Copy, Debug, PartialEq, Eq)]
pub enum WorldStage {
    ProcessTurfs,
    Equalize,
    ExcitedGroups,
    React,
    TurfHeat,
}

/// Why a staged operation conflicted with the world's state.
#[allow(inconsistent_fields)]
#[derive(Clone, Copy, Debug, PartialEq)]
pub enum StageConflictReason {
    ActiveStageMutation { operation: &'static str },
    FrontierEpoch { requested: u64, committed: Option<u64> },
    CursorIdentity {
        requested_stage: WorldStage,
        requested_frontier_epoch: u64,
        requested_stage_epoch: u64,
        requested_seconds_per_tick_bits: u64,
        active_stage: WorldStage,
        active_frontier_epoch: u64,
        active_stage_epoch: u64,
        active_seconds_per_tick_bits: u64,
    },
    TopologyRevision { captured: u64, current: u64 },
    TransactionGeneration { requested: MixtureHandle, current: MixtureHandle },
    TransactionHandleMissing { handle: MixtureHandle },
    TransactionRevision { handle: MixtureHandle, expected: u32, actual: u32 },
}

/// Identifies a reaction waiting for game code to finish it.
#[derive(Clone, Copy, Debug, Default, PartialEq, Eq, Hash, PartialOrd, Ord)]
pub struct ReactionContinuationToken {
    pub slot: u32,
    pub generation: u32,
}

/// What a resumed reaction reported.
#[derive(Clone, Copy, Debug, PartialEq, Eq)]
pub struct ReactionProgress {
    pub flags: u32,
    pub work_items: u32,
    pub pending: bool,
}

/// What a completed stage did.
#[derive(Clone, Copy, Debug, PartialEq, Eq)]
pub struct StageResult {
    pub work_items: u32,
}

/// Why a world operation was refused.
#[allow(inconsistent_fields)]
#[derive(Debug, PartialEq)]
pub enum WorldError {
    Frontier(FrontierError),
    GasMetadata(GasMetadataError),
    GasRegistryAlreadyInstalled,
    GasRegistryInstallationTooLate,
    GasRegistryMissing,
    ReactionMetadata(ReactionMetadataError),
    ReactionRegistryAlreadyInstalled,
    ReactionRegistryInstallationTooLate,
    ReactionRegistryMissing,
    UnknownHandle(MixtureHandle),
    StaleHandle { requested: MixtureHandle, current: u32 },
    UnknownTurfHandle(TurfHandle),
    StaleTurfHandle { requested: TurfHandle, current: u32 },
    RevisionMismatch { handle: MixtureHandle, expected: u32, actual: u32 },
    RevisionExhausted(MixtureHandle),
    DuplicateMixtureState(u32),
    InvalidMixtureState,
    InvalidGasId(GasId),
    InvalidMoleAmount,
    InvalidMoleDelta,
    MoleOverflow(GasId),
    InvalidTemperature,
    InvalidVolume,
    InvalidMinimumHeatCapacity,
    InvalidAddend,
    InvalidMultiplier,
    InvalidHeat,
    InvalidHeatCapacity,
    InvalidRatio,
    SameMixtureHandles(MixtureHandle),
    SelfAdjacency(u32),
    SelfTurfAdjacency(TurfHandle),
    TurfMissingMixture(TurfHandle),
    DuplicateMutableTurfMixture(MixtureHandle),
    InvalidTurfHeatState(TurfHandle),
    TurfHeatMissing(TurfHandle),
    SelfTurfHeatAdjacency(TurfHandle),
    ImmutableEqualizationBoundary(TurfHandle),
    EventCapacityExceeded { requested: u32, capacity: u32 },
    PendingEventCountExceeded { requested: u32, available: u32 },
    UnknownReactionContinuation(ReactionContinuationToken),
    StaleReactionContinuation { requested: ReactionContinuationToken, current: u32 },
    ReactionContinuationCapacityExceeded,
    InvalidReactionResult(u32),
    InvalidReactionProfileThreshold,
    InvalidConductivity,
    InvalidEqualizeHardTurfLimit,
    InvalidSecondsPerTick,
    InvalidStageWorkLimit(u32),
    StageConflict(StageConflictReason),
    StageNotImplemented(WorldStage),
    Graph(String),
    State(String),
    StateCapacityExceeded,
    AllocationFailed,
    Cancelled,
}

/// An undirected mixture adjacency, smaller endpoint first.
#[derive(Clone, Copy, Debug, PartialEq, Eq, PartialOrd, Ord)]
pub struct EdgeKey {
    pub left: u32,
    pub right: u32,
}

impl EdgeKey {
    /// The key of the adjacency between `left` and `right`, which must differ.
    pub fn new(left: u32, right: u32) -> (r: Result<EdgeKey, WorldError>)
        ensures
            left == right ==> r == Err::<EdgeKey, WorldError>(WorldError::SelfAdjacency(left)),
            left != right ==> r == Ok::<EdgeKey, WorldError>(
                EdgeKey {
                    left: if left < right { left } else { right },
                    right: if left < right { right } else { left },
                },
            ),
    {
        if left == right {
            return Err(WorldError::SelfAdjacency(left));
        }
        if left < right {
            Ok(EdgeKey { left, right })
        } else {
            Ok(EdgeKey { left: right, right: left })
        }
    }
}

/// The world error a transaction error becomes.
pub open spec fn transaction_error_meaning(error: TransactionError) -> WorldError {
    match error {
        TransactionError::AllocationFailed => WorldError::AllocationFailed,
        TransactionError::CapacityExceeded => WorldError::StateCapacityExceeded,
        TransactionError::HandleConflict { requested, current } => WorldError::StageConflict(
            StageConflictReason::TransactionGeneration { requested, current },
        ),
        TransactionError::UnknownHandle(handle) => WorldError::DuplicateMutableTurfMixture(handle),
        TransactionError::SameHandle(handle) => WorldError::DuplicateMutableTurfMixture(handle),
    }
}

/// Maps a transaction error onto a world error.
pub fn transaction_world_error(error: TransactionError) -> (r: WorldError)
    ensures
        r == transaction_error_meaning(error),
{
    match error {
        TransactionError::AllocationFailed => WorldError::AllocationFailed,
        TransactionError::CapacityExceeded => WorldError::StateCapacityExceeded,
        TransactionError::HandleConflict { requested, current } => WorldError::StageConflict(
            StageConflictReason::TransactionGeneration { requested, current },
        ),
        TransactionError::UnknownHandle(handle) => WorldError::DuplicateMutableTurfMixture(handle),
        TransactionError::SameHandle(handle) => WorldError::DuplicateMutableTurfMixture(handle),
    }
}

/// How a turf handle is written in diagnostics.
pub open spec fn handle_text(h: TurfHandle) -> Seq<char> {
    "TurfHandle { slot: "@ + decimal(h.slot as nat) + ", generation: "@ + decimal(h.generation as nat)
        + " }"@
}

/// How a topology error is written in diagnostics.
pub open spec fn topology_error_text(error: TopologyError) -> Seq<char> {
    match error {
        TopologyError::SelfEdge(h) => "SelfEdge("@ + handle_text(h) + ")"@,
        TopologyError::DegreeExceeded(h) => "DegreeExceeded("@ + handle_text(h) + ")"@,
        TopologyError::MissingGasEdge => "MissingGasEdge"@,
        TopologyError::AllocationFailed => "AllocationFailed"@,
    }
}

/// Appends the diagnostic text of `h` to `out`.
fn push_handle(out: &mut Vec<char>, h: TurfHandle)
    ensures
        final(out)@ == old(out)@ + handle_text(h),
{
    push_str(out, "TurfHandle { slot: ");
    push_decimal(out, h.slot as u64);
    push_str(out, ", generation: ");
    push_decimal(out, h.generation as u64);
    push_str(out, " }");
    proof {
        assert(out@ =~= old(out)@ + handle_text(h));
    }
}

/// Maps a topology error onto a world error: allocation failures stay allocation
/// failures, anything else becomes a graph error carrying the error's diagnostic text.
pub fn map_topology_error(error: TopologyError) -> (r: WorldError)
    ensures
        error == TopologyError::AllocationFailed ==> r == WorldError::AllocationFailed,
        error != TopologyError::AllocationFailed ==> (r matches WorldError::Graph(text) && text@
            == topology_error_text(error)),
{
    let mut text: Vec<char> = Vec::new();
    match error {
        TopologyError::AllocationFailed => {
            return WorldError::AllocationFailed;
        },
        TopologyError::SelfEdge(h) => {
            push_str(&mut text, "SelfEdge(");
            push_handle(&mut text, h);
            push_str(&mut text, ")");
        },
        TopologyError::DegreeExceeded(h) => {
            push_str(&mut text, "DegreeExceeded(");
            push_handle(&mut text, h);
            push_str(&mut text, ")");
        },
        TopologyError::MissingGasEdge => {
            push_str(&mut text, "MissingGasEdge");
        },
    }
    proof {
        assert(text@ =~= topology_error_text(error));
    }
    WorldError::Graph(string_from_chars(text.as_slice()))
}

} // verus!
