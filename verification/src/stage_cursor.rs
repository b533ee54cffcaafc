//! Resumable, chunked simulation stages: the cursor of the stage in progress, the checks a
//! chunk request must pass against it, and what one chunk did.
use vstd::prelude::*;

use crate::world::{StageConflictReason, WorldError, WorldStage};

verus! {

/// Most work items one stage chunk may be asked to process.
pub const MAX_STAGE_WORK_LIMIT: u32 = 4096;

/// What one chunk of a resumable stage did.
#[derive(Clone, Copy, Debug, Default, PartialEq, Eq)]
pub struct StageChunkResult {
    pub work_items: u32,
    pub callback_events: u32,
    pub pending: bool,
    pub remaining_estimate: u32,
    pub produced_equalize_seeds: u32,
    pub produced_group_seeds: u32,
    pub produced_heat_seeds: u32,
}

/// The stage in progress: which stage, under which frontier and stage epochs and tick length
/// (its bits), the topology revision it started from, and how far through the frontier it is.
#[derive(Clone, Copy, Debug, PartialEq, Eq)]
pub struct StageCursor {
    pub stage: WorldStage,
    pub frontier_epoch: u64,
    pub stage_epoch: u64,
    pub seconds_per_tick_bits: u64,
    pub topology_revision: u64,
    pub next_frontier_index: u32,
}

/// Whether two stages are the same.
fn same_stage(a: WorldStage, b: WorldStage) -> (r: bool)
    ensures
        r == (a == b),
{
    match (a, b) {
        (WorldStage::ProcessTurfs, WorldStage::ProcessTurfs) => true,
        (WorldStage::Equalize, WorldStage::Equalize) => true,
        (WorldStage::ExcitedGroups, WorldStage::ExcitedGroups) => true,
        (WorldStage::React, WorldStage::React) => true,
        (WorldStage::TurfHeat, WorldStage::TurfHeat) => true,
        _ => false,
    }
}

impl StageCursor {
    /// The cursor of a stage that starts now, at the front of the frontier.
    pub fn new(
        stage: WorldStage,
        frontier_epoch: u64,
        stage_epoch: u64,
        seconds_per_tick_bits: u64,
        topology_revision: u64,
    ) -> (r: Self)
        ensures
            r == (StageCursor {
                stage,
                frontier_epoch,
                stage_epoch,
                seconds_per_tick_bits,
                topology_revision,
                next_frontier_index: 0,
            }),
    {
        StageCursor { stage, frontier_epoch, stage_epoch, seconds_per_tick_bits, topology_revision, next_frontier_index: 0 }
    }

    /// Whether a request for `stage` under these epochs and tick bits continues this stage.
    pub fn matches(&self, stage: WorldStage, frontier_epoch: u64, stage_epoch: u64, seconds_per_tick_bits: u64) -> (r:
        bool)
        ensures
            r == (self.stage == stage && self.frontier_epoch == frontier_epoch && self.stage_epoch == stage_epoch
                && self.seconds_per_tick_bits == seconds_per_tick_bits),
    {
        same_stage(self.stage, stage) && self.frontier_epoch == frontier_epoch && self.stage_epoch == stage_epoch
            && self.seconds_per_tick_bits == seconds_per_tick_bits
    }
}

/// A chunk may be asked for between 1 and [`MAX_STAGE_WORK_LIMIT`] work items.
pub fn check_work_limit(work_limit: u32) -> (r: Result<(), WorldError>)
    ensures
        1 <= work_limit <= MAX_STAGE_WORK_LIMIT ==> r == Ok::<(), WorldError>(()),
        !(1 <= work_limit <= MAX_STAGE_WORK_LIMIT) ==> r == Err::<(), WorldError>(
            WorldError::InvalidStageWorkLimit(work_limit),
        ),
{
    if work_limit == 0 || work_limit > MAX_STAGE_WORK_LIMIT {
        return Err(WorldError::InvalidStageWorkLimit(work_limit));
    }
    Ok(())
}

/// A chunk request must name the committed frontier epoch and, while a stage is in
/// progress, continue that stage: same stage, epochs and tick bits.
pub fn check_stage_identity(
    stage: WorldStage,
    frontier_epoch: u64,
    stage_epoch: u64,
    seconds_per_tick_bits: u64,
    committed_epoch: Option<u64>,
    cursor: Option<StageCursor>,
) -> (r: Result<(), WorldError>)
    ensures
        committed_epoch != Some(frontier_epoch) ==> r == Err::<(), WorldError>(
            WorldError::StageConflict(StageConflictReason::FrontierEpoch { requested: frontier_epoch, committed: committed_epoch }),
        ),
        committed_epoch == Some(frontier_epoch) ==> match cursor {
            None => r == Ok::<(), WorldError>(()),
            Some(c) => if c.stage == stage && c.frontier_epoch == frontier_epoch && c.stage_epoch == stage_epoch
                && c.seconds_per_tick_bits == seconds_per_tick_bits {
                r == Ok::<(), WorldError>(())
            } else {
                r == Err::<(), WorldError>(
                    WorldError::StageConflict(
                        StageConflictReason::CursorIdentity {
                            requested_stage: stage,
                            requested_frontier_epoch: frontier_epoch,
                            requested_stage_epoch: stage_epoch,
                            requested_seconds_per_tick_bits: seconds_per_tick_bits,
                            active_stage: c.stage,
                            active_frontier_epoch: c.frontier_epoch,
                            active_stage_epoch: c.stage_epoch,
                            active_seconds_per_tick_bits: c.seconds_per_tick_bits,
                        },
                    ),
                )
            },
        },
{
    let epoch_matches = match committed_epoch {
        Some(e) => e == frontier_epoch,
        None => false,
    };
    if !epoch_matches {
        return Err(
            WorldError::StageConflict(StageConflictReason::FrontierEpoch { requested: frontier_epoch, committed: committed_epoch }),
        );
    }
    match cursor {
        Some(c) => {
            if !c.matches(stage, frontier_epoch, stage_epoch, seconds_per_tick_bits) {
                return Err(
                    WorldError::StageConflict(
                        StageConflictReason::CursorIdentity {
                            requested_stage: stage,
                            requested_frontier_epoch: frontier_epoch,
                            requested_stage_epoch: stage_epoch,
                            requested_seconds_per_tick_bits: seconds_per_tick_bits,
                            active_stage: c.stage,
                            active_frontier_epoch: c.frontier_epoch,
                            active_stage_epoch: c.stage_epoch,
                            active_seconds_per_tick_bits: c.seconds_per_tick_bits,
                        },
                    ),
                );
            }
            Ok(())
        },
        None => Ok(()),
    }
}

} // verus!
