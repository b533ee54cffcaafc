use dogmos::stage_cursor::{check_stage_identity, check_work_limit, StageCursor, MAX_STAGE_WORK_LIMIT};
use dogmos::world::{StageConflictReason, WorldError, WorldStage};

#[test]
fn work_limits_run_from_one_to_the_maximum() {
    assert_eq!(check_work_limit(0), Err(WorldError::InvalidStageWorkLimit(0)));
    assert_eq!(check_work_limit(1), Ok(()));
    assert_eq!(check_work_limit(MAX_STAGE_WORK_LIMIT), Ok(()));
    assert_eq!(
        check_work_limit(MAX_STAGE_WORK_LIMIT + 1),
        Err(WorldError::InvalidStageWorkLimit(4097))
    );
}

#[test]
fn chunks_must_continue_the_stage_in_progress() {
    let bits = 0.5f64.to_bits();
    assert_eq!(
        check_stage_identity(WorldStage::React, 3, 1, bits, Some(2), None),
        Err(WorldError::StageConflict(StageConflictReason::FrontierEpoch {
            requested: 3,
            committed: Some(2)
        }))
    );
    assert_eq!(
        check_stage_identity(WorldStage::React, 3, 1, bits, None, None),
        Err(WorldError::StageConflict(StageConflictReason::FrontierEpoch {
            requested: 3,
            committed: None
        }))
    );
    assert_eq!(check_stage_identity(WorldStage::React, 3, 1, bits, Some(3), None), Ok(()));
    let cursor = StageCursor::new(WorldStage::Equalize, 3, 1, bits, 9);
    assert_eq!(cursor.next_frontier_index, 0);
    assert!(cursor.matches(WorldStage::Equalize, 3, 1, bits));
    assert_eq!(check_stage_identity(WorldStage::Equalize, 3, 1, bits, Some(3), Some(cursor)), Ok(()));
    assert_eq!(
        check_stage_identity(WorldStage::React, 3, 1, bits, Some(3), Some(cursor)),
        Err(WorldError::StageConflict(StageConflictReason::CursorIdentity {
            requested_stage: WorldStage::React,
            requested_frontier_epoch: 3,
            requested_stage_epoch: 1,
            requested_seconds_per_tick_bits: bits,
            active_stage: WorldStage::Equalize,
            active_frontier_epoch: 3,
            active_stage_epoch: 1,
            active_seconds_per_tick_bits: bits,
        }))
    );
    assert!(!cursor.matches(WorldStage::Equalize, 3, 1, 0.25f64.to_bits()));
}
