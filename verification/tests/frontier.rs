use dogmos::frontier::{FrontierError, FrontierState};
use dogmos::handles::TurfHandle;

fn turf(slot: u32, generation: u32) -> TurfHandle {
    TurfHandle { slot, generation }
}

#[test]
fn staged_upload_commits_after_every_range_arrives() {
    let mut frontier = FrontierState::new();
    assert_eq!(frontier.begin(1, 3, 10), Ok(()));
    assert_eq!(frontier.append(1, 2, &[turf(9, 1)]), Ok(1));
    assert_eq!(
        frontier.pending(1),
        Err(FrontierError::Incomplete { epoch: 1, expected: 3, received: 1 })
    );
    assert_eq!(frontier.append(1, 0, &[turf(4, 2), turf(5, 0)]), Ok(2));
    assert_eq!(frontier.pending(1).unwrap(), &[turf(4, 2), turf(5, 0), turf(9, 1)][..]);
    assert_eq!(frontier.commit_validated(1), Ok(3));
    assert_eq!(frontier.committed_epoch(), Some(1));
    assert_eq!(frontier.committed(), &[turf(4, 2), turf(5, 0), turf(9, 1)][..]);
}

#[test]
fn begin_rejects_zero_oversized_and_stale_epochs() {
    let mut frontier = FrontierState::new();
    assert_eq!(frontier.begin(0, 1, 4), Err(FrontierError::InvalidEpoch(0)));
    assert_eq!(
        frontier.begin(3, 5, 4),
        Err(FrontierError::CountExceeded { actual: 5, maximum: 4 })
    );
    assert_eq!(frontier.begin(3, 0, 4), Ok(()));
    assert_eq!(
        frontier.begin(3, 0, 4),
        Err(FrontierError::EpochConflict { committed: None, uploading: Some(3), requested: 3 })
    );
    assert_eq!(frontier.commit_validated(3), Ok(0));
    assert_eq!(
        frontier.begin(2, 0, 4),
        Err(FrontierError::EpochConflict { committed: Some(3), uploading: None, requested: 2 })
    );
}

#[test]
fn append_rejects_foreign_epochs_out_of_range_and_repeated_ranges() {
    let mut frontier = FrontierState::new();
    frontier.begin(7, 2, 2).unwrap();
    assert_eq!(
        frontier.append(6, 0, &[turf(1, 1)]),
        Err(FrontierError::EpochConflict { committed: None, uploading: Some(7), requested: 6 })
    );
    assert_eq!(
        frontier.append(7, 1, &[turf(1, 1), turf(2, 1)]),
        Err(FrontierError::RangeOutOfBounds { offset: 1, count: 2, expected: 2 })
    );
    assert_eq!(
        frontier.append(7, u32::MAX, &[turf(1, 1)]),
        Err(FrontierError::RangeOutOfBounds { offset: u32::MAX, count: 1, expected: 2 })
    );
    assert_eq!(frontier.append(7, 1, &[turf(2, 1)]), Ok(1));
    assert_eq!(
        frontier.append(7, 0, &[turf(1, 1), turf(3, 1)]),
        Err(FrontierError::RangeAlreadyReceived { offset: 0, count: 2 })
    );
    assert_eq!(frontier.append(7, 0, &[turf(1, 1)]), Ok(1));
}

#[test]
fn pending_names_the_first_repeated_handle() {
    let mut frontier = FrontierState::new();
    frontier.begin(1, 4, 4).unwrap();
    frontier.append(1, 0, &[turf(1, 0), turf(2, 0), turf(1, 0), turf(2, 0)]).unwrap();
    assert_eq!(frontier.pending(1), Err(FrontierError::DuplicateHandle(turf(1, 0))));
    assert_eq!(
        frontier.pending(2),
        Err(FrontierError::EpochConflict { committed: None, uploading: Some(1), requested: 2 })
    );
}

#[test]
fn add_then_remove_restores_the_committed_frontier() {
    let mut frontier = FrontierState::new();
    assert_eq!(frontier.add(1, &[turf(1, 0), turf(2, 0)], 8), Ok(2));
    assert_eq!(frontier.add(2, &[turf(3, 0), turf(4, 1)], 8), Ok(2));
    assert_eq!(frontier.remove(3, &[turf(3, 0), turf(4, 1)]), Ok(2));
    assert_eq!(frontier.committed(), &[turf(1, 0), turf(2, 0)][..]);
    assert_eq!(frontier.committed_epoch(), Some(3));
}

#[test]
fn add_rejects_stale_epochs_overflow_and_duplicates() {
    let mut frontier = FrontierState::new();
    frontier.add(5, &[turf(1, 0)], 3).unwrap();
    assert_eq!(
        frontier.add(5, &[turf(2, 0)], 3),
        Err(FrontierError::EpochConflict { committed: Some(5), uploading: None, requested: 5 })
    );
    assert_eq!(
        frontier.add(6, &[turf(2, 0), turf(3, 0), turf(4, 0)], 3),
        Err(FrontierError::CountExceeded { actual: 4, maximum: 3 })
    );
    assert_eq!(
        frontier.add(6, &[turf(2, 0), turf(1, 0)], 3),
        Err(FrontierError::DuplicateHandle(turf(1, 0)))
    );
    assert_eq!(
        frontier.add(6, &[turf(2, 0), turf(2, 0)], 3),
        Err(FrontierError::DuplicateHandle(turf(2, 0)))
    );
    assert_eq!(frontier.committed(), &[turf(1, 0)][..]);
    assert_eq!(frontier.committed_epoch(), Some(5));
}

#[test]
fn remove_ignores_handles_that_are_not_committed() {
    let mut frontier = FrontierState::new();
    frontier.add(1, &[turf(1, 0), turf(2, 0), turf(3, 0)], 8).unwrap();
    assert_eq!(frontier.remove(2, &[turf(2, 0), turf(9, 9), turf(2, 1)]), Ok(1));
    assert_eq!(frontier.committed(), &[turf(1, 0), turf(3, 0)][..]);
    assert_eq!(frontier.add(3, &[turf(2, 0)], 8), Ok(1));
    assert_eq!(
        frontier.remove(3, &[turf(1, 0)]),
        Err(FrontierError::EpochConflict { committed: Some(3), uploading: None, requested: 3 })
    );
}

#[test]
fn upload_bytes_grow_with_the_staged_capacity() {
    let mut frontier = FrontierState::new();
    assert_eq!(frontier.upload_bytes(), 0);
    frontier.begin(1, 65, 100).unwrap();
    assert!(frontier.upload_bytes() >= 65 * 8 + 2 * 8);
}
