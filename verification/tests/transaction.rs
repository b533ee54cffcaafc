use dogmos::handles::MixtureHandle;
use dogmos::transaction::{IndexedTransaction, TransactionError};

fn handle(slot: u32, generation: u32) -> MixtureHandle {
    MixtureHandle { slot, generation }
}

#[test]
fn repeated_touch_reuses_the_candidate() {
    let mut transaction = IndexedTransaction::try_new(4, 2).unwrap();
    *transaction.touch(handle(2, 7), 11, &10).unwrap() = 20;

    assert_eq!(transaction.touch(handle(2, 7), 11, &99), Ok(&mut 20));
    assert_eq!(transaction.len(), 1);
}

#[test]
fn conflicting_generation_is_rejected() {
    let mut transaction = IndexedTransaction::try_new(2, 2).unwrap();
    transaction.touch(handle(1, 3), 4, &10).unwrap();

    assert_eq!(
        transaction.touch(handle(1, 4), 5, &20),
        Err(TransactionError::HandleConflict {
            requested: handle(1, 4),
            current: handle(1, 3),
        }),
    );
}

#[test]
fn rollback_clears_dense_and_slot_indexes() {
    let mut transaction = IndexedTransaction::try_new(4, 4).unwrap();
    transaction.touch(handle(0, 1), 2, &10).unwrap();
    let checkpoint = transaction.checkpoint();
    transaction.touch(handle(3, 5), 6, &30).unwrap();

    transaction.rollback_to(checkpoint);

    assert!(!transaction.contains(handle(3, 5)));
    assert_eq!(transaction.candidate(handle(0, 1)), Some(&10));
    assert_eq!(transaction.touch(handle(3, 6), 7, &40), Ok(&mut 40));
}

#[test]
fn clear_reuses_allocated_indexes_and_entries() {
    let mut transaction = IndexedTransaction::try_new(4, 4).unwrap();
    transaction.touch(handle(0, 1), 2, &10).unwrap();
    transaction.touch(handle(3, 5), 6, &30).unwrap();
    let allocated_bytes = transaction.capacity_bytes_lower_bound();

    transaction.clear();

    assert_eq!(transaction.len(), 0);
    assert!(!transaction.contains(handle(0, 1)));
    assert!(!transaction.contains(handle(3, 5)));
    assert_eq!(transaction.touch(handle(0, 2), 7, &40), Ok(&mut 40));
    assert_eq!(transaction.touch(handle(3, 6), 8, &50), Ok(&mut 50));
    assert_eq!(transaction.capacity_bytes_lower_bound(), allocated_bytes);
}

#[test]
fn pair_access_is_disjoint_and_rejects_same_handle() {
    let mut transaction = IndexedTransaction::try_new(4, 4).unwrap();
    transaction.touch(handle(3, 1), 0, &30).unwrap();
    transaction.touch(handle(1, 1), 0, &10).unwrap();

    let (first, second) = transaction
        .candidate_pair_mut(handle(3, 1), handle(1, 1))
        .unwrap();
    *first += 1;
    *second += 2;

    assert_eq!(transaction.candidate(handle(3, 1)), Some(&31));
    assert_eq!(transaction.candidate(handle(1, 1)), Some(&12));
    assert_eq!(
        transaction.candidate_pair_mut(handle(1, 1), handle(1, 1)),
        Err(TransactionError::SameHandle(handle(1, 1))),
    );
}

#[test]
fn entries_sort_by_handle_deterministically() {
    let mut transaction = IndexedTransaction::try_new(4, 4).unwrap();
    transaction.touch(handle(3, 2), 30, &3).unwrap();
    transaction.touch(handle(0, 9), 10, &0).unwrap();
    transaction.touch(handle(2, 1), 20, &2).unwrap();

    transaction.sort_by_handle();

    let entries = transaction.entries();
    assert_eq!(entries[0].handle, handle(0, 9));
    assert_eq!(entries[1].handle, handle(2, 1));
    assert_eq!(entries[2].handle, handle(3, 2));
    assert_eq!(entries[1].expected_revision, 20);
    assert_eq!(entries[2].candidate, 3);
}

#[test]
fn oversized_slot_capacity_is_rejected_without_allocating() {
    assert_eq!(
        IndexedTransaction::<u8>::try_new(usize::MAX, 0),
        Err(TransactionError::CapacityExceeded),
    );
}

#[test]
fn capacity_is_enforced_and_unknown_slots_are_rejected() {
    let mut transaction = IndexedTransaction::try_new(2, 1).unwrap();
    transaction.touch(handle(0, 1), 0, &1u8).unwrap();
    assert_eq!(
        transaction.touch(handle(1, 1), 0, &2),
        Err(TransactionError::CapacityExceeded)
    );
    assert_eq!(
        transaction.touch(handle(5, 1), 0, &2),
        Err(TransactionError::CapacityExceeded)
    );
    assert_eq!(
        transaction.candidate_pair_mut(handle(0, 1), handle(1, 1)),
        Err(TransactionError::UnknownHandle(handle(1, 1)))
    );
}

#[test]
fn retired_entries_stop_resolving_and_prepare_resets_the_transaction() {
    let mut transaction = IndexedTransaction::try_new(4, 4).unwrap();
    transaction.touch(handle(1, 1), 0, &5u8).unwrap();
    transaction.touch(handle(2, 1), 0, &6u8).unwrap();
    transaction.retire(0);
    assert!(!transaction.contains(handle(1, 1)));
    assert!(transaction.contains(handle(2, 1)));
    transaction.retire(1);
    transaction.clear_retired();
    assert_eq!(transaction.len(), 0);
    assert_eq!(transaction.prepare(70, 3), Ok(()));
    assert_eq!(transaction.touch(handle(69, 2), 0, &9), Ok(&mut 9));
    assert_eq!(transaction.prepare(4, u32::MAX as usize), Err(TransactionError::CapacityExceeded));
    let drained = transaction.drain_entries();
    assert!(drained.is_empty());
}

#[test]
fn candidates_are_written_in_place() {
    let mut transaction = IndexedTransaction::try_new(4, 4).unwrap();
    transaction.touch(handle(3, 1), 0, &5).unwrap();
    *transaction.candidate_mut(handle(3, 1)).unwrap() += 2;
    assert_eq!(transaction.candidate(handle(3, 1)), Some(&7));
    assert!(transaction.candidate_mut(handle(3, 2)).is_none());
    assert!(transaction.candidate_mut(handle(0, 1)).is_none());
}
