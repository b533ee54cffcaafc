use dogmos::continuations::{Continuation, ContinuationTable};
use dogmos::events::EventQueue;
use dogmos::world::{ReactionContinuationToken, WorldError};

fn pending(mixture_slot: u32, turf_slot: Option<u32>, payload: &str) -> Continuation<String> {
    Continuation { mixture_slot, turf_slot, payload: payload.to_string() }
}

fn token(slot: u32, generation: u32) -> ReactionContinuationToken {
    ReactionContinuationToken { slot, generation }
}

#[test]
fn continuations_reuse_freed_slots_under_a_new_generation() {
    let mut table = ContinuationTable::new(4);
    assert_eq!(table.allocate(pending(1, None, "a")), Ok(token(0, 1)));
    assert_eq!(table.allocate(pending(2, Some(7), "b")), Ok(token(1, 1)));
    assert_eq!(table.pending_reaction_continuations(), 2);
    assert_eq!(table.complete(token(0, 1)), Ok(()));
    assert_eq!(table.pending_reaction_continuations(), 1);
    assert_eq!(table.allocate(pending(3, None, "c")), Ok(token(0, 2)));
    assert_eq!(table.require(token(0, 2)).unwrap().payload, "c");
    assert_eq!(
        table.require(token(0, 1)).unwrap_err(),
        WorldError::StaleReactionContinuation { requested: token(0, 1), current: 2 }
    );
    assert_eq!(
        table.require(token(5, 1)).unwrap_err(),
        WorldError::UnknownReactionContinuation(token(5, 1))
    );
}

#[test]
fn completed_tokens_are_unknown_and_rotation_advances_the_generation() {
    let mut table = ContinuationTable::new(4);
    let first = table.allocate(pending(1, None, "a")).unwrap();
    let second = table.rotate(first, pending(1, None, "b")).unwrap();
    assert_eq!(second, token(0, 2));
    assert_eq!(
        table.rotate(first, pending(1, None, "c")),
        Err(WorldError::StaleReactionContinuation { requested: first, current: 2 })
    );
    assert_eq!(table.complete(second), Ok(()));
    assert_eq!(table.complete(second), Err(WorldError::UnknownReactionContinuation(second)));
}

#[test]
fn new_slots_wait_for_the_limit() {
    let mut table = ContinuationTable::new(2);
    table.allocate(pending(1, None, "a")).unwrap();
    table.allocate(pending(2, None, "b")).unwrap();
    assert_eq!(
        table.allocate(pending(3, None, "c")),
        Err(WorldError::ReactionContinuationCapacityExceeded)
    );
    table.complete(token(1, 1)).unwrap();
    assert_eq!(table.allocate(pending(3, None, "c")), Ok(token(1, 2)));
}

#[test]
fn invalidation_frees_every_owned_slot() {
    let mut table = ContinuationTable::new(8);
    table.allocate(pending(4, Some(1), "a")).unwrap();
    table.allocate(pending(5, Some(2), "b")).unwrap();
    table.allocate(pending(4, Some(3), "c")).unwrap();
    table.invalidate_for_mixture_slot(4);
    assert_eq!(table.pending_reaction_continuations(), 1);
    assert!(table.require(token(0, 1)).is_err());
    assert_eq!(table.require(token(1, 1)).unwrap().mixture_slot, 5);
    table.invalidate_for_turf_slot(2);
    assert_eq!(table.pending_reaction_continuations(), 0);
    assert_eq!(table.allocate(pending(6, None, "d")), Ok(token(1, 2)));
    assert_eq!(table.allocate(pending(6, None, "e")), Ok(token(2, 2)));
    assert_eq!(table.allocate(pending(6, None, "f")), Ok(token(0, 2)));
}

#[test]
fn events_are_read_taken_and_discarded_from_the_front() {
    let mut queue = EventQueue::new();
    let mut staged = vec![1, 2, 3, 4];
    assert_eq!(queue.enqueue_staged(&mut staged, 4), Ok(()));
    assert!(staged.is_empty());
    let mut more = vec![5];
    assert_eq!(
        queue.enqueue_staged(&mut more, 4),
        Err(WorldError::EventCapacityExceeded { requested: 5, capacity: 4 })
    );
    assert_eq!(more, vec![5]);
    assert_eq!(queue.pending_events(2), &[1, 2]);
    assert_eq!(queue.pending_events(9), &[1, 2, 3, 4]);
    let mut output = vec![99];
    assert_eq!(queue.drain_events_into(3, &mut output), 3);
    assert_eq!(output, vec![1, 2, 3]);
    assert_eq!(
        queue.discard_pending_events(2),
        Err(WorldError::PendingEventCountExceeded { requested: 2, available: 1 })
    );
    assert_eq!(queue.discard_pending_events(1), Ok(()));
    assert_eq!(queue.len(), 0);
}
