use dogmos::handles::{MixtureHandle, TurfHandle};
use dogmos::lifecycle::{
    apply_transition, plan_lifecycle, plan_turf_lifecycle, validate_world_capacity, ProjectedSlot,
    SlotRefusal, WorldCapacity,
};
use dogmos::world::{
    LifecycleAction, LifecycleMutation, StageConflictReason, TurfLifecycleMutation, WorldError,
};

fn roomy() -> WorldCapacity {
    WorldCapacity { mixture_slot_bytes: 16, turf_slot_bytes: 8, max_world_bytes: 1024 * 1024 }
}

fn mixture(slot: u32, generation: u32) -> MixtureHandle {
    MixtureHandle { slot, generation }
}

fn turf(slot: u32, generation: u32) -> TurfHandle {
    TurfHandle { slot, generation }
}

fn register(handle: MixtureHandle) -> LifecycleMutation {
    LifecycleMutation { action: LifecycleAction::Register, handle }
}

fn unregister(handle: MixtureHandle) -> LifecycleMutation {
    LifecycleMutation { action: LifecycleAction::Unregister, handle }
}

fn live(generation: u32) -> ProjectedSlot {
    ProjectedSlot { generation: Some(generation), occupied: true }
}

fn released(generation: u32) -> ProjectedSlot {
    ProjectedSlot { generation: Some(generation), occupied: false }
}

const UNUSED: ProjectedSlot = ProjectedSlot { generation: None, occupied: false };

#[test]
fn registering_grows_the_table_with_unused_slots() {
    let table = plan_lifecycle(&Vec::new(), &[register(mixture(2, 1))], 0, roomy()).unwrap();
    assert_eq!(table, vec![UNUSED, UNUSED, live(1)]);
}

#[test]
fn later_mutations_see_the_earlier_ones_of_the_batch() {
    let batch = [register(mixture(0, 1)), unregister(mixture(0, 1)), register(mixture(0, 2))];
    let table = plan_lifecycle(&Vec::new(), &batch, 0, roomy()).unwrap();
    assert_eq!(table, vec![live(2)]);
}

#[test]
fn an_empty_batch_leaves_the_table_as_it_is() {
    let slots = vec![live(3), released(1)];
    assert_eq!(plan_lifecycle(&slots, &[], 0, roomy()).unwrap(), slots);
}

#[test]
fn registering_an_older_generation_is_stale() {
    let slots = vec![live(3)];
    assert_eq!(
        plan_lifecycle(&slots, &[register(mixture(0, 2))], 0, roomy()),
        Err(WorldError::StaleHandle { requested: mixture(0, 2), current: 3 })
    );
}

#[test]
fn reusing_a_released_generation_is_stale() {
    let slots = vec![released(3)];
    assert_eq!(
        plan_lifecycle(&slots, &[register(mixture(0, 3))], 0, roomy()),
        Err(WorldError::StaleHandle { requested: mixture(0, 3), current: 3 })
    );
    assert_eq!(plan_lifecycle(&slots, &[register(mixture(0, 4))], 0, roomy()).unwrap(), vec![live(4)]);
}

#[test]
fn reregistering_the_live_generation_is_accepted() {
    let slots = vec![live(3)];
    assert_eq!(plan_lifecycle(&slots, &[register(mixture(0, 3))], 0, roomy()).unwrap(), vec![live(3)]);
}

#[test]
fn unregistering_an_unknown_or_released_slot_is_unknown() {
    assert_eq!(
        plan_lifecycle(&Vec::new(), &[unregister(mixture(5, 1))], 0, roomy()),
        Err(WorldError::UnknownHandle(mixture(5, 1)))
    );
    assert_eq!(
        plan_lifecycle(&vec![released(1)], &[unregister(mixture(0, 1))], 0, roomy()),
        Err(WorldError::UnknownHandle(mixture(0, 1)))
    );
}

#[test]
fn unregistering_another_generation_is_stale() {
    assert_eq!(
        plan_lifecycle(&vec![live(2)], &[unregister(mixture(0, 1))], 0, roomy()),
        Err(WorldError::StaleHandle { requested: mixture(0, 1), current: 2 })
    );
}

#[test]
fn the_first_refusal_of_a_batch_is_reported() {
    let batch = [register(mixture(0, 1)), unregister(mixture(1, 1)), register(mixture(0, 0))];
    assert_eq!(
        plan_lifecycle(&Vec::new(), &batch, 0, roomy()),
        Err(WorldError::UnknownHandle(mixture(1, 1)))
    );
}

#[test]
fn slots_past_the_budget_are_refused() {
    let tight = WorldCapacity { mixture_slot_bytes: 16, turf_slot_bytes: 8, max_world_bytes: 64 };
    assert_eq!(plan_lifecycle(&Vec::new(), &[register(mixture(3, 1))], 0, tight).unwrap().len(), 4);
    assert_eq!(
        plan_lifecycle(&Vec::new(), &[register(mixture(4, 1))], 0, tight),
        Err(WorldError::StateCapacityExceeded)
    );
    assert_eq!(
        plan_lifecycle(&Vec::new(), &[register(mixture(3, 1))], 1, tight),
        Err(WorldError::StateCapacityExceeded)
    );
}

#[test]
fn world_capacity_counts_both_tables_and_overflow() {
    let tight = WorldCapacity { mixture_slot_bytes: 16, turf_slot_bytes: 8, max_world_bytes: 64 };
    assert_eq!(validate_world_capacity(tight, 2, 4), Ok(()));
    assert_eq!(validate_world_capacity(tight, 2, 5), Err(WorldError::StateCapacityExceeded));
    let huge = WorldCapacity { mixture_slot_bytes: u64::MAX, turf_slot_bytes: 1, max_world_bytes: u64::MAX };
    assert_eq!(validate_world_capacity(huge, 2, 0), Err(WorldError::StateCapacityExceeded));
}

#[test]
fn transitions_follow_the_generation_rules() {
    assert_eq!(apply_transition(UNUSED, 7, true), Ok(live(7)));
    assert_eq!(apply_transition(live(7), 6, true), Err(SlotRefusal::Stale(7)));
    assert_eq!(apply_transition(live(7), 7, false), Ok(released(7)));
    assert_eq!(apply_transition(released(7), 7, false), Err(SlotRefusal::Unknown));
    assert_eq!(apply_transition(UNUSED, 0, false), Err(SlotRefusal::Unknown));
}

#[test]
fn turf_batches_are_refused_during_a_stage() {
    assert_eq!(
        plan_turf_lifecycle(true, &Vec::new(), &[], &Vec::new(), 0, roomy()),
        Err(WorldError::StageConflict(StageConflictReason::ActiveStageMutation {
            operation: "apply turf lifecycle"
        }))
    );
}

#[test]
fn turf_registration_needs_a_live_mixture() {
    let mixtures = vec![live(1), released(2)];
    let good = [TurfLifecycleMutation::Register { handle: turf(1, 1), mixture: Some(mixture(0, 1)) }];
    assert_eq!(
        plan_turf_lifecycle(false, &Vec::new(), &good, &mixtures, 2, roomy()).unwrap(),
        vec![UNUSED, live(1)]
    );
    let stale = [TurfLifecycleMutation::Register { handle: turf(0, 1), mixture: Some(mixture(0, 0)) }];
    assert_eq!(
        plan_turf_lifecycle(false, &Vec::new(), &stale, &mixtures, 2, roomy()),
        Err(WorldError::StaleHandle { requested: mixture(0, 0), current: 1 })
    );
    let gone = [TurfLifecycleMutation::Register { handle: turf(0, 1), mixture: Some(mixture(1, 2)) }];
    assert_eq!(
        plan_turf_lifecycle(false, &Vec::new(), &gone, &mixtures, 2, roomy()),
        Err(WorldError::UnknownHandle(mixture(1, 2)))
    );
    let detached = [TurfLifecycleMutation::Register { handle: turf(0, 4), mixture: None }];
    assert_eq!(
        plan_turf_lifecycle(false, &Vec::new(), &detached, &mixtures, 2, roomy()).unwrap(),
        vec![live(4)]
    );
}

#[test]
fn turf_refusals_name_turf_handles() {
    let slots = vec![live(2)];
    let older = [TurfLifecycleMutation::Register { handle: turf(0, 1), mixture: None }];
    assert_eq!(
        plan_turf_lifecycle(false, &slots, &older, &Vec::new(), 0, roomy()),
        Err(WorldError::StaleTurfHandle { requested: turf(0, 1), current: 2 })
    );
    let missing = [TurfLifecycleMutation::Unregister { handle: turf(3, 0) }];
    assert_eq!(
        plan_turf_lifecycle(false, &slots, &missing, &Vec::new(), 0, roomy()),
        Err(WorldError::UnknownTurfHandle(turf(3, 0)))
    );
    let leave = [TurfLifecycleMutation::Unregister { handle: turf(0, 2) }];
    assert_eq!(
        plan_turf_lifecycle(false, &slots, &leave, &Vec::new(), 0, roomy()).unwrap(),
        vec![released(2)]
    );
}

#[test]
fn turf_slots_count_against_the_budget_beside_mixtures() {
    let tight = WorldCapacity { mixture_slot_bytes: 16, turf_slot_bytes: 8, max_world_bytes: 64 };
    let batch = [TurfLifecycleMutation::Register { handle: turf(3, 1), mixture: None }];
    assert_eq!(plan_turf_lifecycle(false, &Vec::new(), &batch, &Vec::new(), 2, tight).unwrap().len(), 4);
    assert_eq!(
        plan_turf_lifecycle(false, &Vec::new(), &batch, &Vec::new(), 3, tight),
        Err(WorldError::StateCapacityExceeded)
    );
}
