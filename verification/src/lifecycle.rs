//! Admission of lifecycle batches: each registration or unregistration of a mixture or turf
//! handle is checked against the slot table as the earlier mutations of the same batch leave
//! it, and against the world's memory budget. The result is the projected slot table that
//! the batch would produce, or the first refusal.
use vstd::prelude::*;

use crate::handles::{MixtureHandle, TurfHandle};
use crate::world::{LifecycleAction, LifecycleMutation, StageConflictReason, TurfLifecycleMutation, WorldError};

verus! {

/// Generation and occupancy of one slot.
#[derive(Clone, Copy, Debug, PartialEq, Eq)]
pub struct ProjectedSlot {
    pub generation: Option<u32>,
    pub occupied: bool,
}

/// Byte sizes that bound the world's slot tables.
#[derive(Clone, Copy, Debug, PartialEq, Eq)]
pub struct WorldCapacity {
    pub mixture_slot_bytes: u64,
    pub turf_slot_bytes: u64,
    pub max_world_bytes: u64,
}

/// Why a slot refused a mutation.
#[derive(Clone, Copy, Debug, PartialEq, Eq)]
pub enum SlotRefusal {
    /// The handle is older than the slot's generation; the slot's generation.
    Stale(u32),
    /// The slot holds nothing live for the handle.
    Unknown,
}

/// Whether tables of `mixture_slots` and `turf_slots` slots fit in the world's budget.
pub open spec fn within_capacity(capacity: WorldCapacity, mixture_slots: int, turf_slots: int) -> bool {
    mixture_slots * capacity.mixture_slot_bytes + turf_slots * capacity.turf_slot_bytes
        <= capacity.max_world_bytes
}

/// Checks that tables of `mixture_slots` and `turf_slots` slots fit in the world's budget.
pub fn validate_world_capacity(capacity: WorldCapacity, mixture_slots: u64, turf_slots: u64) -> (r: Result<
    (),
    WorldError,
>)
    ensures
        within_capacity(capacity, mixture_slots as int, turf_slots as int) ==> r is Ok,
        !within_capacity(capacity, mixture_slots as int, turf_slots as int) ==> r == Err::<(), WorldError>(
            WorldError::StateCapacityExceeded,
        ),
{
    let mixture_bytes = match mixture_slots.checked_mul(capacity.mixture_slot_bytes) {
        Some(bytes) => bytes,
        None => {
            return Err(WorldError::StateCapacityExceeded);
        },
    };
    let turf_bytes = match turf_slots.checked_mul(capacity.turf_slot_bytes) {
        Some(bytes) => bytes,
        None => {
            return Err(WorldError::StateCapacityExceeded);
        },
    };
    let world_bytes = match mixture_bytes.checked_add(turf_bytes) {
        Some(bytes) => bytes,
        None => {
            return Err(WorldError::StateCapacityExceeded);
        },
    };
    if world_bytes > capacity.max_world_bytes {
        return Err(WorldError::StateCapacityExceeded);
    }
    Ok(())
}

/// The state of slot `s` in `table`; slots past the table are unused.
pub open spec fn slot_in(table: Seq<ProjectedSlot>, s: int) -> ProjectedSlot {
    if 0 <= s < table.len() {
        table[s]
    } else {
        ProjectedSlot { generation: None, occupied: false }
    }
}

/// `table`, grown with unused slots to cover slot `s`, with slot `s` set to `state`.
pub open spec fn with_slot(table: Seq<ProjectedSlot>, s: int, state: ProjectedSlot) -> Seq<ProjectedSlot> {
    Seq::new(
        if s < table.len() {
            table.len()
        } else {
            (s + 1) as nat
        },
        |i: int|
            if i == s {
                state
            } else {
                slot_in(table, i)
            },
    )
}

/// What slot state `current` becomes when a handle of generation `generation` is registered
/// (when `register`) or unregistered. A registration may not go back to an older generation,
/// nor reuse the generation of a released slot; an unregistration must name the live
/// generation.
pub open spec fn transition(current: ProjectedSlot, generation: u32, register: bool) -> Result<
    ProjectedSlot,
    SlotRefusal,
> {
    if register {
        match current.generation {
            Some(g) => if generation < g || (!current.occupied && generation == g) {
                Err(SlotRefusal::Stale(g))
            } else {
                Ok(ProjectedSlot { generation: Some(generation), occupied: true })
            },
            None => Ok(ProjectedSlot { generation: Some(generation), occupied: true }),
        }
    } else {
        match current.generation {
            None => Err(SlotRefusal::Unknown),
            Some(g) => if generation != g {
                Err(SlotRefusal::Stale(g))
            } else if !current.occupied {
                Err(SlotRefusal::Unknown)
            } else {
                Ok(ProjectedSlot { generation: Some(g), occupied: false })
            },
        }
    }
}

/// Executable form of [`transition`].
pub fn apply_transition(current: ProjectedSlot, generation: u32, register: bool) -> (r: Result<
    ProjectedSlot,
    SlotRefusal,
>)
    ensures
        r == transition(current, generation, register),
{
    if register {
        match current.generation {
            Some(g) => {
                if generation < g || (!current.occupied && generation == g) {
                    Err(SlotRefusal::Stale(g))
                } else {
                    Ok(ProjectedSlot { generation: Some(generation), occupied: true })
                }
            },
            None => Ok(ProjectedSlot { generation: Some(generation), occupied: true }),
        }
    } else {
        match current.generation {
            None => Err(SlotRefusal::Unknown),
            Some(g) => {
                if generation != g {
                    Err(SlotRefusal::Stale(g))
                } else if !current.occupied {
                    Err(SlotRefusal::Unknown)
                } else {
                    Ok(ProjectedSlot { generation: Some(g), occupied: false })
                }
            },
        }
    }
}

/// The projected mixture table after `mutations`, or the first refusal. Each mutation's slot
/// must fit in the budget beside `turf_slots` turf slots (and its slot count in a `usize`),
/// then pass [`transition`] against the table as the earlier mutations left it.
pub open spec fn mixture_plan(
    table: Seq<ProjectedSlot>,
    mutations: Seq<LifecycleMutation>,
    turf_slots: int,
    capacity: WorldCapacity,
) -> Result<Seq<ProjectedSlot>, WorldError>
    decreases mutations.len(),
{
    if mutations.len() == 0 {
        Ok(table)
    } else {
        match mixture_plan(table, mutations.drop_last(), turf_slots, capacity) {
            Err(e) => Err(e),
            Ok(t) => {
                let m = mutations.last();
                let s = m.handle.slot as int;
                if !within_capacity(capacity, s + 1, turf_slots) || s + 1 > usize::MAX {
                    Err(WorldError::StateCapacityExceeded)
                } else {
                    match transition(slot_in(t, s), m.handle.generation, m.action == LifecycleAction::Register) {
                        Ok(p) => Ok(with_slot(t, s, p)),
                        Err(SlotRefusal::Stale(g)) => Err(WorldError::StaleHandle { requested: m.handle, current: g }),
                        Err(SlotRefusal::Unknown) => Err(WorldError::UnknownHandle(m.handle)),
                    }
                }
            },
        }
    }
}

/// Sets slot `s` of `table` to `state`, growing the table with unused slots as needed.
fn set_slot(table: &mut Vec<ProjectedSlot>, s: usize, state: ProjectedSlot)
    requires
        s < usize::MAX,
    ensures
        final(table)@ == with_slot(old(table)@, s as int, state),
{
    while table.len() <= s
        invariant
            s < usize::MAX,
            forall|i: int| 0 <= i < table@.len() ==> #[trigger] table@[i] == slot_in(old(table)@, i),
            table@.len() >= old(table)@.len(),
            table@.len() <= s + 1 || table@.len() == old(table)@.len(),
        decreases s + 1 - table@.len(),
    {
        table.push(ProjectedSlot { generation: None, occupied: false });
    }
    table.set(s, state);
    proof {
        assert(table@ =~= with_slot(old(table)@, s as int, state));
    }
}

/// The state of slot `s` of `table`, as [`slot_in`] describes.
fn read_slot(table: &Vec<ProjectedSlot>, s: usize) -> (r: ProjectedSlot)
    ensures
        r == slot_in(table@, s as int),
{
    if s < table.len() {
        table[s]
    } else {
        ProjectedSlot { generation: None, occupied: false }
    }
}

/// The admission phase of a mixture lifecycle batch: the projected mixture table, or the
/// first refusal, as [`mixture_plan`] describes.
pub fn plan_lifecycle(
    slots: &Vec<ProjectedSlot>,
    mutations: &[LifecycleMutation],
    turf_slots: u64,
    capacity: WorldCapacity,
) -> (r: Result<Vec<ProjectedSlot>, WorldError>)
    ensures
        match r {
            Ok(table) => mixture_plan(slots@, mutations@, turf_slots as int, capacity) == Ok::<
                Seq<ProjectedSlot>,
                WorldError,
            >(table@),
            Err(e) => mixture_plan(slots@, mutations@, turf_slots as int, capacity) == Err::<
                Seq<ProjectedSlot>,
                WorldError,
            >(e),
        },
{
    let mut table: Vec<ProjectedSlot> = slots.clone();
    proof {
        assert(table@ =~= slots@);
        assert(mutations@.take(0) =~= Seq::<LifecycleMutation>::empty());
    }
    let mut index: usize = 0;
    while index < mutations.len()
        invariant
            index <= mutations@.len(),
            mixture_plan(slots@, mutations@.take(index as int), turf_slots as int, capacity) == Ok::<
                Seq<ProjectedSlot>,
                WorldError,
            >(table@),
        decreases mutations@.len() - index,
    {
        let m = mutations[index];
        proof {
            assert(mutations@.take(index + 1).drop_last() =~= mutations@.take(index as int));
            assert(mutations@.take(index + 1).last() == m);
        }
        let slot = m.handle.slot;
        if validate_world_capacity(capacity, slot as u64 + 1, turf_slots).is_err() {
            proof {
                assert(mutations@.take(index + 1) =~= mutations@.take(index + 1));
                lemma_plan_stops(slots@, mutations@, index as int, turf_slots as int, capacity);
            }
            return Err(WorldError::StateCapacityExceeded);
        }
        if slot as u64 >= usize::MAX as u64 {
            proof {
                lemma_plan_stops(slots@, mutations@, index as int, turf_slots as int, capacity);
            }
            return Err(WorldError::StateCapacityExceeded);
        }
        let s = slot as usize;
        let current = read_slot(&table, s);
        let register = match m.action {
            LifecycleAction::Register => true,
            LifecycleAction::Unregister => false,
        };
        match apply_transition(current, m.handle.generation, register) {
            Ok(next) => {
                set_slot(&mut table, s, next);
            },
            Err(SlotRefusal::Stale(g)) => {
                proof {
                    lemma_plan_stops(slots@, mutations@, index as int, turf_slots as int, capacity);
                }
                return Err(WorldError::StaleHandle { requested: m.handle, current: g });
            },
            Err(SlotRefusal::Unknown) => {
                proof {
                    lemma_plan_stops(slots@, mutations@, index as int, turf_slots as int, capacity);
                }
                return Err(WorldError::UnknownHandle(m.handle));
            },
        }
        index += 1;
    }
    proof {
        assert(mutations@.take(index as int) =~= mutations@);
    }
    Ok(table)
}

/// Once a prefix of the batch is refused, the whole batch is refused the same way.
proof fn lemma_plan_stops(
    table: Seq<ProjectedSlot>,
    mutations: Seq<LifecycleMutation>,
    k: int,
    turf_slots: int,
    capacity: WorldCapacity,
)
    requires
        0 <= k < mutations.len(),
    ensures
        mixture_plan(table, mutations.take(k + 1), turf_slots, capacity) is Err ==> mixture_plan(
            table,
            mutations,
            turf_slots,
            capacity,
        ) == mixture_plan(table, mutations.take(k + 1), turf_slots, capacity),
    decreases mutations.len() - k,
{
    if k + 1 < mutations.len() {
        lemma_plan_stops(table, mutations, k + 1, turf_slots, capacity);
        assert(mutations.take(k + 2).drop_last() =~= mutations.take(k + 1));
    } else {
        assert(mutations.take(k + 1) =~= mutations);
    }
}

/// The refusal a turf registration gets for naming mixture `h`, if any: the mixture must be
/// live under exactly that generation in `mixtures`.
pub open spec fn mixture_refusal(mixtures: Seq<ProjectedSlot>, h: MixtureHandle) -> Option<WorldError> {
    let state = slot_in(mixtures, h.slot as int);
    match state.generation {
        None => Some(WorldError::UnknownHandle(h)),
        Some(g) => if g != h.generation {
            Some(WorldError::StaleHandle { requested: h, current: g })
        } else if !state.occupied {
            Some(WorldError::UnknownHandle(h))
        } else {
            None
        },
    }
}

/// The handle, mixture and direction of a turf lifecycle mutation.
pub open spec fn turf_parts(m: TurfLifecycleMutation) -> (TurfHandle, Option<MixtureHandle>, bool) {
    match m {
        TurfLifecycleMutation::Register { handle, mixture } => (handle, mixture, true),
        TurfLifecycleMutation::Unregister { handle } => (handle, None, false),
    }
}

/// The projected turf table after `mutations`, or the first refusal. A registration's
/// mixture must be live in `mixtures`; each mutation's slot must fit in the budget beside
/// `mixture_slots` mixture slots (and its slot count in a `usize`); then the mutation must
/// pass [`transition`] against the table as the earlier mutations left it.
pub open spec fn turf_plan(
    table: Seq<ProjectedSlot>,
    mutations: Seq<TurfLifecycleMutation>,
    mixtures: Seq<ProjectedSlot>,
    mixture_slots: int,
    capacity: WorldCapacity,
) -> Result<Seq<ProjectedSlot>, WorldError>
    decreases mutations.len(),
{
    if mutations.len() == 0 {
        Ok(table)
    } else {
        match turf_plan(table, mutations.drop_last(), mixtures, mixture_slots, capacity) {
            Err(e) => Err(e),
            Ok(t) => {
                let (handle, mixture, register) = turf_parts(mutations.last());
                let s = handle.slot as int;
                if mixture is Some && mixture_refusal(mixtures, mixture->0) is Some {
                    Err(mixture_refusal(mixtures, mixture->0)->0)
                } else if !within_capacity(capacity, mixture_slots, s + 1) || s + 1 > usize::MAX {
                    Err(WorldError::StateCapacityExceeded)
                } else {
                    match transition(slot_in(t, s), handle.generation, register) {
                        Ok(p) => Ok(with_slot(t, s, p)),
                        Err(SlotRefusal::Stale(g)) => Err(WorldError::StaleTurfHandle { requested: handle, current: g }),
                        Err(SlotRefusal::Unknown) => Err(WorldError::UnknownTurfHandle(handle)),
                    }
                }
            },
        }
    }
}

/// The refusal of turf lifecycle batches while a stage is in progress.
pub open spec fn turf_lifecycle_conflict() -> WorldError {
    WorldError::StageConflict(StageConflictReason::ActiveStageMutation { operation: "apply turf lifecycle" })
}

/// The admission phase of a turf lifecycle batch: refused while a stage is active, else the
/// projected turf table or the first refusal, as [`turf_plan`] describes.
pub fn plan_turf_lifecycle(
    stage_active: bool,
    slots: &Vec<ProjectedSlot>,
    mutations: &[TurfLifecycleMutation],
    mixtures: &Vec<ProjectedSlot>,
    mixture_slots: u64,
    capacity: WorldCapacity,
) -> (r: Result<Vec<ProjectedSlot>, WorldError>)
    ensures
        stage_active ==> r == Err::<Vec<ProjectedSlot>, WorldError>(turf_lifecycle_conflict()),
        !stage_active ==> match r {
            Ok(table) => turf_plan(slots@, mutations@, mixtures@, mixture_slots as int, capacity) == Ok::<
                Seq<ProjectedSlot>,
                WorldError,
            >(table@),
            Err(e) => turf_plan(slots@, mutations@, mixtures@, mixture_slots as int, capacity) == Err::<
                Seq<ProjectedSlot>,
                WorldError,
            >(e),
        },
{
    if stage_active {
        return Err(WorldError::StageConflict(StageConflictReason::ActiveStageMutation { operation: "apply turf lifecycle" }));
    }
    let mut table: Vec<ProjectedSlot> = slots.clone();
    proof {
        assert(table@ =~= slots@);
        assert(mutations@.take(0) =~= Seq::<TurfLifecycleMutation>::empty());
    }
    let mut index: usize = 0;
    while index < mutations.len()
        invariant
            !stage_active,
            index <= mutations@.len(),
            turf_plan(slots@, mutations@.take(index as int), mixtures@, mixture_slots as int, capacity) == Ok::<
                Seq<ProjectedSlot>,
                WorldError,
            >(table@),
        decreases mutations@.len() - index,
    {
        let m = mutations[index];
        proof {
            assert(mutations@.take(index + 1).drop_last() =~= mutations@.take(index as int));
            assert(mutations@.take(index + 1).last() == m);
        }
        let (handle, mixture, register) = match m {
            TurfLifecycleMutation::Register { handle, mixture } => (handle, mixture, true),
            TurfLifecycleMutation::Unregister { handle } => (handle, None, false),
        };
        if let Some(mx) = mixture {
            let state = read_slot(mixtures, mx.slot as usize);
            let refusal = match state.generation {
                None => Some(WorldError::UnknownHandle(mx)),
                Some(g) => {
                    if g != mx.generation {
                        Some(WorldError::StaleHandle { requested: mx, current: g })
                    } else if !state.occupied {
                        Some(WorldError::UnknownHandle(mx))
                    } else {
                        None
                    }
                },
            };
            if let Some(e) = refusal {
                proof {
                    lemma_turf_plan_stops(slots@, mutations@, index as int, mixtures@, mixture_slots as int, capacity);
                }
                return Err(e);
            }
        }
        let slot = handle.slot;
        if validate_world_capacity(capacity, mixture_slots, slot as u64 + 1).is_err() || slot as u64 >= usize::MAX as u64 {
            proof {
                lemma_turf_plan_stops(slots@, mutations@, index as int, mixtures@, mixture_slots as int, capacity);
            }
            return Err(WorldError::StateCapacityExceeded);
        }
        let s = slot as usize;
        let current = read_slot(&table, s);
        match apply_transition(current, handle.generation, register) {
            Ok(next) => {
                set_slot(&mut table, s, next);
            },
            Err(SlotRefusal::Stale(g)) => {
                proof {
                    lemma_turf_plan_stops(slots@, mutations@, index as int, mixtures@, mixture_slots as int, capacity);
                }
                return Err(WorldError::StaleTurfHandle { requested: handle, current: g });
            },
            Err(SlotRefusal::Unknown) => {
                proof {
                    lemma_turf_plan_stops(slots@, mutations@, index as int, mixtures@, mixture_slots as int, capacity);
                }
                return Err(WorldError::UnknownTurfHandle(handle));
            },
        }
        index += 1;
    }
    proof {
        assert(mutations@.take(index as int) =~= mutations@);
    }
    Ok(table)
}

/// Once a prefix of a turf batch is refused, the whole batch is refused the same way.
proof fn lemma_turf_plan_stops(
    table: Seq<ProjectedSlot>,
    mutations: Seq<TurfLifecycleMutation>,
    k: int,
    mixtures: Seq<ProjectedSlot>,
    mixture_slots: int,
    capacity: WorldCapacity,
)
    requires
        0 <= k < mutations.len(),
    ensures
        turf_plan(table, mutations.take(k + 1), mixtures, mixture_slots, capacity) is Err ==> turf_plan(
            table,
            mutations,
            mixtures,
            mixture_slots,
            capacity,
        ) == turf_plan(table, mutations.take(k + 1), mixtures, mixture_slots, capacity),
    decreases mutations.len() - k,
{
    if k + 1 < mutations.len() {
        lemma_turf_plan_stops(table, mutations, k + 1, mixtures, mixture_slots, capacity);
        assert(mutations.take(k + 2).drop_last() =~= mutations.take(k + 1));
    } else {
        assert(mutations.take(k + 1) =~= mutations);
    }
}

/// The generation rules of one slot. An unregistration succeeds exactly when the handle
/// names the slot's live generation and releases it under that generation; any other
/// generation is stale, reported with the slot's generation, and an unused or released slot
/// is unknown. A registration succeeds exactly when the slot is unused, or the handle's
/// generation is newer than the slot's, or equal to a live one; it leaves the slot live under
/// the handle's generation. Every refusal of a used slot reports the slot's generation.
pub proof fn lemma_transition_rules(current: ProjectedSlot, generation: u32, register: bool)
    ensures
        !register ==> (transition(current, generation, register) is Ok <==> (current.generation == Some(generation)
            && current.occupied)),
        !register && transition(current, generation, register) is Ok ==> transition(current, generation, register)
            == Ok::<ProjectedSlot, SlotRefusal>(ProjectedSlot { generation: Some(generation), occupied: false }),
        !register && current.generation is None ==> transition(current, generation, register) == Err::<
            ProjectedSlot,
            SlotRefusal,
        >(SlotRefusal::Unknown),
        !register && current.generation == Some(generation) && !current.occupied ==> transition(
            current,
            generation,
            register,
        ) == Err::<ProjectedSlot, SlotRefusal>(SlotRefusal::Unknown),
        register ==> (transition(current, generation, register) is Ok <==> (current.generation is None || generation
            > current.generation->0 || (generation == current.generation->0 && current.occupied))),
        register && transition(current, generation, register) is Ok ==> transition(current, generation, register)
            == Ok::<ProjectedSlot, SlotRefusal>(ProjectedSlot { generation: Some(generation), occupied: true }),
        forall|g: u32|
            current.generation == Some(g) && g != generation && !(register && generation > g) ==> transition(
                current,
                generation,
                register,
            ) == Err::<ProjectedSlot, SlotRefusal>(SlotRefusal::Stale(g)),
{
}

/// Unregistering a mixture with a handle of another generation than the live one refuses
/// the whole batch as stale, naming the handle and the slot's generation, when it comes
/// first and its slot fits in the budget.
pub proof fn lemma_unregister_other_generation(
    table: Seq<ProjectedSlot>,
    mutations: Seq<LifecycleMutation>,
    turf_slots: int,
    capacity: WorldCapacity,
    g: u32,
)
    requires
        mutations.len() > 0,
        mutations[0].action == LifecycleAction::Unregister,
        slot_in(table, mutations[0].handle.slot as int).generation == Some(g),
        g != mutations[0].handle.generation,
        within_capacity(capacity, mutations[0].handle.slot + 1, turf_slots),
        mutations[0].handle.slot + 1 <= usize::MAX,
    ensures
        mixture_plan(table, mutations, turf_slots, capacity) == Err::<Seq<ProjectedSlot>, WorldError>(
            WorldError::StaleHandle { requested: mutations[0].handle, current: g },
        ),
{
    assert(mutations.take(1).drop_last() =~= Seq::<LifecycleMutation>::empty());
    assert(mutations.take(1).last() == mutations[0]);
    lemma_transition_rules(slot_in(table, mutations[0].handle.slot as int), mutations[0].handle.generation, false);
    assert(mixture_plan(table, Seq::<LifecycleMutation>::empty(), turf_slots, capacity) == Ok::<
        Seq<ProjectedSlot>,
        WorldError,
    >(table));
    assert(mixture_plan(table, mutations.take(1), turf_slots, capacity) == Err::<Seq<ProjectedSlot>, WorldError>(
        WorldError::StaleHandle { requested: mutations[0].handle, current: g },
    ));
    lemma_plan_stops(table, mutations, 0, turf_slots, capacity);
}

/// Unregistering a turf with a handle of another generation than the live one refuses the
/// whole batch as stale, naming the turf handle and the slot's generation, when it comes
/// first and its slot fits in the budget.
pub proof fn lemma_turf_unregister_other_generation(
    table: Seq<ProjectedSlot>,
    mutations: Seq<TurfLifecycleMutation>,
    mixtures: Seq<ProjectedSlot>,
    mixture_slots: int,
    capacity: WorldCapacity,
    handle: TurfHandle,
    g: u32,
)
    requires
        mutations.len() > 0,
        mutations[0] == (TurfLifecycleMutation::Unregister { handle }),
        slot_in(table, handle.slot as int).generation == Some(g),
        g != handle.generation,
        within_capacity(capacity, mixture_slots, handle.slot + 1),
        handle.slot + 1 <= usize::MAX,
    ensures
        turf_plan(table, mutations, mixtures, mixture_slots, capacity) == Err::<Seq<ProjectedSlot>, WorldError>(
            WorldError::StaleTurfHandle { requested: handle, current: g },
        ),
{
    assert(mutations.take(1).drop_last() =~= Seq::<TurfLifecycleMutation>::empty());
    assert(mutations.take(1).last() == mutations[0]);
    lemma_transition_rules(slot_in(table, handle.slot as int), handle.generation, false);
    assert(turf_plan(table, Seq::<TurfLifecycleMutation>::empty(), mixtures, mixture_slots, capacity) == Ok::<
        Seq<ProjectedSlot>,
        WorldError,
    >(table));
    assert(turf_plan(table, mutations.take(1), mixtures, mixture_slots, capacity) == Err::<Seq<ProjectedSlot>, WorldError>(
        WorldError::StaleTurfHandle { requested: handle, current: g },
    ));
    lemma_turf_plan_stops(table, mutations, 0, mixtures, mixture_slots, capacity);
}

/// Whether mixture `h` is live in `mixtures`: its slot is in the table, holds a mixture, and
/// carries exactly `h`'s generation.
pub open spec fn mixture_live(mixtures: Seq<ProjectedSlot>, h: MixtureHandle) -> bool {
    &&& (h.slot as int) < mixtures.len()
    &&& mixtures[h.slot as int].generation == Some(h.generation)
    &&& mixtures[h.slot as int].occupied
}

/// An accepted turf batch names only live mixtures: every registration in it that names a
/// mixture names one that is live in the mixture table.
pub proof fn lemma_accepted_turfs_name_live_mixtures(
    table: Seq<ProjectedSlot>,
    mutations: Seq<TurfLifecycleMutation>,
    mixtures: Seq<ProjectedSlot>,
    mixture_slots: int,
    capacity: WorldCapacity,
)
    requires
        turf_plan(table, mutations, mixtures, mixture_slots, capacity) is Ok,
    ensures
        forall|k: int|
            0 <= k < mutations.len() ==> (#[trigger] mutations[k] matches TurfLifecycleMutation::Register {
                mixture: Some(mx),
                ..
            } ==> mixture_live(mixtures, mx)),
    decreases mutations.len(),
{
    if mutations.len() > 0 {
        let prefix = mutations.drop_last();
        lemma_accepted_turfs_name_live_mixtures(table, prefix, mixtures, mixture_slots, capacity);
        assert forall|k: int|
            0 <= k < mutations.len() implies (#[trigger] mutations[k] matches TurfLifecycleMutation::Register {
                mixture: Some(mx),
                ..
            } ==> mixture_live(mixtures, mx)) by {
            if k < mutations.len() - 1 {
                assert(prefix[k] == mutations[k]);
            } else {
                assert(mutations.last() == mutations[k]);
            }
        }
    }
}

/// A turf registration naming a mixture that is not live refuses the whole batch, when it
/// comes first: as stale, with the slot's generation, when the mixture's slot carries
/// another generation; otherwise (an unused or released slot, or one past the table) with
/// the mixture unknown.
pub proof fn lemma_turf_names_unknown_mixture(
    table: Seq<ProjectedSlot>,
    mutations: Seq<TurfLifecycleMutation>,
    mixtures: Seq<ProjectedSlot>,
    mixture_slots: int,
    capacity: WorldCapacity,
    handle: TurfHandle,
    mx: MixtureHandle,
)
    requires
        mutations.len() > 0,
        mutations[0] == (TurfLifecycleMutation::Register { handle, mixture: Some(mx) }),
        !mixture_live(mixtures, mx),
    ensures
        ((mx.slot as int) < mixtures.len() && mixtures[mx.slot as int].generation is Some
            && mixtures[mx.slot as int].generation != Some(mx.generation)) ==> turf_plan(
            table,
            mutations,
            mixtures,
            mixture_slots,
            capacity,
        ) == Err::<Seq<ProjectedSlot>, WorldError>(
            WorldError::StaleHandle { requested: mx, current: mixtures[mx.slot as int].generation->0 },
        ),
        !((mx.slot as int) < mixtures.len() && mixtures[mx.slot as int].generation is Some
            && mixtures[mx.slot as int].generation != Some(mx.generation)) ==> turf_plan(
            table,
            mutations,
            mixtures,
            mixture_slots,
            capacity,
        ) == Err::<Seq<ProjectedSlot>, WorldError>(WorldError::UnknownHandle(mx)),
{
    assert(mutations.take(1).drop_last() =~= Seq::<TurfLifecycleMutation>::empty());
    assert(mutations.take(1).last() == mutations[0]);
    assert(turf_plan(table, Seq::<TurfLifecycleMutation>::empty(), mixtures, mixture_slots, capacity) == Ok::<
        Seq<ProjectedSlot>,
        WorldError,
    >(table));
    assert(turf_plan(table, mutations.take(1), mixtures, mixture_slots, capacity) is Err);
    lemma_turf_plan_stops(table, mutations, 0, mixtures, mixture_slots, capacity);
}

/// An accepted single lifecycle change sets its slot live (registration) or released
/// (unregistration) under the handle's generation, grows the table with unused slots up to
/// that slot when it lies past the end, and leaves every other slot as it was.
pub proof fn lemma_single_change_table(
    table: Seq<ProjectedSlot>,
    mutations: Seq<LifecycleMutation>,
    turf_slots: int,
    capacity: WorldCapacity,
)
    requires
        mutations.len() == 1,
        mixture_plan(table, mutations, turf_slots, capacity) is Ok,
    ensures
        ({
            let after = mixture_plan(table, mutations, turf_slots, capacity)->Ok_0;
            let s = mutations[0].handle.slot as int;
            &&& after.len() == if s < table.len() {
                table.len() as int
            } else {
                s + 1
            }
            &&& after[s] == (ProjectedSlot {
                generation: Some(mutations[0].handle.generation),
                occupied: mutations[0].action == LifecycleAction::Register,
            })
            &&& forall|i: int|
                0 <= i < after.len() && i != s ==> #[trigger] after[i] == if i < table.len() {
                    table[i]
                } else {
                    ProjectedSlot { generation: None, occupied: false }
                }
        }),
{
    assert(mutations.drop_last() =~= Seq::<LifecycleMutation>::empty());
    assert(mixture_plan(table, Seq::<LifecycleMutation>::empty(), turf_slots, capacity) == Ok::<
        Seq<ProjectedSlot>,
        WorldError,
    >(table));
    let m = mutations.last();
    assert(m == mutations[0]);
    lemma_transition_rules(
        slot_in(table, m.handle.slot as int),
        m.handle.generation,
        m.action == LifecycleAction::Register,
    );
}

} // verus!
