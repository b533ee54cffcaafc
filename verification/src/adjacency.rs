//! Turf adjacency and firelock batches. Each change names two turfs, which must be live in
//! the turf table, and is then applied to the packed gas topology, in batch order. A refused
//! change ends the batch; the changes before it stay applied.
use vstd::prelude::*;

use crate::handles::TurfHandle;
use crate::topology::{
    empty_row, neighbor_at, occupied, row_has, row_links, row_lists, PackedTopology, TopologyError,
    TopologyNeighbor, MAX_TURF_NEIGHBORS,
};
use crate::world::{
    map_topology_error, topology_error_text, StageConflictReason, TurfAdjacencyMutation,
    TurfFirelockMutation, WorldError,
};

verus! {

/// What the world records of one turf slot: the generation it was last registered under,
/// whether a turf is registered there now, and whether that turf has a mixture.
#[derive(Clone, Copy, Debug, PartialEq, Eq)]
pub struct TurfState {
    pub generation: Option<u32>,
    pub registered: bool,
    pub has_mixture: bool,
}

/// Why handle `h` does not name a live turf of `turfs`, if it does not.
pub open spec fn turf_refusal(turfs: Seq<TurfState>, h: TurfHandle) -> Option<WorldError> {
    if h.slot >= turfs.len() {
        Some(WorldError::UnknownTurfHandle(h))
    } else {
        match turfs[h.slot as int].generation {
            None => Some(WorldError::UnknownTurfHandle(h)),
            Some(g) => if g != h.generation {
                Some(WorldError::StaleTurfHandle { requested: h, current: g })
            } else if !turfs[h.slot as int].registered {
                Some(WorldError::UnknownTurfHandle(h))
            } else {
                None
            },
        }
    }
}

/// Whether `h` names a live turf of `turfs`: its slot is in the table, carries exactly `h`'s
/// generation, and holds a registered turf.
pub open spec fn turf_live(turfs: Seq<TurfState>, h: TurfHandle) -> bool {
    &&& (h.slot as int) < turfs.len()
    &&& turfs[h.slot as int].generation == Some(h.generation)
    &&& turfs[h.slot as int].registered
}

/// A handle is refused exactly when it does not name a live turf; a refusal of a slot with a
/// generation other than the handle's reports that generation.
pub proof fn lemma_turf_refusal_rules(turfs: Seq<TurfState>, h: TurfHandle)
    ensures
        turf_refusal(turfs, h) is None <==> turf_live(turfs, h),
        forall|g: u32|
            (h.slot as int) < turfs.len() && turfs[h.slot as int].generation == Some(g) && g != h.generation
                ==> turf_refusal(turfs, h) == Some(WorldError::StaleTurfHandle { requested: h, current: g }),
        !turf_live(turfs, h) && !((h.slot as int) < turfs.len() && turfs[h.slot as int].generation is Some
            && turfs[h.slot as int].generation != Some(h.generation)) ==> turf_refusal(turfs, h) == Some(
            WorldError::UnknownTurfHandle(h),
        ),
{
}

/// Checks that `h` names a live turf of `turfs`, as [`turf_refusal`] describes, and returns
/// its record.
pub fn require_turf(turfs: &Vec<TurfState>, h: TurfHandle) -> (r: Result<TurfState, WorldError>)
    ensures
        match turf_refusal(turfs@, h) {
            Some(e) => r == Err::<TurfState, WorldError>(e),
            None => r == Ok::<TurfState, WorldError>(turfs@[h.slot as int]),
        },
{
    if h.slot as usize >= turfs.len() {
        return Err(WorldError::UnknownTurfHandle(h));
    }
    let state = turfs[h.slot as usize];
    match state.generation {
        None => Err(WorldError::UnknownTurfHandle(h)),
        Some(g) => {
            if g != h.generation {
                Err(WorldError::StaleTurfHandle { requested: h, current: g })
            } else if !state.registered {
                Err(WorldError::UnknownTurfHandle(h))
            } else {
                Ok(state)
            }
        },
    }
}

/// Every handle in the gas lists of `topology` names a live turf of `turfs`: the world keeps
/// this by dropping a turf's connections whenever its registration ends or changes generation.
pub open spec fn gas_lists_live(topology: PackedTopology, turfs: Seq<TurfState>) -> bool {
    forall|a: int, i: int|
        0 <= i < MAX_TURF_NEIGHBORS && occupied(topology.row(a, false), i) ==> turf_refusal(
            turfs,
            #[trigger] neighbor_at(topology.row(a, false), i).handle,
        ) is None
}

/// Whether `e` is the world's report of the topology refusal `te`.
pub open spec fn reports_topology_error(e: WorldError, te: TopologyError) -> bool {
    if te == TopologyError::AllocationFailed {
        e == WorldError::AllocationFailed
    } else {
        e matches WorldError::Graph(text) && text@ == topology_error_text(te)
    }
}

/// The answer `r` of the world to the topology's answer `tr`.
pub open spec fn world_answer(tr: Result<bool, TopologyError>, r: Result<bool, WorldError>) -> bool {
    match tr {
        Ok(changed) => r == Ok::<bool, WorldError>(changed),
        Err(te) => r matches Err(e) && reports_topology_error(e, te),
    }
}

/// The refusal an adjacency change gets before it reaches the topology, if any: both turfs
/// live, both with a mixture, and two different slots.
pub open spec fn adjacency_refusal(turfs: Seq<TurfState>, m: TurfAdjacencyMutation) -> Option<WorldError> {
    if turf_refusal(turfs, m.left) is Some {
        turf_refusal(turfs, m.left)
    } else if turf_refusal(turfs, m.right) is Some {
        turf_refusal(turfs, m.right)
    } else if !turfs[m.left.slot as int].has_mixture {
        Some(WorldError::TurfMissingMixture(m.left))
    } else if !turfs[m.right.slot as int].has_mixture {
        Some(WorldError::TurfMissingMixture(m.right))
    } else if m.left.slot == m.right.slot {
        Some(WorldError::SelfTurfAdjacency(m.left))
    } else {
        None
    }
}

/// What one adjacency change did to the topology and what it answered: the refusal with the
/// topology untouched, or the connection or disconnection as the topology describes it.
pub open spec fn adjacency_step(
    turfs: Seq<TurfState>,
    before: PackedTopology,
    after: PackedTopology,
    m: TurfAdjacencyMutation,
    r: Result<bool, WorldError>,
) -> bool {
    match adjacency_refusal(turfs, m) {
        Some(e) => r == Err::<bool, WorldError>(e) && after == before,
        None => if m.connected {
            exists|tr: Result<bool, TopologyError>| #[trigger]
                PackedTopology::connect_outcome(before, after, m.left, m.right, false, tr) && world_answer(tr, r) && (
                tr == Ok::<bool, TopologyError>(true) ==> after.edge_count(false) == before.edge_count(false) + 1
                    && after.revision_value() == before.revision_value().wrapping_add(1)) && (tr != Ok::<
                bool,
                TopologyError,
            >(true) ==> after.edge_count(false) == before.edge_count(false) && after.revision_value()
                == before.revision_value() && forall|a: int, k: bool| #[trigger] after.row(a, k) == before.row(a, k))
                && after.edge_count(true) == before.edge_count(true)
        } else {
            &&& r matches Ok(changed)
            &&& PackedTopology::disconnect_outcome(before, after, m.left, m.right, false, changed)
            &&& after.edge_count(true) == before.edge_count(true)
            &&& changed ==> after.edge_count(false) + 1 == before.edge_count(false)
                && after.revision_value() == before.revision_value().wrapping_add(1)
            &&& !changed ==> after.edge_count(false) == before.edge_count(false) && after.revision_value()
                == before.revision_value()
        },
    }
}

/// A list that names only live turfs names `right`'s slot only as `right`, when `right` is live.
proof fn lemma_live_names_only(topology: PackedTopology, turfs: Seq<TurfState>, left: TurfHandle, right: TurfHandle)
    requires
        gas_lists_live(topology, turfs),
        turf_refusal(turfs, right) is None,
    ensures
        topology.names_only(left, right, false),
{
    let row = topology.row(left.slot as int, false);
    if row_links(row, right.slot) {
        let i = choose|i: int|
            0 <= i < MAX_TURF_NEIGHBORS && occupied(row, i) && #[trigger] neighbor_at(row, i).handle.slot == right.slot;
        assert(turf_refusal(turfs, neighbor_at(row, i).handle) is None);
        assert(neighbor_at(row, i).handle == right);
    }
}

/// In a well-formed topology whose lists name only live turfs, a pair listed one way is listed
/// the other way too, when both ends are live.
proof fn lemma_live_lists_back(topology: PackedTopology, turfs: Seq<TurfState>, left: TurfHandle, right: TurfHandle)
    requires
        topology.wf(),
        gas_lists_live(topology, turfs),
        turf_refusal(turfs, left) is None,
    ensures
        topology.lists_back(left, right, false),
{
    let l = left.slot as int;
    let row = topology.row(l, false);
    if row_lists(row, right) {
        let i = choose|i: int| 0 <= i < MAX_TURF_NEIGHBORS && occupied(row, i) && #[trigger] neighbor_at(row, i).handle == right;
        if !(0 <= l < topology.slot_count()) {
            topology.lemma_row_shape(l, false);
            assert(row[i] == empty_row()[i]);
        }
        topology.lemma_adjacency_symmetric(l, i, false);
        let e = neighbor_at(row, i);
        let back = topology.row(e.handle.slot as int, false);
        let j = crate::topology::lemma_links_witness(back, l as u32, e.firelock);
        assert(turf_refusal(turfs, neighbor_at(back, j).handle) is None);
        assert(neighbor_at(back, j).handle == left);
    }
}

/// A change that keeps every list of `before` or adds live neighbors keeps the lists live.
proof fn lemma_live_kept(before: PackedTopology, after: PackedTopology, turfs: Seq<TurfState>)
    requires
        gas_lists_live(before, turfs),
        forall|a: int, n: TopologyNeighbor| #[trigger] row_has(after.row(a, false), n) ==> row_has(
            before.row(a, false),
            n,
        ) || turf_refusal(turfs, n.handle) is None,
    ensures
        gas_lists_live(after, turfs),
{
    assert forall|a: int, i: int|
        0 <= i < MAX_TURF_NEIGHBORS && occupied(after.row(a, false), i) implies turf_refusal(
        turfs,
        #[trigger] neighbor_at(after.row(a, false), i).handle,
    ) is None by {
        let n = neighbor_at(after.row(a, false), i);
        crate::topology::lemma_has_at(after.row(a, false), i);
        if row_has(before.row(a, false), n) {
            let p = choose|p: int| 0 <= p < MAX_TURF_NEIGHBORS && before.row(a, false)[p] == Some(n);
            assert(neighbor_at(before.row(a, false), p) == n);
        }
    }
}

/// Applies one adjacency change, as [`adjacency_step`] describes.
pub fn apply_adjacency_change(turfs: &Vec<TurfState>, topology: &mut PackedTopology, m: TurfAdjacencyMutation) -> (r:
    Result<bool, WorldError>)
    requires
        old(topology).wf(),
        gas_lists_live(*old(topology), turfs@),
        old(topology).edge_count(false) < usize::MAX,
    ensures
        final(topology).wf(),
        gas_lists_live(*final(topology), turfs@),
        adjacency_step(turfs@, *old(topology), *final(topology), m, r),
        final(topology).edge_count(false) <= old(topology).edge_count(false) + 1,
        turf_live(turfs@, m.left) && turf_live(turfs@, m.right) && !turfs@[m.left.slot as int].has_mixture ==> r
            == Err::<bool, WorldError>(WorldError::TurfMissingMixture(m.left)) && *final(topology) == *old(topology),
        turf_live(turfs@, m.left) && turf_live(turfs@, m.right) && turfs@[m.left.slot as int].has_mixture
            && !turfs@[m.right.slot as int].has_mixture ==> r == Err::<bool, WorldError>(
            WorldError::TurfMissingMixture(m.right),
        ) && *final(topology) == *old(topology),
        r is Ok ==> turf_live(turfs@, m.left) && turf_live(turfs@, m.right) && turfs@[m.left.slot as int].has_mixture
            && turfs@[m.right.slot as int].has_mixture && m.left.slot != m.right.slot,
{
    proof {
        lemma_adjacency_needs_live_mixtures(turfs@, m);
    }
    let left = match require_turf(turfs, m.left) {
        Ok(state) => state,
        Err(e) => {
            return Err(e);
        },
    };
    let right = match require_turf(turfs, m.right) {
        Ok(state) => state,
        Err(e) => {
            return Err(e);
        },
    };
    if !left.has_mixture {
        return Err(WorldError::TurfMissingMixture(m.left));
    }
    if !right.has_mixture {
        return Err(WorldError::TurfMissingMixture(m.right));
    }
    if m.left.slot == m.right.slot {
        return Err(WorldError::SelfTurfAdjacency(m.left));
    }
    let ghost before = *topology;
    if m.connected {
        proof {
            lemma_live_names_only(before, turfs@, m.left, m.right);
        }
        let tr = topology.connect_gas(m.left, m.right);
        proof {
            let after = *topology;
            if tr == Ok::<bool, TopologyError>(true) {
                assert forall|a: int, n: TopologyNeighbor| #[trigger] row_has(after.row(a, false), n) implies row_has(
                    before.row(a, false),
                    n,
                ) || turf_refusal(turfs@, n.handle) is None by {
                    if a != m.left.slot as int && a != m.right.slot as int {
                        assert(after.row(a, false) == before.row(a, false));
                    }
                }
            }
            lemma_live_kept(before, after, turfs@);
        }
        match tr {
            Ok(changed) => Ok(changed),
            Err(te) => Err(map_topology_error(te)),
        }
    } else {
        proof {
            lemma_live_lists_back(before, turfs@, m.left, m.right);
        }
        let changed = topology.disconnect_gas(m.left, m.right);
        proof {
            let after = *topology;
            if changed {
                assert forall|a: int, n: TopologyNeighbor| #[trigger] row_has(after.row(a, false), n) implies row_has(
                    before.row(a, false),
                    n,
                ) || turf_refusal(turfs@, n.handle) is None by {
                    if a != m.left.slot as int && a != m.right.slot as int {
                        assert(after.row(a, false) == before.row(a, false));
                    }
                }
            }
            lemma_live_kept(before, after, turfs@);
        }
        Ok(changed)
    }
}

/// Whether one adjacency change succeeded in taking `before` to `after`.
pub open spec fn adjacency_step_ok(
    turfs: Seq<TurfState>,
    before: PackedTopology,
    after: PackedTopology,
    m: TurfAdjacencyMutation,
) -> bool {
    exists|changed: bool| #[trigger] adjacency_step(turfs, before, after, m, Ok::<bool, WorldError>(changed))
}

/// A run of an adjacency batch through the topologies `states`: every change before the last
/// one tried succeeded and took each topology to the next; the batch answers the number of
/// changes when all succeeded, or else the refusal of the last one tried.
pub open spec fn adjacency_run(
    turfs: Seq<TurfState>,
    mutations: Seq<TurfAdjacencyMutation>,
    states: Seq<PackedTopology>,
    r: Result<u32, WorldError>,
) -> bool {
    match r {
        Ok(n) => {
            &&& states.len() == mutations.len() + 1
            &&& n == mutations.len() as u32
            &&& forall|i: int|
                0 <= i < mutations.len() ==> #[trigger] adjacency_step_ok(turfs, states[i], states[i + 1], mutations[i])
        },
        Err(e) => {
            &&& 2 <= states.len() <= mutations.len() + 1
            &&& forall|i: int|
                0 <= i < states.len() - 2 ==> #[trigger] adjacency_step_ok(turfs, states[i], states[i + 1], mutations[i])
            &&& adjacency_step(
                turfs,
                states[states.len() - 2],
                states[states.len() - 1],
                mutations[states.len() - 2],
                Err::<bool, WorldError>(e),
            )
        },
    }
}

/// The refusal of adjacency batches while a stage is in progress.
pub open spec fn adjacency_conflict() -> WorldError {
    WorldError::StageConflict(StageConflictReason::ActiveStageMutation { operation: "apply turf adjacency" })
}

/// Applies a batch of adjacency changes in order, as [`adjacency_run`] describes; refused
/// outright while a stage is in progress.
pub fn apply_turf_adjacency(
    stage_active: bool,
    turfs: &Vec<TurfState>,
    topology: &mut PackedTopology,
    mutations: &[TurfAdjacencyMutation],
) -> (r: Result<u32, WorldError>)
    requires
        old(topology).wf(),
        gas_lists_live(*old(topology), turfs@),
        old(topology).edge_count(false) + mutations@.len() < usize::MAX,
    ensures
        final(topology).wf(),
        gas_lists_live(*final(topology), turfs@),
        stage_active ==> r == Err::<u32, WorldError>(adjacency_conflict()) && *final(topology) == *old(topology),
        !stage_active ==> exists|states: Seq<PackedTopology>| #[trigger]
            adjacency_run(turfs@, mutations@, states, r) && states[0] == *old(topology) && states.last()
                == *final(topology),
{
    if stage_active {
        return Err(WorldError::StageConflict(StageConflictReason::ActiveStageMutation { operation: "apply turf adjacency" }));
    }
    let ghost mut states: Seq<PackedTopology> = seq![*topology];
    let mut index: usize = 0;
    while index < mutations.len()
        invariant
            !stage_active,
            index <= mutations@.len(),
            topology.wf(),
            gas_lists_live(*topology, turfs@),
            topology.edge_count(false) <= old(topology).edge_count(false) + index,
            old(topology).edge_count(false) + mutations@.len() < usize::MAX,
            states.len() == index + 1,
            states[0] == *old(topology),
            states.last() == *topology,
            forall|i: int|
                0 <= i < index ==> #[trigger] adjacency_step_ok(turfs@, states[i], states[i + 1], mutations@[i]),
        decreases mutations@.len() - index,
    {
        let m = mutations[index];
        let ghost before = *topology;
        let answer = apply_adjacency_change(turfs, topology, m);
        let ghost next = states.push(*topology);
        proof {
            assert forall|i: int| 0 <= i < index implies #[trigger] adjacency_step_ok(turfs@, next[i], next[i + 1], mutations@[i]) by {
                assert(next[i] == states[i] && next[i + 1] == states[i + 1]);
            }
            assert(next[index as int] == before);
        }
        match answer {
            Ok(changed) => {
                proof {
                    assert(adjacency_step(turfs@, next[index as int], next[index + 1], mutations@[index as int], Ok::<bool, WorldError>(changed)));
                    states = next;
                }
            },
            Err(e) => {
                proof {
                    assert(adjacency_run(turfs@, mutations@, next, Err::<u32, WorldError>(e)));
                    assert(next[0] == *old(topology) && next.last() == *topology);
                }
                return Err(e);
            },
        }
        index += 1;
    }
    proof {
        assert(adjacency_run(turfs@, mutations@, states, Ok::<u32, WorldError>(mutations@.len() as u32)));
    }
    Ok(mutations.len() as u32)
}

/// The refusal a firelock change gets before it reaches the topology, if any: both turfs live
/// and two different slots.
pub open spec fn firelock_refusal(turfs: Seq<TurfState>, m: TurfFirelockMutation) -> Option<WorldError> {
    if turf_refusal(turfs, m.left) is Some {
        turf_refusal(turfs, m.left)
    } else if turf_refusal(turfs, m.right) is Some {
        turf_refusal(turfs, m.right)
    } else if m.left.slot == m.right.slot {
        Some(WorldError::SelfTurfAdjacency(m.left))
    } else {
        None
    }
}

/// What one firelock change did to the topology and what it answered.
pub open spec fn firelock_step(
    turfs: Seq<TurfState>,
    before: PackedTopology,
    after: PackedTopology,
    m: TurfFirelockMutation,
    r: Result<bool, WorldError>,
) -> bool {
    match firelock_refusal(turfs, m) {
        Some(e) => r == Err::<bool, WorldError>(e) && after == before,
        None => exists|tr: Result<bool, TopologyError>| #[trigger]
            PackedTopology::firelock_outcome(before, after, m.left, m.right, m.firelock, tr) && world_answer(tr, r),
    }
}

/// Applies one firelock change, as [`firelock_step`] describes.
pub fn apply_firelock_change(turfs: &Vec<TurfState>, topology: &mut PackedTopology, m: TurfFirelockMutation) -> (r:
    Result<bool, WorldError>)
    requires
        old(topology).wf(),
        gas_lists_live(*old(topology), turfs@),
    ensures
        final(topology).wf(),
        gas_lists_live(*final(topology), turfs@),
        firelock_step(turfs@, *old(topology), *final(topology), m, r),
        r is Ok ==> turf_live(turfs@, m.left) && turf_live(turfs@, m.right) && m.left.slot != m.right.slot,
{
    proof {
        lemma_firelock_needs_live_turfs(turfs@, m);
    }
    if let Err(e) = require_turf(turfs, m.left) {
        return Err(e);
    }
    if let Err(e) = require_turf(turfs, m.right) {
        return Err(e);
    }
    if m.left.slot == m.right.slot {
        return Err(WorldError::SelfTurfAdjacency(m.left));
    }
    let ghost before = *topology;
    proof {
        lemma_live_lists_back(before, turfs@, m.left, m.right);
    }
    let tr = topology.set_firelock(m.left, m.right, m.firelock);
    proof {
        let after = *topology;
        if tr == Ok::<bool, TopologyError>(true) {
            assert forall|a: int, n: TopologyNeighbor| #[trigger] row_has(after.row(a, false), n) implies row_has(
                before.row(a, false),
                n,
            ) || turf_refusal(turfs@, n.handle) is None by {
                if a != m.left.slot as int && a != m.right.slot as int {
                    assert(after.row(a, false) == before.row(a, false));
                }
            }
        }
        lemma_live_kept(before, after, turfs@);
    }
    match tr {
        Ok(changed) => Ok(changed),
        Err(te) => Err(map_topology_error(te)),
    }
}

/// Whether one firelock change succeeded in taking `before` to `after`.
pub open spec fn firelock_step_ok(
    turfs: Seq<TurfState>,
    before: PackedTopology,
    after: PackedTopology,
    m: TurfFirelockMutation,
) -> bool {
    exists|changed: bool| #[trigger] firelock_step(turfs, before, after, m, Ok::<bool, WorldError>(changed))
}

/// A run of a firelock batch through the topologies `states`, as [`adjacency_run`] describes
/// for adjacency batches.
pub open spec fn firelock_run(
    turfs: Seq<TurfState>,
    mutations: Seq<TurfFirelockMutation>,
    states: Seq<PackedTopology>,
    r: Result<u32, WorldError>,
) -> bool {
    match r {
        Ok(n) => {
            &&& states.len() == mutations.len() + 1
            &&& n == mutations.len() as u32
            &&& forall|i: int|
                0 <= i < mutations.len() ==> #[trigger] firelock_step_ok(turfs, states[i], states[i + 1], mutations[i])
        },
        Err(e) => {
            &&& 2 <= states.len() <= mutations.len() + 1
            &&& forall|i: int|
                0 <= i < states.len() - 2 ==> #[trigger] firelock_step_ok(turfs, states[i], states[i + 1], mutations[i])
            &&& firelock_step(
                turfs,
                states[states.len() - 2],
                states[states.len() - 1],
                mutations[states.len() - 2],
                Err::<bool, WorldError>(e),
            )
        },
    }
}

/// The refusal of firelock batches while a stage is in progress.
pub open spec fn firelock_conflict() -> WorldError {
    WorldError::StageConflict(StageConflictReason::ActiveStageMutation { operation: "apply turf firelocks" })
}

/// Applies a batch of firelock changes in order, as [`firelock_run`] describes; refused
/// outright while a stage is in progress.
pub fn apply_turf_firelocks(
    stage_active: bool,
    turfs: &Vec<TurfState>,
    topology: &mut PackedTopology,
    mutations: &[TurfFirelockMutation],
) -> (r: Result<u32, WorldError>)
    requires
        old(topology).wf(),
        gas_lists_live(*old(topology), turfs@),
    ensures
        final(topology).wf(),
        gas_lists_live(*final(topology), turfs@),
        stage_active ==> r == Err::<u32, WorldError>(firelock_conflict()) && *final(topology) == *old(topology),
        !stage_active ==> exists|states: Seq<PackedTopology>| #[trigger]
            firelock_run(turfs@, mutations@, states, r) && states[0] == *old(topology) && states.last()
                == *final(topology),
{
    if stage_active {
        return Err(WorldError::StageConflict(StageConflictReason::ActiveStageMutation { operation: "apply turf firelocks" }));
    }
    let ghost mut states: Seq<PackedTopology> = seq![*topology];
    let mut index: usize = 0;
    while index < mutations.len()
        invariant
            !stage_active,
            index <= mutations@.len(),
            topology.wf(),
            gas_lists_live(*topology, turfs@),
            states.len() == index + 1,
            states[0] == *old(topology),
            states.last() == *topology,
            forall|i: int|
                0 <= i < index ==> #[trigger] firelock_step_ok(turfs@, states[i], states[i + 1], mutations@[i]),
        decreases mutations@.len() - index,
    {
        let m = mutations[index];
        let ghost before = *topology;
        let answer = apply_firelock_change(turfs, topology, m);
        let ghost next = states.push(*topology);
        proof {
            assert forall|i: int| 0 <= i < index implies #[trigger] firelock_step_ok(turfs@, next[i], next[i + 1], mutations@[i]) by {
                assert(next[i] == states[i] && next[i + 1] == states[i + 1]);
            }
            assert(next[index as int] == before);
        }
        match answer {
            Ok(changed) => {
                proof {
                    assert(firelock_step(turfs@, next[index as int], next[index + 1], mutations@[index as int], Ok::<bool, WorldError>(changed)));
                    states = next;
                }
            },
            Err(e) => {
                proof {
                    assert(firelock_run(turfs@, mutations@, next, Err::<u32, WorldError>(e)));
                    assert(next[0] == *old(topology) && next.last() == *topology);
                }
                return Err(e);
            },
        }
        index += 1;
    }
    proof {
        assert(firelock_run(turfs@, mutations@, states, Ok::<u32, WorldError>(mutations@.len() as u32)));
    }
    Ok(mutations.len() as u32)
}

/// A refused adjacency change leaves the topology as the changes before it left it: every
/// list, both connection counts and the revision. So a refused batch keeps exactly what its
/// earlier changes did, and nothing of the refused one.
pub proof fn lemma_refused_adjacency_keeps_topology(
    turfs: Seq<TurfState>,
    before: PackedTopology,
    after: PackedTopology,
    m: TurfAdjacencyMutation,
    e: WorldError,
)
    requires
        adjacency_step(turfs, before, after, m, Err::<bool, WorldError>(e)),
    ensures
        forall|a: int, k: bool| #[trigger] after.row(a, k) == before.row(a, k),
        after.edge_count(false) == before.edge_count(false),
        after.edge_count(true) == before.edge_count(true),
        after.revision_value() == before.revision_value(),
{
    if adjacency_refusal(turfs, m) is None && m.connected {
        let tr = choose|tr: Result<bool, TopologyError>| #[trigger]
            PackedTopology::connect_outcome(before, after, m.left, m.right, false, tr) && world_answer(
                tr,
                Err::<bool, WorldError>(e),
            ) && (tr == Ok::<bool, TopologyError>(true) ==> after.edge_count(false) == before.edge_count(false) + 1
                && after.revision_value() == before.revision_value().wrapping_add(1)) && (tr != Ok::<
                bool,
                TopologyError,
            >(true) ==> after.edge_count(false) == before.edge_count(false) && after.revision_value()
                == before.revision_value() && forall|a: int, k: bool| #[trigger] after.row(a, k) == before.row(a, k))
                && after.edge_count(true) == before.edge_count(true);
        assert(tr is Err);
    }
}

/// A refused firelock change leaves the topology as the changes before it left it: every
/// list, both connection counts and the revision.
pub proof fn lemma_refused_firelock_keeps_topology(
    turfs: Seq<TurfState>,
    before: PackedTopology,
    after: PackedTopology,
    m: TurfFirelockMutation,
    e: WorldError,
)
    requires
        firelock_step(turfs, before, after, m, Err::<bool, WorldError>(e)),
    ensures
        forall|a: int, k: bool| #[trigger] after.row(a, k) == before.row(a, k),
        after.edge_count(false) == before.edge_count(false),
        after.edge_count(true) == before.edge_count(true),
        after.revision_value() == before.revision_value(),
{
    if firelock_refusal(turfs, m) is None {
        let tr = choose|tr: Result<bool, TopologyError>| #[trigger]
            PackedTopology::firelock_outcome(before, after, m.left, m.right, m.firelock, tr) && world_answer(
                tr,
                Err::<bool, WorldError>(e),
            );
        assert(tr is Err);
    }
}

/// An adjacency change goes through only between two live turfs of different slots that
/// both have a mixture; between live turfs, a turf without a mixture is refused by name, the
/// left one first.
pub proof fn lemma_adjacency_needs_live_mixtures(turfs: Seq<TurfState>, m: TurfAdjacencyMutation)
    ensures
        adjacency_refusal(turfs, m) is None ==> turf_live(turfs, m.left) && turf_live(turfs, m.right)
            && turfs[m.left.slot as int].has_mixture && turfs[m.right.slot as int].has_mixture && m.left.slot
            != m.right.slot,
        turf_live(turfs, m.left) && turf_live(turfs, m.right) && !turfs[m.left.slot as int].has_mixture
            ==> adjacency_refusal(turfs, m) == Some(WorldError::TurfMissingMixture(m.left)),
        turf_live(turfs, m.left) && turf_live(turfs, m.right) && turfs[m.left.slot as int].has_mixture
            && !turfs[m.right.slot as int].has_mixture ==> adjacency_refusal(turfs, m) == Some(
            WorldError::TurfMissingMixture(m.right),
        ),
{
    lemma_turf_refusal_rules(turfs, m.left);
    lemma_turf_refusal_rules(turfs, m.right);
}

/// A firelock change goes through only between two live turfs of different slots.
pub proof fn lemma_firelock_needs_live_turfs(turfs: Seq<TurfState>, m: TurfFirelockMutation)
    ensures
        firelock_refusal(turfs, m) is None ==> turf_live(turfs, m.left) && turf_live(turfs, m.right) && m.left.slot
            != m.right.slot,
{
    lemma_turf_refusal_rules(turfs, m.left);
    lemma_turf_refusal_rules(turfs, m.right);
}

} // verus!
