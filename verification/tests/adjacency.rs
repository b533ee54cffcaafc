use dogmos::adjacency::{
    apply_adjacency_change, apply_firelock_change, apply_turf_adjacency, apply_turf_firelocks,
    require_turf, TurfState,
};
use dogmos::handles::TurfHandle;
use dogmos::topology::{PackedTopology, TopologyNeighbor};
use dogmos::world::{
    StageConflictReason, TurfAdjacencyMutation, TurfFirelockMutation, WorldError,
};

fn turf(slot: u32) -> TurfHandle {
    TurfHandle { slot, generation: 1 }
}

fn live() -> TurfState {
    TurfState { generation: Some(1), registered: true, has_mixture: true }
}

fn table(count: usize) -> Vec<TurfState> {
    vec![live(); count]
}

fn join(left: u32, right: u32) -> TurfAdjacencyMutation {
    TurfAdjacencyMutation { left: turf(left), right: turf(right), connected: true }
}

fn part(left: u32, right: u32) -> TurfAdjacencyMutation {
    TurfAdjacencyMutation { left: turf(left), right: turf(right), connected: false }
}

#[test]
fn turf_handles_must_be_live() {
    let mut turfs = table(3);
    turfs[1] = TurfState { generation: Some(4), registered: true, has_mixture: true };
    turfs[2] = TurfState { generation: Some(1), registered: false, has_mixture: false };
    assert_eq!(require_turf(&turfs, turf(0)), Ok(live()));
    assert_eq!(
        require_turf(&turfs, turf(1)),
        Err(WorldError::StaleTurfHandle { requested: turf(1), current: 4 })
    );
    assert_eq!(require_turf(&turfs, turf(2)), Err(WorldError::UnknownTurfHandle(turf(2))));
    assert_eq!(require_turf(&turfs, turf(7)), Err(WorldError::UnknownTurfHandle(turf(7))));
}

#[test]
fn adjacency_batches_connect_and_disconnect_in_order() {
    let turfs = table(4);
    let mut topology = PackedTopology::new();
    let batch = [join(0, 1), join(1, 2), part(0, 1), join(3, 2)];
    assert_eq!(apply_turf_adjacency(false, &turfs, &mut topology, &batch), Ok(4));
    assert_eq!(topology.gas_slot_edges(), vec![(1, 2, false), (2, 3, false)]);
    assert_eq!(topology.gas_edge_count(), 2);
    assert_eq!(topology.revision(), 4);
}

#[test]
fn adjacency_refusals_come_before_the_topology() {
    let mut turfs = table(3);
    turfs[2].has_mixture = false;
    let mut topology = PackedTopology::new();
    assert_eq!(
        apply_adjacency_change(&turfs, &mut topology, join(0, 2)),
        Err(WorldError::TurfMissingMixture(turf(2)))
    );
    assert_eq!(
        apply_adjacency_change(&turfs, &mut topology, join(1, 1)),
        Err(WorldError::SelfTurfAdjacency(turf(1)))
    );
    assert_eq!(
        apply_adjacency_change(&turfs, &mut topology, join(5, 1)),
        Err(WorldError::UnknownTurfHandle(turf(5)))
    );
    assert_eq!(topology.revision(), 0);
    assert_eq!(apply_adjacency_change(&turfs, &mut topology, join(0, 1)), Ok(true));
    assert_eq!(apply_adjacency_change(&turfs, &mut topology, join(1, 0)), Ok(false));
    assert_eq!(apply_adjacency_change(&turfs, &mut topology, part(1, 0)), Ok(true));
    assert_eq!(apply_adjacency_change(&turfs, &mut topology, part(1, 0)), Ok(false));
}

#[test]
fn a_refused_change_keeps_the_earlier_ones() {
    let turfs = table(9);
    let mut topology = PackedTopology::new();
    let mut batch: Vec<TurfAdjacencyMutation> = (1..7).map(|other| join(0, other)).collect();
    batch.push(join(0, 8));
    batch.push(join(7, 8));
    assert_eq!(
        apply_turf_adjacency(false, &turfs, &mut topology, &batch),
        Err(WorldError::Graph(
            "DegreeExceeded(TurfHandle { slot: 0, generation: 1 })".to_string()
        ))
    );
    assert_eq!(topology.gas_edge_count(), 6);
    assert_eq!(topology.revision(), 6);
    assert!(topology.gas_neighbors(turf(7)).is_empty());
    assert!(topology.gas_neighbors(turf(8)).is_empty());
}

#[test]
fn batches_wait_for_the_stage() {
    let turfs = table(2);
    let mut topology = PackedTopology::new();
    assert_eq!(
        apply_turf_adjacency(true, &turfs, &mut topology, &[join(0, 1)]),
        Err(WorldError::StageConflict(StageConflictReason::ActiveStageMutation {
            operation: "apply turf adjacency"
        }))
    );
    let lock = TurfFirelockMutation { left: turf(0), right: turf(1), firelock: true };
    assert_eq!(
        apply_turf_firelocks(true, &turfs, &mut topology, &[lock]),
        Err(WorldError::StageConflict(StageConflictReason::ActiveStageMutation {
            operation: "apply turf firelocks"
        }))
    );
    assert_eq!(topology.gas_edge_count(), 0);
}

#[test]
fn firelocks_need_a_gas_connection() {
    let turfs = table(3);
    let mut topology = PackedTopology::new();
    let lock = TurfFirelockMutation { left: turf(0), right: turf(1), firelock: true };
    assert_eq!(
        apply_firelock_change(&turfs, &mut topology, lock),
        Err(WorldError::Graph("MissingGasEdge".to_string()))
    );
    apply_turf_adjacency(false, &turfs, &mut topology, &[join(0, 1)]).unwrap();
    assert_eq!(apply_turf_firelocks(false, &turfs, &mut topology, &[lock, lock]), Ok(2));
    assert_eq!(
        topology.gas_neighbors(turf(1)),
        vec![TopologyNeighbor { handle: turf(0), firelock: true }]
    );
    let same = TurfFirelockMutation { left: turf(2), right: turf(2), firelock: false };
    assert_eq!(
        apply_firelock_change(&turfs, &mut topology, same),
        Err(WorldError::SelfTurfAdjacency(turf(2)))
    );
}
