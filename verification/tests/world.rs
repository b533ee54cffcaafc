use dogmos::conduction::{canonical_edges, ConductionError};
use dogmos::handles::{MixtureHandle, TurfHandle};
use dogmos::topology::TopologyError;
use dogmos::transaction::TransactionError;
use dogmos::world::{
    map_topology_error, transaction_world_error, EdgeKey, StageConflictReason, WorldError,
    REACTION_FLAGS, REACTION_REACTING, REACTION_STOP, REACTION_VOLATILE,
};

#[test]
fn edge_keys_put_the_smaller_endpoint_first() {
    assert_eq!(EdgeKey::new(9, 4).unwrap(), EdgeKey { left: 4, right: 9 });
    assert_eq!(EdgeKey::new(4, 9).unwrap(), EdgeKey { left: 4, right: 9 });
    assert_eq!(EdgeKey::new(3, 3), Err(WorldError::SelfAdjacency(3)));
}

#[test]
fn transaction_errors_become_world_errors() {
    let a = MixtureHandle { slot: 1, generation: 2 };
    let b = MixtureHandle { slot: 1, generation: 3 };
    assert_eq!(transaction_world_error(TransactionError::AllocationFailed), WorldError::AllocationFailed);
    assert_eq!(
        transaction_world_error(TransactionError::CapacityExceeded),
        WorldError::StateCapacityExceeded
    );
    assert_eq!(
        transaction_world_error(TransactionError::HandleConflict { requested: a, current: b }),
        WorldError::StageConflict(StageConflictReason::TransactionGeneration { requested: a, current: b })
    );
    assert_eq!(
        transaction_world_error(TransactionError::UnknownHandle(a)),
        WorldError::DuplicateMutableTurfMixture(a)
    );
    assert_eq!(
        transaction_world_error(TransactionError::SameHandle(b)),
        WorldError::DuplicateMutableTurfMixture(b)
    );
}

#[test]
fn topology_errors_carry_their_diagnostic_text() {
    let turf = TurfHandle { slot: 12, generation: 345 };
    assert_eq!(map_topology_error(TopologyError::AllocationFailed), WorldError::AllocationFailed);
    assert_eq!(
        map_topology_error(TopologyError::SelfEdge(turf)),
        WorldError::Graph(format!("{:?}", TopologyError::SelfEdge(turf)))
    );
    assert_eq!(
        map_topology_error(TopologyError::DegreeExceeded(turf)),
        WorldError::Graph("DegreeExceeded(TurfHandle { slot: 12, generation: 345 })".to_string())
    );
    assert_eq!(
        map_topology_error(TopologyError::MissingGasEdge),
        WorldError::Graph("MissingGasEdge".to_string())
    );
}

#[test]
fn reaction_flags_are_distinct_bits() {
    assert_eq!(REACTION_FLAGS, REACTION_REACTING | REACTION_STOP | REACTION_VOLATILE);
    assert_eq!(REACTION_FLAGS, 7);
}

#[test]
fn canonical_edges_are_sorted_and_normalized() {
    assert_eq!(canonical_edges(&[(3, 1), (0, 2), (1, 0)], 4), Ok(vec![(0, 1), (0, 2), (1, 3)]));
    assert_eq!(canonical_edges(&[], 0), Ok(vec![]));
}

#[test]
fn canonical_edges_report_bad_endpoints_in_order() {
    assert_eq!(canonical_edges(&[(0, 1), (4, 1)], 4), Err(ConductionError::UnknownNode(4)));
    assert_eq!(canonical_edges(&[(0, 7)], 4), Err(ConductionError::UnknownNode(7)));
    assert_eq!(canonical_edges(&[(2, 2), (9, 1)], 4), Err(ConductionError::SelfEdge(2)));
}

#[test]
fn canonical_edges_name_the_smallest_duplicate() {
    assert_eq!(
        canonical_edges(&[(3, 2), (1, 0), (2, 3), (0, 1)], 4),
        Err(ConductionError::DuplicateEdge { first: 0, second: 1 })
    );
}
