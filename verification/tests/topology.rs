use dogmos::component::ComponentTopology;
use dogmos::slot_index::SlotIndex;
use dogmos::handles::TurfHandle;
use dogmos::topology::{PackedTopology, TopologyError, TopologyNeighbor};

fn turf(slot: u32) -> TurfHandle {
    TurfHandle { slot, generation: 1 }
}

#[test]
fn connections_are_symmetric_sorted_and_counted() {
    let mut topology = PackedTopology::new();
    assert_eq!(topology.connect_gas(turf(2), turf(5)), Ok(true));
    assert_eq!(topology.connect_gas(turf(2), turf(1)), Ok(true));
    assert_eq!(topology.connect_gas(turf(5), turf(2)), Ok(false));
    assert_eq!(topology.gas_edge_count(), 2);
    assert_eq!(topology.revision(), 2);
    let neighbors: Vec<u32> = topology
        .gas_neighbors(turf(2))
        .iter()
        .map(|neighbor| neighbor.handle.slot)
        .collect();
    assert_eq!(neighbors, vec![1, 5]);
    assert_eq!(
        topology.gas_neighbors(turf(5)),
        vec![TopologyNeighbor {
            handle: turf(2),
            firelock: false
        }]
    );
    assert_eq!(topology.gas_slot_edges(), vec![(1, 2, false), (2, 5, false)]);
    assert_eq!(topology.heat_edge_count(), 0);
    assert!(topology.heat_slot_edges().is_empty());
}

#[test]
fn self_edges_and_full_lists_are_rejected() {
    let mut topology = PackedTopology::new();
    assert_eq!(
        topology.connect_heat(turf(3), turf(3)),
        Err(TopologyError::SelfEdge(turf(3)))
    );
    for other in 10..16 {
        assert_eq!(topology.connect_heat(turf(0), turf(other)), Ok(true));
    }
    assert_eq!(
        topology.connect_heat(turf(0), turf(20)),
        Err(TopologyError::DegreeExceeded(turf(0)))
    );
    assert_eq!(topology.heat_edge_count(), 6);
    assert_eq!(topology.heat_slot_edges().len(), 6);
}

#[test]
fn firelocks_change_both_sides_and_require_a_gas_edge() {
    let mut topology = PackedTopology::new();
    assert_eq!(
        topology.set_firelock(turf(1), turf(2), true),
        Err(TopologyError::MissingGasEdge)
    );
    topology.connect_gas(turf(1), turf(2)).unwrap();
    assert_eq!(topology.set_firelock(turf(1), turf(2), true), Ok(true));
    assert_eq!(topology.set_firelock(turf(2), turf(1), true), Ok(false));
    assert!(topology.gas_neighbors(turf(2))[0].firelock);
    assert_eq!(topology.gas_slot_edges(), vec![(1, 2, true)]);
}

#[test]
fn removing_a_slot_drops_every_reference() {
    let mut topology = PackedTopology::new();
    topology.connect_gas(turf(1), turf(2)).unwrap();
    topology.connect_gas(turf(1), turf(3)).unwrap();
    topology.connect_heat(turf(1), turf(3)).unwrap();
    topology.connect_gas(turf(2), turf(3)).unwrap();
    assert!(topology.remove_turf(turf(1)));
    assert!(!topology.remove_slot(1));
    assert!(!topology.remove_slot(99));
    assert_eq!(topology.gas_edge_count(), 1);
    assert_eq!(topology.heat_edge_count(), 0);
    assert!(topology.gas_neighbors(turf(1)).is_empty());
    assert_eq!(topology.gas_slot_edges(), vec![(2, 3, false)]);
    assert!(topology.disconnect_gas(turf(3), turf(2)));
    assert!(!topology.disconnect_gas(turf(3), turf(2)));
    assert_eq!(topology.gas_edge_count(), 0);
    assert!(topology.allocated_bytes() > 0);
}

#[test]
fn component_rows_list_present_neighbors_in_order() {
    let first = TopologyNeighbor { handle: TurfHandle { slot: 4, generation: 1 }, firelock: false };
    let second = TopologyNeighbor { handle: TurfHandle { slot: 9, generation: 0 }, firelock: true };
    let turf = TurfHandle { slot: 2, generation: 5 };
    let mut rows = SlotIndex::new();
    rows.insert(turf, [None, Some(first), None, None, Some(second), None]);
    let component = ComponentTopology(rows);
    assert_eq!(component.gas_neighbors(turf), vec![first, second]);
    assert!(component.gas_neighbors(TurfHandle { slot: 2, generation: 6 }).is_empty());
    assert!(component.gas_neighbors(TurfHandle { slot: 7, generation: 0 }).is_empty());
}

#[test]
fn heat_edges_disconnect_on_both_sides() {
    let mut topology = PackedTopology::new();
    topology.connect_heat(turf(1), turf(2)).unwrap();
    topology.connect_gas(turf(1), turf(2)).unwrap();
    assert!(topology.disconnect_heat(turf(2), turf(1)));
    assert!(!topology.disconnect_heat(turf(1), turf(2)));
    assert_eq!(topology.heat_edge_count(), 0);
    assert_eq!(topology.gas_edge_count(), 1);
    assert!(topology.heat_neighbors(turf(1)).is_empty());
    assert_eq!(topology.gas_neighbors(turf(1)).len(), 1);
}

#[test]
fn connecting_then_disconnecting_restores_every_list() {
    let mut topology = PackedTopology::new();
    topology.connect_gas(turf(3), turf(1)).unwrap();
    topology.connect_gas(turf(3), turf(7)).unwrap();
    topology.set_firelock(turf(3), turf(7), true).unwrap();
    let before: Vec<Vec<TopologyNeighbor>> = (0..9).map(|slot| topology.gas_neighbors(turf(slot))).collect();
    let revision = topology.revision();
    assert_eq!(topology.connect_gas(turf(3), turf(5)), Ok(true));
    assert!(topology.disconnect_gas(turf(5), turf(3)));
    let after: Vec<Vec<TopologyNeighbor>> = (0..9).map(|slot| topology.gas_neighbors(turf(slot))).collect();
    assert_eq!(after, before);
    assert_eq!(topology.gas_edge_count(), 2);
    assert_eq!(topology.revision(), revision + 2);
}

#[test]
fn removing_a_turf_matches_removing_its_slot() {
    let mut first = PackedTopology::new();
    first.connect_gas(turf(1), turf(2)).unwrap();
    first.connect_gas(turf(2), turf(3)).unwrap();
    first.connect_heat(turf(2), turf(4)).unwrap();
    let mut second = first.clone();
    assert!(first.remove_turf(TurfHandle { slot: 2, generation: 9 }));
    assert!(second.remove_slot(2));
    for slot in 0..6 {
        assert_eq!(first.gas_neighbors(turf(slot)), second.gas_neighbors(turf(slot)));
        assert_eq!(first.heat_neighbors(turf(slot)), second.heat_neighbors(turf(slot)));
    }
    assert_eq!(first.gas_edge_count(), 0);
    assert_eq!(second.heat_edge_count(), 0);
    assert_eq!(first.revision(), second.revision());
}

#[test]
fn slot_edges_report_each_connection_once() {
    let mut topology = PackedTopology::new();
    topology.connect_gas(turf(4), turf(1)).unwrap();
    topology.connect_gas(turf(1), turf(6)).unwrap();
    topology.connect_gas(turf(6), turf(4)).unwrap();
    topology.connect_heat(turf(0), turf(6)).unwrap();
    topology.set_firelock(turf(6), turf(1), true).unwrap();
    let edges = topology.gas_slot_edges();
    assert_eq!(edges, vec![(1, 4, false), (1, 6, true), (4, 6, false)]);
    assert_eq!(edges.len(), topology.gas_edge_count());
    assert_eq!(topology.heat_slot_edges(), vec![(0, 6)]);
    assert_eq!(topology.heat_slot_edges().len(), topology.heat_edge_count());
}
