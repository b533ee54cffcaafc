//! Topology rows copied into a component kernel, keyed by turf handle.
use vstd::prelude::*;

use crate::handles::TurfHandle;
use crate::slot_index::SlotIndex;
use crate::topology::{TopologyNeighbor, MAX_TURF_NEIGHBORS};

verus! {

/// The neighbors present in `row`, in row order.
pub open spec fn present(row: Seq<Option<TopologyNeighbor>>) -> Seq<TopologyNeighbor>
    decreases row.len(),
{
    if row.len() == 0 {
        Seq::empty()
    } else {
        let earlier = present(row.drop_last());
        match row.last() {
            Some(neighbor) => earlier.push(neighbor),
            None => earlier,
        }
    }
}

/// Gas neighbor rows of the turfs in a component.
pub struct ComponentTopology(pub SlotIndex<TurfHandle, [Option<TopologyNeighbor>; MAX_TURF_NEIGHBORS]>);

impl ComponentTopology {
    /// The gas neighbors recorded for `handle`, in row order; none when `handle` has no row.
    pub fn gas_neighbors(&self, handle: TurfHandle) -> (r: Vec<TopologyNeighbor>)
        requires
            self.0.wf(),
        ensures
            self.0.contents().contains_key(handle) ==> r@ == present(self.0.contents()[handle]@),
            !self.0.contents().contains_key(handle) ==> r@.len() == 0,
    {
        let mut result: Vec<TopologyNeighbor> = Vec::new();
        let row = match self.0.get(&handle) {
            Some(row) => row,
            None => {
                return result;
            },
        };
        let mut index: usize = 0;
        while index < MAX_TURF_NEIGHBORS
            invariant
                index <= MAX_TURF_NEIGHBORS,
                row@.len() == MAX_TURF_NEIGHBORS,
                result@ == present(row@.take(index as int)),
            decreases MAX_TURF_NEIGHBORS - index,
        {
            proof {
                assert(row@.take(index as int + 1).drop_last() =~= row@.take(index as int));
            }
            if let Some(neighbor) = row[index] {
                result.push(neighbor);
            }
            index += 1;
        }
        proof {
            assert(row@.take(MAX_TURF_NEIGHBORS as int) =~= row@);
        }
        result
    }
}

} // verus!
